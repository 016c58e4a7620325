//! One-parameter B-splines: evaluation, differentiation, knot insertion
//! and removal, normalization, inversion, concatenation and the degree
//! and knot co-refinement used by lofting.

use vstd::prelude::*;
use crate::scalar::{
    add_bits, sub_bits, mul_bits, div_bits, neg_bits, is_nan_bits, is_finite_bits, key_of,
    le_bits, lt_bits, eq_bits, int_bits, ONE_BITS,
};
use crate::scalar;
use crate::tolerance::{so_small_bits, inv_or_zero_bits};
use crate::tolerance;
use crate::vector::{
    zero_pt, vadd_s, vsub_s, vneg_s, smul_s, sdiv_s, pt_near_s, pt_near2_s,
    rat_proj_s, net_of, uniform_s,
};
use crate::vector;
use crate::knot_vec::{KnotVec, knots_wf, sorted_bits, ins_idx, basis_s, clamped_s};
use crate::knot_vec;
use crate::errors::Error;

verus! {

/// The weighted partial sum of the first `n` control points against the
/// weights `b`, accumulated from the front starting at the zero point.
pub open spec fn wsum_s(pts: Seq<Seq<u64>>, b: Seq<u64>, dim: nat, n: int) -> Seq<u64>
    decreases n,
{
    if n <= 0 {
        zero_pt(dim)
    } else {
        vadd_s(wsum_s(pts, b, dim, n - 1), smul_s(b[n - 1], pts[n - 1]))
    }
}

/// The control point delta of the derivative construction: the boundary
/// rows extend from the first point and the negated last point.
pub open spec fn delta_s(pts: Seq<Seq<u64>>, i: int) -> Seq<u64> {
    if i == 0 {
        pts[0]
    } else if i == pts.len() {
        vneg_s(pts[pts.len() - 1])
    } else {
        vsub_s(pts[i], pts[i - 1])
    }
}

/// The `i`-th control point of the derivative spline of degree-`k` data:
/// `k * (P[i] - P[i - 1]) / (K[i + k] - K[i])`, with coincident spans
/// suppressed by the guarded inverse.
pub open spec fn deriv_pt_s(pts: Seq<Seq<u64>>, kn: Seq<u64>, k: int, i: int) -> Seq<u64> {
    smul_s(
        mul_bits(int_bits(k), inv_or_zero_bits(sub_bits(kn[i + k], kn[i]))),
        delta_s(pts, i),
    )
}

/// The full control point sequence of the derivative spline.
pub open spec fn deriv_pts_s(pts: Seq<Seq<u64>>, kn: Seq<u64>, k: int) -> Seq<Seq<u64>> {
    Seq::new((pts.len() + 1) as nat, |i: int| deriv_pt_s(pts, kn, k, i))
}


/// The Boehm window coefficient at row `i0` for an insertion at knot
/// index `idx` of a degree-`k` spline over the already-extended knot
/// sequence `kn`.
pub open spec fn boehm_a(kn: Seq<u64>, idx: int, k: int, i0: int) -> u64 {
    mul_bits(
        inv_or_zero_bits(sub_bits(kn[i0 + k + 1], kn[i0])),
        sub_bits(kn[idx], kn[i0]),
    )
}

/// One in-place Boehm update: row `i0` becomes
/// `P[i0] - (1 - a) * (P[i0] - P[i0 - 1])`, the convex combination
/// `(1 - a) * P[i0 - 1] + a * P[i0]` written as a subtraction of the
/// scaled delta.
pub open spec fn boehm_step(
    pts: Seq<Seq<u64>>,
    kn: Seq<u64>,
    idx: int,
    k: int,
    i0: int,
) -> Seq<Seq<u64>> {
    pts.update(
        i0,
        vsub_s(
            pts[i0],
            smul_s(sub_bits(ONE_BITS, boehm_a(kn, idx, k, i0)), delta_s(pts, i0)),
        ),
    )
}

/// `c` Boehm updates walking the window downwards: step number `m`
/// touches row `end - m`.
pub open spec fn boehm_iter(
    pts: Seq<Seq<u64>>,
    kn: Seq<u64>,
    idx: int,
    k: int,
    end: int,
    c: nat,
) -> Seq<Seq<u64>>
    decreases c,
{
    if c == 0 {
        pts
    } else {
        boehm_step(boehm_iter(pts, kn, idx, k, end, (c - 1) as nat), kn, idx, k, end - c)
    }
}

/// The Boehm iteration preserves the number of rows and their
/// dimensions, and touches only the window rows.
pub proof fn lemma_boehm_iter_shape(
    pts: Seq<Seq<u64>>,
    kn: Seq<u64>,
    idx: int,
    k: int,
    end: int,
    c: nat,
    dim: nat,
)
    requires
        uniform_s(pts, dim),
        c <= end <= pts.len(),
    ensures
        boehm_iter(pts, kn, idx, k, end, c).len() == pts.len(),
        uniform_s(boehm_iter(pts, kn, idx, k, end, c), dim),
        forall|j: int| 0 <= j < pts.len() && !(end - c <= j < end)
            ==> #[trigger] boehm_iter(pts, kn, idx, k, end, c)[j] == pts[j],
    decreases c,
{
    if c > 0 {
        lemma_boehm_iter_shape(pts, kn, idx, k, end, (c - 1) as nat, dim);
        let prev = boehm_iter(pts, kn, idx, k, end, (c - 1) as nat);
        let cur = boehm_iter(pts, kn, idx, k, end, c);
        assert(cur == boehm_step(prev, kn, idx, k, end - c));
        assert(prev[end - c].len() == dim);
        assert(cur[end - c].len() == dim);
    }
}

/// The full control point transformation of a Boehm insertion at knot
/// index `idx`: a zero row is prepended when the new knot lies in front
/// of the old range, a zero row is appended when the insertion index
/// exceeds the control extent, and otherwise the affected window row is
/// duplicated and recombined.
pub open spec fn boehm_insert_s(
    pts: Seq<Seq<u64>>,
    kn_new: Seq<u64>,
    idx: int,
    k: int,
    dim: nat,
) -> Seq<Seq<u64>> {
    let n = pts.len() as int;
    if idx == 0 {
        seq![zero_pt(dim)] + pts
    } else {
        let base = if idx > n {
            pts.push(zero_pt(dim))
        } else {
            pts.insert(idx - 1, pts[idx - 1])
        };
        let end = if idx > n {
            n + 1
        } else {
            idx
        };
        let start = if idx > k {
            idx - k
        } else {
            0
        };
        boehm_iter(base, kn_new, idx, k, end, (end - start) as nat)
    }
}

/// A B-spline curve: a knot vector and a non-empty sequence of control
/// points, with more knots than control points.
pub struct BSplineCurve {
    knot_vec: KnotVec,
    control_points: Vec<Vec<u64>>,
}

impl BSplineCurve {
    /// The knot sequence of the curve.
    pub closed spec fn knots_s(&self) -> Seq<u64> {
        self.knot_vec@
    }

    /// The control point sequence of the curve.
    pub closed spec fn pts_s(&self) -> Seq<Seq<u64>> {
        net_of(self.control_points)
    }

    /// The common dimension of the control points.
    pub open spec fn dim_s(&self) -> nat {
        self.pts_s()[0].len()
    }

    /// The degree: knots minus control points minus one.
    pub open spec fn degree_s(&self) -> int {
        self.knots_s().len() - self.pts_s().len() - 1
    }

    /// The curve invariant: a well-formed knot sequence, at least one
    /// control point of positive dimension, all control points of equal
    /// dimension, and more knots than control points.
    pub open spec fn wf(&self) -> bool {
        &&& knots_wf(self.knots_s())
        &&& self.pts_s().len() >= 1
        &&& self.dim_s() >= 1
        &&& uniform_s(self.pts_s(), self.dim_s())
        &&& self.knots_s().len() > self.pts_s().len()
    }

    /// Wraps parts that are already known to satisfy the invariant; the
    /// non-validating escape hatch for pre-validated callers.
    pub fn new_unchecked(knot_vec: KnotVec, control_points: Vec<Vec<u64>>) -> (r: BSplineCurve)
        requires
            knots_wf(knot_vec@),
            net_of(control_points).len() >= 1,
            net_of(control_points)[0].len() >= 1,
            uniform_s(net_of(control_points), net_of(control_points)[0].len()),
            knot_vec@.len() > net_of(control_points).len(),
        ensures
            r.knots_s() == knot_vec@,
            r.pts_s() == net_of(control_points),
            r.wf(),
    {
        BSplineCurve { knot_vec, control_points }
    }

    /// Validating constructor.  Fails with `EmptyControlPoints` when
    /// there is no control point or a control point is empty, with
    /// `TooShortKnotVector` when the knot vector is not longer than the
    /// control point sequence, with `ZeroRange` when the knot range is
    /// zero up to the linear tolerance, and with `IrregularControlPoints`
    /// when the control points do not share one dimension.
    pub fn try_new(knot_vec: KnotVec, control_points: Vec<Vec<u64>>) -> (r: Result<
        BSplineCurve,
        Error,
    >)
        requires
            knot_vec.wf(),
        ensures
            r is Ok <==> net_of(control_points).len() >= 1 && net_of(control_points)[0].len()
                >= 1 && knot_vec@.len() > net_of(control_points).len() && !so_small_bits(
                sub_bits(knot_vec@[knot_vec@.len() - 1], knot_vec@[0]),
            ) && uniform_s(net_of(control_points), net_of(control_points)[0].len()),
            match r {
                Ok(c) => {
                    &&& c.knots_s() == knot_vec@
                    &&& c.pts_s() == net_of(control_points)
                    &&& c.wf()
                },
                Err(Error::EmptyControlPoints) => net_of(control_points).len() == 0
                    || net_of(control_points)[0].len() == 0,
                Err(Error::TooShortKnotVector(a, b)) => a == knot_vec@.len()
                    && b == net_of(control_points).len() && a <= b
                    && net_of(control_points).len() >= 1
                    && net_of(control_points)[0].len() >= 1,
                Err(Error::ZeroRange) => so_small_bits(
                    sub_bits(knot_vec@[knot_vec@.len() - 1], knot_vec@[0]),
                ) && net_of(control_points).len() >= 1 && net_of(control_points)[0].len() >= 1
                    && knot_vec@.len() > net_of(control_points).len(),
                Err(Error::IrregularControlPoints) => !uniform_s(
                    net_of(control_points),
                    net_of(control_points)[0].len(),
                ) && net_of(control_points).len() >= 1 && net_of(control_points)[0].len() >= 1
                    && knot_vec@.len() > net_of(control_points).len() && !so_small_bits(
                    sub_bits(knot_vec@[knot_vec@.len() - 1], knot_vec@[0]),
                ),
                _ => false,
            },
    {
        if control_points.len() == 0 {
            return Err(Error::EmptyControlPoints);
        }
        if control_points[0].len() == 0 {
            return Err(Error::EmptyControlPoints);
        }
        if knot_vec.len() <= control_points.len() {
            return Err(Error::TooShortKnotVector(knot_vec.len(), control_points.len()));
        }
        if tolerance::so_small(knot_vec.range_length()) {
            return Err(Error::ZeroRange);
        }
        let dim = control_points[0].len();
        proof {
            vector::lemma_net_index(control_points, 0);
        }
        let mut i: usize = 1;
        #[verifier::loop_isolation(false)]
        while i < control_points.len()
            invariant
                1 <= i <= control_points@.len(),
                forall|j: int| 0 <= j < i ==> (#[trigger] net_of(control_points)[j]).len()
                    == dim,
            decreases control_points@.len() - i,
        {
            proof {
                vector::lemma_net_index(control_points, i as int);
            }
            if control_points[i].len() != dim {
                return Err(Error::IrregularControlPoints);
            }
            i = i + 1;
        }
        Ok(BSplineCurve { knot_vec, control_points })
    }

    /// Constructor for callers that have already ruled the validation
    /// failures out.
    pub fn new(knot_vec: KnotVec, control_points: Vec<Vec<u64>>) -> (r: BSplineCurve)
        requires
            knot_vec.wf(),
            net_of(control_points).len() >= 1,
            net_of(control_points)[0].len() >= 1,
            uniform_s(net_of(control_points), net_of(control_points)[0].len()),
            knot_vec@.len() > net_of(control_points).len(),
            !so_small_bits(sub_bits(knot_vec@[knot_vec@.len() - 1], knot_vec@[0])),
        ensures
            r.knots_s() == knot_vec@,
            r.pts_s() == net_of(control_points),
            r.wf(),
    {
        match Self::try_new(knot_vec, control_points) {
            Ok(c) => c,
            Err(_) => {
                proof {
                    assert(false);
                }
                // Unreachable: the validation failures are ruled out.
                BSplineCurve {
                    knot_vec: KnotVec::bezier_knot(0),
                    control_points: vec![vec![0u64]],
                }
            },
        }
    }

    /// A reference to the knot vector.
    pub fn knot_vec(&self) -> (r: &KnotVec)
        ensures
            r@ == self.knots_s(),
    {
        &self.knot_vec
    }

    /// The knot at index `i`.
    pub fn knot(&self, i: usize) -> (r: u64)
        requires
            i < self.knots_s().len(),
        ensures
            r == self.knots_s()[i as int],
    {
        self.knot_vec.knot(i)
    }

    /// A reference to the control points.
    pub fn control_points(&self) -> (r: &Vec<Vec<u64>>)
        ensures
            net_of(*r) == self.pts_s(),
            r@.len() == self.pts_s().len(),
    {
        &self.control_points
    }

    /// A reference to the control point at index `i`.
    pub fn control_point(&self, i: usize) -> (r: &Vec<u64>)
        requires
            i < self.pts_s().len(),
        ensures
            r@ == self.pts_s()[i as int],
    {
        &self.control_points[i]
    }

    /// The number of control points.
    pub fn ctrl_len(&self) -> (r: usize)
        ensures
            r == self.pts_s().len(),
    {
        self.control_points.len()
    }

    /// The common dimension of the control points.
    pub fn dim(&self) -> (r: usize)
        requires
            self.wf(),
        ensures
            r == self.dim_s(),
    {
        self.control_points[0].len()
    }

    /// The degree of the curve.
    pub fn degree(&self) -> (r: usize)
        requires
            self.wf(),
        ensures
            r == self.degree_s(),
    {
        self.knot_vec.len() - self.control_points.len() - 1
    }

    /// An owned copy of the curve.
    pub fn duplicate(&self) -> (r: BSplineCurve)
        ensures
            r.knots_s() == self.knots_s(),
            r.pts_s() == self.pts_s(),
    {
        BSplineCurve {
            knot_vec: self.knot_vec.duplicate(),
            control_points: vector::copy_net(&self.control_points),
        }
    }

    /// Whether the knot vector is clamped for the degree of the curve.
    pub fn is_clamped(&self) -> (r: bool)
        requires
            self.wf(),
        ensures
            r == clamped_s(self.knots_s(), self.degree_s() as nat),
    {
        let k = self.degree();
        self.knot_vec.is_clamped(k)
    }

    /// Whether all control points are near the first one.
    pub fn is_const(&self) -> (r: bool)
        requires
            self.wf(),
        ensures
            r == forall|i: int| 0 <= i < self.pts_s().len() ==> pt_near_s(
                #[trigger] self.pts_s()[i],
                self.pts_s()[0],
            ),
    {
        let n = self.control_points.len();
        let mut i: usize = 0;
        #[verifier::loop_isolation(false)]
        while i < n
            invariant
                i <= n,
                forall|j: int| 0 <= j < i ==> pt_near_s(
                    #[trigger] self.pts_s()[j],
                    self.pts_s()[0],
                ),
            decreases n - i,
        {
            proof {
                vector::lemma_net_index(self.control_points, i as int);
                vector::lemma_net_index(self.control_points, 0);
                assert(self.pts_s()[i as int].len() == self.dim_s());
                assert(self.pts_s()[0].len() == self.dim_s());
            }
            if !vector::pt_near(&self.control_points[i], &self.control_points[0]) {
                return false;
            }
            i = i + 1;
        }
        true
    }

    /// Whether the rational projections of all control points are near
    /// the projection of the first one.
    pub fn is_rational_const(&self) -> (r: bool)
        requires
            self.wf(),
            self.dim_s() >= 2,
        ensures
            r == forall|i: int| 0 <= i < self.pts_s().len() ==> pt_near_s(
                rat_proj_s(#[trigger] self.pts_s()[i]),
                rat_proj_s(self.pts_s()[0]),
            ),
    {
        proof {
            vector::lemma_net_index(self.control_points, 0);
            assert(self.pts_s()[0].len() == self.dim_s());
        }
        let first = vector::rational_projection(&self.control_points[0]);
        let n = self.control_points.len();
        let mut i: usize = 0;
        #[verifier::loop_isolation(false)]
        while i < n
            invariant
                i <= n,
                first@ == rat_proj_s(self.pts_s()[0]),
                forall|j: int| 0 <= j < i ==> pt_near_s(
                    rat_proj_s(#[trigger] self.pts_s()[j]),
                    rat_proj_s(self.pts_s()[0]),
                ),
            decreases n - i,
        {
            proof {
                vector::lemma_net_index(self.control_points, i as int);
                assert(self.pts_s()[i as int].len() == self.dim_s());
            }
            let p = vector::rational_projection(&self.control_points[i]);
            if !vector::pt_near(&p, &first) {
                return false;
            }
            i = i + 1;
        }
        true
    }

    /// The evaluation of the curve at `t`: the weighted sum of the
    /// control points against the degree-`k` basis values.
    pub open spec fn subs_s(&self, t: u64) -> Seq<u64> {
        wsum_s(
            self.pts_s(),
            basis_s(self.knots_s(), self.degree_s() as nat, t),
            self.dim_s(),
            self.pts_s().len() as int,
        )
    }

    /// Evaluates the curve at the parameter `t`.
    pub fn subs(&self, t: u64) -> (r: Vec<u64>)
        requires
            self.wf(),
        ensures
            r@ == self.subs_s(t),
            r@.len() == self.dim_s(),
    {
        let k = self.degree();
        let b = self.knot_vec.bspline_basis_functions(k, t);
        let dim = self.dim();
        let n = self.control_points.len();
        let mut res = vector::vzero(dim);
        let mut i: usize = 0;
        let ghost bs = basis_s(self.knots_s(), self.degree_s() as nat, t);
        #[verifier::loop_isolation(false)]
        while i < n
            invariant
                i <= n,
                res@ == wsum_s(self.pts_s(), bs, self.dim_s(), i as int),
                res@.len() == self.dim_s(),
            decreases n - i,
        {
            proof {
                vector::lemma_net_index(self.control_points, i as int);
                assert(self.pts_s()[i as int].len() == self.dim_s());
            }
            let term = vector::smul(b[i], &self.control_points[i]);
            res = vector::vadd(&res, &term);
            i = i + 1;
        }
        res
    }

    /// Builds the curve of the first derivative.  The degree drops by
    /// one; when the degree is zero already, the result is the zero
    /// curve over the same knots.
    #[verifier::rlimit(50)]
    pub fn derivation(&self) -> (r: BSplineCurve)
        requires
            self.wf(),
        ensures
            r.knots_s() == self.knots_s(),
            r.wf(),
            r.dim_s() == self.dim_s(),
            self.degree_s() > 0 ==> r.pts_s() == deriv_pts_s(
                self.pts_s(),
                self.knots_s(),
                self.degree_s(),
            ),
            self.degree_s() == 0 ==> r.pts_s() == Seq::new(
                self.pts_s().len(),
                |i: int| zero_pt(self.dim_s()),
            ),
    {
        let k = self.degree();
        let n = self.control_points.len();
        let klen = self.knot_vec.len();
        let dim = self.dim();
        let mut new_points: Vec<Vec<u64>> = Vec::new();
        if k > 0 {
            let kf = scalar::from_int(k);
            let mut i: usize = 0;
            #[verifier::loop_isolation(false)]
            while i <= n
                invariant
                    i <= n + 1,
                    new_points@.len() == i,
                    forall|j: int| 0 <= j < i ==> #[trigger] new_points@[j]@ == deriv_pt_s(
                        self.pts_s(),
                        self.knots_s(),
                        self.degree_s(),
                        j,
                    ),
                    forall|j: int| 0 <= j < i ==> (#[trigger] new_points@[j]@).len()
                        == self.dim_s(),
                decreases n + 1 - i,
            {
                proof {
                    assert(klen == n + k + 1);
                    vector::lemma_net_index(self.control_points, 0);
                    vector::lemma_net_index(self.control_points, n - 1);
                    if 0 < i < n {
                        vector::lemma_net_index(self.control_points, i as int);
                        vector::lemma_net_index(self.control_points, i - 1);
                        assert(self.pts_s()[i as int].len() == self.dim_s());
                        assert(self.pts_s()[i as int - 1].len() == self.dim_s());
                    }
                    assert(self.pts_s()[0].len() == self.dim_s());
                    assert(self.pts_s()[n as int - 1].len() == self.dim_s());
                }
                let delta = scalar::fsub(self.knot_vec.knot(i + k), self.knot_vec.knot(i));
                let coef = scalar::fmul(kf, tolerance::inv_or_zero(delta));
                let dpt: Vec<u64> = if i == 0 {
                    vector::copy_pt(&self.control_points[0])
                } else if i == n {
                    vector::vneg(&self.control_points[n - 1])
                } else {
                    vector::vsub(&self.control_points[i], &self.control_points[i - 1])
                };
                proof {
                    assert(dpt@ == delta_s(self.pts_s(), i as int));
                }
                let newpt = vector::smul(coef, &dpt);
                proof {
                    assert(coef == mul_bits(
                        int_bits(self.degree_s()),
                        inv_or_zero_bits(sub_bits(
                            self.knots_s()[i + self.degree_s()],
                            self.knots_s()[i as int],
                        )),
                    ));
                    assert(newpt@ == deriv_pt_s(
                        self.pts_s(),
                        self.knots_s(),
                        self.degree_s(),
                        i as int,
                    ));
                }
                new_points.push(newpt);
                i = i + 1;
            }
            proof {
                assert forall|j: int| 0 <= j < net_of(new_points).len() implies #[trigger] net_of(
                    new_points,
                )[j] == deriv_pts_s(self.pts_s(), self.knots_s(), self.degree_s())[j] by {
                    assert(net_of(new_points)[j] == new_points@[j]@);
                }
                assert(net_of(new_points) =~= deriv_pts_s(
                    self.pts_s(),
                    self.knots_s(),
                    self.degree_s(),
                ));
                assert forall|j: int| 0 <= j < net_of(new_points).len() implies (
                #[trigger] net_of(new_points)[j]).len() == self.dim_s() by {
                    assert(net_of(new_points)[j] == new_points@[j]@);
                }
            }
        } else {
            let mut i: usize = 0;
            #[verifier::loop_isolation(false)]
            while i < n
                invariant
                    i <= n,
                    new_points@.len() == i,
                    forall|j: int| 0 <= j < i ==> #[trigger] new_points@[j]@ == zero_pt(
                        self.dim_s(),
                    ),
                decreases n - i,
            {
                new_points.push(vector::vzero(dim));
                i = i + 1;
            }
            proof {
                assert forall|j: int| 0 <= j < net_of(new_points).len() implies #[trigger] net_of(
                    new_points,
                )[j] == zero_pt(self.dim_s()) by {
                    assert(net_of(new_points)[j] == new_points@[j]@);
                }
                assert(net_of(new_points) =~= Seq::new(
                    self.pts_s().len(),
                    |i: int| zero_pt(self.dim_s()),
                ));
            }
        }
        BSplineCurve { knot_vec: self.knot_vec.duplicate(), control_points: new_points }
    }
}

/// Applies the descending Boehm window updates to the control rows
/// `start .. end` for an insertion at knot index `idx` over the already
/// extended knot vector.
#[verifier::rlimit(100)]
#[verifier::spinoff_prover]
#[verifier::loop_isolation(false)]
fn boehm_window(
    pts: &mut Vec<Vec<u64>>,
    kv: &KnotVec,
    idx: usize,
    k: usize,
    start: usize,
    end: usize,
    dim: usize,
)
    requires
        uniform_s(net_of(*old(pts)), dim as nat),
        start <= end <= old(pts)@.len(),
        end + k + 1 <= kv@.len(),
        idx < kv@.len(),
    ensures
        net_of(*final(pts)) == boehm_iter(
            net_of(*old(pts)),
            kv@,
            idx as int,
            k as int,
            end as int,
            (end - start) as nat,
        ),
        final(pts)@.len() == old(pts)@.len(),
        uniform_s(net_of(*final(pts)), dim as nat),
{
    let ghost base = net_of(*pts);
    let ghost knew = kv@;
    let kvlen = kv.len();
    let mut cnt: usize = 0;
    while cnt < end - start
        invariant
            0 <= cnt <= end - start,
            pts@.len() == base.len(),
            net_of(*pts) == boehm_iter(base, knew, idx as int, k as int, end as int, cnt as nat),
            uniform_s(net_of(*pts), dim as nat),
        decreases end - start - cnt,
    {
        let i0 = end - 1 - cnt;
        proof {
            assert(i0 + k + 1 < kvlen);
            lemma_boehm_iter_shape(base, knew, idx as int, k as int, end as int, cnt as nat,
                dim as nat);
            assert(net_of(*pts)[i0 as int].len() == dim);
            if i0 > 0 {
                assert(net_of(*pts)[i0 - 1].len() == dim);
            }
            assert(net_of(*pts)[i0 as int] == pts@[i0 as int]@);
            if i0 > 0 {
                assert(net_of(*pts)[i0 - 1] == pts@[i0 - 1]@);
            }
        }
        let delta = scalar::fsub(kv.knot(i0 + k + 1), kv.knot(i0));
        let a = scalar::fmul(
            tolerance::inv_or_zero(delta),
            scalar::fsub(kv.knot(idx), kv.knot(i0)),
        );
        let one_minus = scalar::fsub(ONE_BITS, a);
        let dlt: Vec<u64> = if i0 == 0 {
            vector::copy_pt(&pts[0])
        } else {
            vector::vsub(&pts[i0], &pts[i0 - 1])
        };
        proof {
            assert(dlt@ == delta_s(net_of(*pts), i0 as int));
            assert(a == boehm_a(knew, idx as int, k as int, i0 as int));
        }
        let p = vector::smul(one_minus, &dlt);
        let upd = vector::vsub(&pts[i0], &p);
        let ghost before = net_of(*pts);
        pts.set(i0, upd);
        proof {
            assert forall|j: int| 0 <= j < net_of(*pts).len() implies #[trigger] net_of(*pts)[j]
                == boehm_step(before, knew, idx as int, k as int, i0 as int)[j] by {
                assert(net_of(*pts)[j] == pts@[j]@);
            }
            assert(net_of(*pts) =~= boehm_step(before, knew, idx as int, k as int, i0 as int));
            assert(end - (cnt + 1) == i0 as int);
        }
        cnt = cnt + 1;
    }
    proof {
        lemma_boehm_iter_shape(base, knew, idx as int, k as int, end as int,
            (end - start) as nat, dim as nat);
    }
}

impl BSplineCurve {
    /// Boehm knot insertion: inserts `x` into the knot vector at its
    /// sorted position and recombines the control points in the affected
    /// window, so that the curve is unchanged pointwise; returns the
    /// insertion index.
    #[verifier::rlimit(100)]
    #[verifier::spinoff_prover]
    #[verifier::loop_isolation(false)]
    pub fn add_knot(&mut self, x: u64) -> (r: usize)
        requires
            old(self).wf(),
            !is_nan_bits(x),
        ensures
            r == ins_idx(old(self).knots_s(), x),
            final(self).knots_s() == old(self).knots_s().insert(r as int, x),
            final(self).pts_s() == boehm_insert_s(
                old(self).pts_s(),
                final(self).knots_s(),
                r as int,
                old(self).degree_s(),
                old(self).dim_s(),
            ),
            final(self).wf(),
            final(self).dim_s() == old(self).dim_s(),
            final(self).degree_s() == old(self).degree_s(),
    {
        let k = self.degree();
        let n = self.control_points.len();
        let dim = self.dim();
        let ghost opts = self.pts_s();

        let idx = self.knot_vec.add_knot(x);
        let ghost knew = self.knots_s();
        if idx == 0 {
            self.control_points.insert(0, vector::vzero(dim));
            proof {
                assert forall|j: int| 0 <= j < self.pts_s().len() implies #[trigger] self.pts_s()[j]
                    == (seq![zero_pt(old(self).dim_s())] + opts)[j] by {
                    assert(self.pts_s()[j] == self.control_points@[j]@);
                    if j > 0 {
                        assert(self.control_points@[j] == old(self).control_points@[j - 1]);
                    }
                }
                assert(self.pts_s() =~= seq![zero_pt(old(self).dim_s())] + opts);
                assert forall|j: int| 0 <= j < self.pts_s().len() implies (
                #[trigger] self.pts_s()[j]).len() == old(self).dim_s() by {}
            }
            return 0;
        }

        // Extend the control sequence by one row.
        let end: usize = if idx > n {
            self.control_points.push(vector::vzero(dim));
            n + 1
        } else {
            let dup = vector::copy_pt(&self.control_points[idx - 1]);
            self.control_points.insert(idx - 1, dup);
            idx
        };
        let start: usize = if idx > k {
            idx - k
        } else {
            0
        };
        let ghost base = self.pts_s();
        proof {
            if idx > n {
                assert forall|j: int| 0 <= j < base.len() implies #[trigger] base[j]
                    == opts.push(zero_pt(old(self).dim_s()))[j] by {
                    assert(base[j] == self.control_points@[j]@);
                }
                assert(base =~= opts.push(zero_pt(old(self).dim_s())));
            } else {
                old(self).control_points@.insert_ensures(idx - 1, self.control_points@[idx - 1]);
                assert forall|j: int| 0 <= j < base.len() implies #[trigger] base[j]
                    == opts.insert(idx - 1, opts[idx - 1])[j] by {
                    assert(base[j] == self.control_points@[j]@);
                    opts.insert_ensures(idx - 1, opts[idx - 1]);
                }
                assert(base =~= opts.insert(idx - 1, opts[idx - 1]));
            }
            assert(uniform_s(base, old(self).dim_s()));
            knot_vec::lemma_ins_idx_char(old(self).knots_s(), x);
            assert(start <= end <= base.len());
        }

        // Recombine the window rows, walking downwards.
        boehm_window(&mut self.control_points, &self.knot_vec, idx, k, start, end, dim);
        idx
    }
}

/// The removal window coefficient at window row `i`.
pub open spec fn rm_a(kn: Seq<u64>, idx: int, k: int, i: int) -> u64 {
    mul_bits(
        inv_or_zero_bits(sub_bits(kn[i + k + 1], kn[i])),
        sub_bits(kn[idx], kn[i]),
    )
}

/// The number of inversion steps the removal takes before the window
/// coefficient degenerates: the first offset at or after `m` whose
/// coefficient is small, or `k` when none is.
pub open spec fn rm_count_from(kn: Seq<u64>, idx: int, k: int, m: nat) -> nat
    decreases k - m,
{
    if m >= k {
        k as nat
    } else if so_small_bits(rm_a(kn, idx, k, idx - k + m)) {
        m
    } else {
        rm_count_from(kn, idx, k, m + 1)
    }
}

/// The `m`-th reconstructed control point of the removal: candidate zero
/// is the row in front of the window, and each next candidate inverts
/// one Boehm combination.
pub open spec fn rm_cand(pts: Seq<Seq<u64>>, kn: Seq<u64>, idx: int, k: int, m: nat) -> Seq<u64>
    decreases m,
{
    if m == 0 {
        pts[idx - k - 1]
    } else {
        let i = idx - k + m - 1;
        let a = rm_a(kn, idx, k, i);
        vsub_s(
            sdiv_s(pts[i], a),
            sdiv_s(smul_s(sub_bits(ONE_BITS, a), rm_cand(pts, kn, idx, k, (m - 1) as nat)), a),
        )
    }
}

/// The control rows after writing the reconstructed candidates one to
/// `m` back over the window rows; the candidates are all computed from
/// the original rows.
pub open spec fn rm_write(pts: Seq<Seq<u64>>, kn: Seq<u64>, idx: int, k: int, m: nat) -> Seq<
    Seq<u64>,
>
    decreases m,
{
    if m == 0 {
        pts
    } else {
        rm_write(pts, kn, idx, k, (m - 1) as nat).update(
            idx - k + m - 1,
            rm_cand(pts, kn, idx, k, m),
        )
    }
}

/// The reconstructed candidates keep the common dimension.
pub proof fn lemma_rm_cand_dim(pts: Seq<Seq<u64>>, kn: Seq<u64>, idx: int, k: int, m: nat, dim: nat)
    requires
        uniform_s(pts, dim),
        k + 1 <= idx < pts.len(),
        m <= k,
    ensures
        rm_cand(pts, kn, idx, k, m).len() == dim,
    decreases m,
{
    if m > 0 {
        lemma_rm_cand_dim(pts, kn, idx, k, (m - 1) as nat, dim);
    }
}

/// The write-back keeps the shape of the control rows.
pub proof fn lemma_rm_write_shape(
    pts: Seq<Seq<u64>>,
    kn: Seq<u64>,
    idx: int,
    k: int,
    m: nat,
    dim: nat,
)
    requires
        uniform_s(pts, dim),
        k + 1 <= idx < pts.len(),
        m <= k,
    ensures
        rm_write(pts, kn, idx, k, m).len() == pts.len(),
        uniform_s(rm_write(pts, kn, idx, k, m), dim),
        forall|j: int| 0 <= j < pts.len() && !(idx - k <= j < idx - k + m)
            ==> #[trigger] rm_write(pts, kn, idx, k, m)[j] == pts[j],
    decreases m,
{
    if m > 0 {
        lemma_rm_write_shape(pts, kn, idx, k, (m - 1) as nat, dim);
        lemma_rm_cand_dim(pts, kn, idx, k, m, dim);
    }
}


/// Whether a removal at `idx` is accepted for the knot sequence and
/// control points of a curve: the index lies outside the clamped
/// blocks and the reconstructed control point agrees with the stored
/// one up to the linear tolerance.
pub open spec fn rm_ok_at(kn: Seq<u64>, pts: Seq<Seq<u64>>, idx: int) -> bool {
    let k = kn.len() - pts.len() - 1;
    let cnt = rm_count_from(kn, idx, k, 0);
    k + 1 <= idx < pts.len() && pt_near_s(pts[idx], rm_cand(pts, kn, idx, k, cnt))
}

/// The control points after an accepted removal at `idx`.
pub open spec fn rm_removed_pts(kn: Seq<u64>, pts: Seq<Seq<u64>>, idx: int) -> Seq<Seq<u64>> {
    let k = kn.len() - pts.len() - 1;
    rm_write(pts, kn, idx, k, rm_count_from(kn, idx, k, 0)).remove(idx)
}

/// The second state arises from the first by `n` accepted knot
/// removals.
pub open spec fn rm_chain(
    kn1: Seq<u64>,
    p1: Seq<Seq<u64>>,
    kn2: Seq<u64>,
    p2: Seq<Seq<u64>>,
    n: nat,
) -> bool
    decreases n,
{
    if n == 0 {
        kn1 == kn2 && p1 == p2
    } else {
        exists|idx: int| #[trigger] rm_ok_at(kn1, p1, idx) && rm_chain(
            kn1.remove(idx),
            rm_removed_pts(kn1, p1, idx),
            kn2,
            p2,
            (n - 1) as nat,
        )
    }
}

/// A removal chain extends by one accepted removal at its end.
pub proof fn lemma_rm_chain_snoc(
    kn1: Seq<u64>,
    p1: Seq<Seq<u64>>,
    kn2: Seq<u64>,
    p2: Seq<Seq<u64>>,
    n: nat,
    idx: int,
)
    requires
        rm_chain(kn1, p1, kn2, p2, n),
        rm_ok_at(kn2, p2, idx),
    ensures
        rm_chain(kn1, p1, kn2.remove(idx), rm_removed_pts(kn2, p2, idx), (n + 1) as nat),
    decreases n,
{
    if n == 0 {
        assert(rm_ok_at(kn1, p1, idx) && rm_chain(
            kn1.remove(idx),
            rm_removed_pts(kn1, p1, idx),
            kn2.remove(idx),
            rm_removed_pts(kn2, p2, idx),
            0,
        ));
    } else {
        let w = choose|w: int| #[trigger] rm_ok_at(kn1, p1, w) && rm_chain(
            kn1.remove(w),
            rm_removed_pts(kn1, p1, w),
            kn2,
            p2,
            (n - 1) as nat,
        );
        lemma_rm_chain_snoc(
            kn1.remove(w),
            rm_removed_pts(kn1, p1, w),
            kn2,
            p2,
            (n - 1) as nat,
            idx,
        );
        assert(rm_ok_at(kn1, p1, w) && rm_chain(
            kn1.remove(w),
            rm_removed_pts(kn1, p1, w),
            kn2.remove(idx),
            rm_removed_pts(kn2, p2, idx),
            n,
        ));
    }
}

/// A removal chain from a state on which no removal is accepted is
/// empty: the two states coincide.
pub proof fn lemma_rm_chain_stuck(
    kn1: Seq<u64>,
    p1: Seq<Seq<u64>>,
    kn2: Seq<u64>,
    p2: Seq<Seq<u64>>,
    n: nat,
)
    requires
        rm_chain(kn1, p1, kn2, p2, n),
        forall|i: int| !#[trigger] rm_ok_at(kn1, p1, i),
    ensures
        kn2 == kn1 && p2 == p1,
{
    if n > 0 {
        let w = choose|w: int| #[trigger] rm_ok_at(kn1, p1, w) && rm_chain(
            kn1.remove(w),
            rm_removed_pts(kn1, p1, w),
            kn2,
            p2,
            (n - 1) as nat,
        );
        assert(false);
    }
}

impl BSplineCurve {
    /// Whether the attempted removal at `idx` succeeds: the window is
    /// valid and the reconstructed point agrees with the stored one up
    /// to the linear tolerance.
    pub open spec fn rm_ok(&self, idx: int) -> bool {
        rm_ok_at(self.knots_s(), self.pts_s(), idx)
    }

    /// The control points after a successful removal at `idx`.
    pub open spec fn rm_result_pts(&self, idx: int) -> Seq<Seq<u64>> {
        rm_removed_pts(self.knots_s(), self.pts_s(), idx)
    }

    /// Attempts to undo a knot insertion at index `idx` by inverting the
    /// Boehm recurrence; fails with `CannotRemoveKnot` exactly when the
    /// index lies in a clamped block or the reconstructed control point
    /// disagrees with the stored one.
    #[verifier::rlimit(100)]
    #[verifier::spinoff_prover]
    #[verifier::loop_isolation(false)]
    pub fn try_remove_knot(&mut self, idx: usize) -> (r: Result<(), Error>)
        requires
            old(self).wf(),
        ensures
            r is Ok <==> old(self).rm_ok(idx as int),
            r is Err ==> r == Result::<(), Error>::Err(Error::CannotRemoveKnot(idx))
                && *final(self) == *old(self),
            r is Ok ==> {
                &&& final(self).knots_s() == old(self).knots_s().remove(idx as int)
                &&& final(self).pts_s() == old(self).rm_result_pts(idx as int)
                &&& final(self).wf()
                &&& final(self).dim_s() == old(self).dim_s()
                &&& final(self).degree_s() == old(self).degree_s()
            },
    {
        let k = self.degree();
        let n = self.control_points.len();
        let kvlen = self.knot_vec.len();
        let dim = self.dim();
        if idx < k + 1 || idx >= n {
            proof {
                assert(!rm_ok_at(old(self).knots_s(), old(self).pts_s(), idx as int));
            }
            return Err(Error::CannotRemoveKnot(idx));
        }
        let ghost opts = self.pts_s();
        let ghost kn = self.knots_s();

        // Reconstruct the candidate window points from the front.
        let mut cands: Vec<Vec<u64>> = Vec::new();
        proof {
            vector::lemma_net_index(self.control_points, idx - k - 1);
        }
        cands.push(vector::copy_pt(&self.control_points[idx - k - 1]));
        let mut m: usize = 0;
        let mut stopped = false;
        while m < k && !stopped
            invariant
                0 <= m <= k,
                cands@.len() == m + 1,
                forall|q: int| 0 <= q <= m ==> #[trigger] cands@[q]@ == rm_cand(
                    opts,
                    kn,
                    idx as int,
                    k as int,
                    q as nat,
                ),
                forall|q: int| 0 <= q <= m ==> (#[trigger] cands@[q]@).len() == dim,
                !stopped ==> rm_count_from(kn, idx as int, k as int, 0) == rm_count_from(
                    kn,
                    idx as int,
                    k as int,
                    m as nat,
                ),
                stopped ==> rm_count_from(kn, idx as int, k as int, 0) == m,
            decreases k - m + (if stopped { 0int } else { 1int }),
        {
            let i = idx - k + m;
            proof {
                assert(i + k + 1 < kvlen);
            }
            let a = scalar::fmul(
                tolerance::inv_or_zero(
                    scalar::fsub(self.knot_vec.knot(i + k + 1), self.knot_vec.knot(i)),
                ),
                scalar::fsub(self.knot_vec.knot(idx), self.knot_vec.knot(i)),
            );
            proof {
                assert(a == rm_a(kn, idx as int, k as int, i as int));
            }
            if tolerance::so_small(a) {
                stopped = true;
            } else {
                let one_minus = scalar::fsub(ONE_BITS, a);
                proof {
                    vector::lemma_net_index(self.control_points, i as int);
                    assert(self.pts_s()[i as int].len() == dim);
                }
                let t0 = vector::sdiv(&self.control_points[i], a);
                let t1 = vector::sdiv(&vector::smul(one_minus, &cands[m]), a);
                let newc = vector::vsub(&t0, &t1);
                proof {
                    assert(newc@ == rm_cand(opts, kn, idx as int, k as int, (m + 1) as nat));
                }
                cands.push(newc);
                m = m + 1;
            }
        }
        proof {
            assert(rm_count_from(kn, idx as int, k as int, 0) == m);
        }

        // The reconstruction must meet the stored control point.
        proof {
            vector::lemma_net_index(self.control_points, idx as int);
            assert(self.pts_s()[idx as int].len() == dim);
        }
        if !vector::pt_near(&self.control_points[idx], &cands[m]) {
            proof {
                assert(!rm_ok_at(kn, opts, idx as int));
            }
            return Err(Error::CannotRemoveKnot(idx));
        }
        proof {
            assert(rm_ok_at(kn, opts, idx as int));
        }

        // Write the candidates back over the window rows.
        let mut q: usize = 1;
        while q <= m
            invariant
                1 <= q <= m + 1,
                m <= k,
                cands@.len() == m + 1,
                forall|p: int| 0 <= p <= m ==> #[trigger] cands@[p]@ == rm_cand(
                    opts,
                    kn,
                    idx as int,
                    k as int,
                    p as nat,
                ),
                self.knots_s() == kn,
                self.control_points@.len() == n,
                self.pts_s() == rm_write(opts, kn, idx as int, k as int, (q - 1) as nat),
            decreases m + 1 - q,
        {
            let ghost before = self.pts_s();
            let c = vector::copy_pt(&cands[q]);
            self.control_points.set(idx - k + q - 1, c);
            proof {
                assert forall|j: int| 0 <= j < self.pts_s().len() implies #[trigger] self.pts_s()[j]
                    == rm_write(opts, kn, idx as int, k as int, q as nat)[j] by {
                    assert(self.pts_s()[j] == self.control_points@[j]@);
                }
                assert(self.pts_s() =~= rm_write(opts, kn, idx as int, k as int, q as nat));
            }
            q = q + 1;
        }

        // Drop the removed row and knot.
        let ghost written = self.pts_s();
        self.control_points.remove(idx);
        proof {
            written.remove_ensures(idx as int);
            assert forall|j: int| 0 <= j < self.pts_s().len() implies #[trigger] self.pts_s()[j]
                == written.remove(idx as int)[j] by {
                assert(self.pts_s()[j] == self.control_points@[j]@);
            }
            assert(self.pts_s() =~= written.remove(idx as int));
        }
        self.knot_vec.remove(idx);
        proof {
            lemma_rm_write_shape(opts, kn, idx as int, k as int, m as nat, dim as nat);
            assert(self.pts_s()[0].len() == dim);
            assert forall|j: int| 0 <= j < self.pts_s().len() implies (
            #[trigger] self.pts_s()[j]).len() == dim by {
                assert(self.pts_s()[j] == written.remove(idx as int)[j]);
            }
        }
        Ok(())
    }

    /// The silent removal variant: attempts the removal and keeps the
    /// curve unchanged when it fails.
    pub fn remove_knot(&mut self, idx: usize) -> (r: bool)
        requires
            old(self).wf(),
        ensures
            r == old(self).rm_ok(idx as int),
            !r ==> *final(self) == *old(self),
            r ==> {
                &&& final(self).knots_s() == old(self).knots_s().remove(idx as int)
                &&& final(self).pts_s() == old(self).rm_result_pts(idx as int)
                &&& final(self).wf()
                &&& final(self).dim_s() == old(self).dim_s()
                &&& final(self).degree_s() == old(self).degree_s()
            },
            final(self).wf(),
    {
        match self.try_remove_knot(idx) {
            Ok(_) => true,
            Err(_) => false,
        }
    }
}

/// The reflection of a knot sequence about the midpoint of its range:
/// entry `i` becomes `(first + last) - k[len - 1 - i]`.
pub open spec fn reflected_s(kn: Seq<u64>) -> Seq<u64> {
    Seq::new(
        kn.len(),
        |i: int| sub_bits(add_bits(kn[0], kn[kn.len() - 1]), kn[kn.len() - 1 - i]),
    )
}

/// A sequence reversed.
pub open spec fn rev_s(pts: Seq<Seq<u64>>) -> Seq<Seq<u64>> {
    Seq::new(pts.len(), |i: int| pts[pts.len() - 1 - i])
}

impl BSplineCurve {
    /// Repeatedly attempts to remove every knot from the back until a
    /// full pass removes nothing: the result arises from the input by a
    /// sequence of accepted removals, and no further single removal can
    /// succeed on it.
    #[verifier::rlimit(100)]
    #[verifier::spinoff_prover]
    #[verifier::loop_isolation(false)]
    pub fn optimize(&mut self)
        requires
            old(self).wf(),
        ensures
            final(self).wf(),
            final(self).dim_s() == old(self).dim_s(),
            final(self).degree_s() == old(self).degree_s(),
            final(self).knots_s().len() <= old(self).knots_s().len(),
            forall|i: int| !#[trigger] final(self).rm_ok(i),
            exists|n: nat| rm_chain(
                old(self).knots_s(),
                old(self).pts_s(),
                final(self).knots_s(),
                final(self).pts_s(),
                n,
            ),
            (forall|i: int| !#[trigger] old(self).rm_ok(i)) ==> *final(self) == *old(self),
    {
        let ghost mut steps: nat = 0;
        let mut again = true;
        while again
            invariant
                self.wf(),
                self.dim_s() == old(self).dim_s(),
                self.degree_s() == old(self).degree_s(),
                self.knots_s().len() <= old(self).knots_s().len(),
                rm_chain(
                    old(self).knots_s(),
                    old(self).pts_s(),
                    self.knots_s(),
                    self.pts_s(),
                    steps,
                ),
                !again ==> forall|i: int| !#[trigger] self.rm_ok(i),
                (forall|i: int| !#[trigger] old(self).rm_ok(i)) ==> *self == *old(self),
            decreases 2 * self.knots_s().len() + (if again { 1int } else { 0int }),
        {
            let ghost snap = *self;
            let n0 = self.knot_vec.len();
            let mut flag = true;
            let mut c: usize = 0;
            while c < n0
                invariant
                    c <= n0,
                    self.wf(),
                    self.dim_s() == old(self).dim_s(),
                    self.degree_s() == old(self).degree_s(),
                    self.knots_s().len() <= n0,
                    n0 <= old(self).knots_s().len(),
                    flag ==> self.knots_s().len() == n0,
                    !flag ==> self.knots_s().len() < n0,
                    rm_chain(
                        old(self).knots_s(),
                        old(self).pts_s(),
                        self.knots_s(),
                        self.pts_s(),
                        steps,
                    ),
                    flag ==> *self == snap,
                    flag ==> forall|cc: int| 0 <= cc < c ==> !#[trigger] snap.rm_ok(n0 - 1
                        - cc),
                    (forall|i: int| !#[trigger] old(self).rm_ok(i)) ==> *self == *old(self)
                        && flag,
                decreases n0 - c,
            {
                let ghost pre = *self;
                let removed = self.remove_knot(n0 - 1 - c);
                proof {
                    if removed {
                        lemma_rm_chain_snoc(
                            old(self).knots_s(),
                            old(self).pts_s(),
                            pre.knots_s(),
                            pre.pts_s(),
                            steps,
                            n0 - 1 - c,
                        );
                        steps = steps + 1;
                    }
                }
                flag = flag && !removed;
                c = c + 1;
            }
            proof {
                if flag {
                    assert forall|i: int| !#[trigger] self.rm_ok(i) by {
                        if 0 <= i < n0 {
                            assert(!snap.rm_ok(n0 - 1 - (n0 - 1 - i)));
                        } else {
                            assert(self.knots_s().len() - self.pts_s().len() - 1 >= 0);
                            assert(self.pts_s().len() < self.knots_s().len());
                        }
                    }
                }
            }
            again = !flag;
        }
    }

    /// Reverses the control points and reflects the knot vector about
    /// the midpoint of its range.  The reflected knots are installed
    /// when rounding has kept them well-formed (IEEE-754 rounding is
    /// monotone, so this can only degenerate at overflow); otherwise the
    /// curve is left unchanged.  Returns whether the inversion happened.
    #[verifier::loop_isolation(false)]
    pub fn invert(&mut self) -> (r: bool)
        requires
            old(self).wf(),
        ensures
            r == knots_wf(reflected_s(old(self).knots_s())),
            r ==> final(self).knots_s() == reflected_s(old(self).knots_s()),
            r ==> final(self).pts_s() == rev_s(old(self).pts_s()),
            !r ==> *final(self) == *old(self),
            final(self).wf(),
            final(self).dim_s() == old(self).dim_s(),
            final(self).degree_s() == old(self).degree_s(),
    {
        let n = self.knot_vec.len();
        let m = scalar::fadd(self.knot_vec.knot(0), self.knot_vec.knot(n - 1));
        let mut cand: Vec<u64> = Vec::new();
        let mut i: usize = 0;
        while i < n
            invariant
                i <= n,
                cand@.len() == i,
                m == add_bits(old(self).knots_s()[0], old(self).knots_s()[n - 1]),
                forall|j: int| 0 <= j < i ==> cand@[j] == sub_bits(
                    m,
                    old(self).knots_s()[n - 1 - j],
                ),
                self.knots_s() == old(self).knots_s(),
            decreases n - i,
        {
            cand.push(scalar::fsub(m, self.knot_vec.knot(n - 1 - i)));
            i = i + 1;
        }
        proof {
            assert(cand@ =~= reflected_s(old(self).knots_s()));
        }
        match KnotVec::try_new(cand) {
            Some(kv) => {
                let np = self.control_points.len();
                let mut newp: Vec<Vec<u64>> = Vec::new();
                let mut q: usize = 0;
                while q < np
                    invariant
                        q <= np,
                        newp@.len() == q,
                        forall|j: int| 0 <= j < q ==> #[trigger] newp@[j]@ == self.pts_s()[np - 1
                            - j],
                        self.pts_s() == old(self).pts_s(),
                    decreases np - q,
                {
                    proof {
                        vector::lemma_net_index(self.control_points, np - 1 - q);
                    }
                    newp.push(vector::copy_pt(&self.control_points[np - 1 - q]));
                    q = q + 1;
                }
                self.knot_vec = kv;
                self.control_points = newp;
                proof {
                    assert forall|j: int| 0 <= j < self.pts_s().len() implies
                        #[trigger] self.pts_s()[j] == rev_s(old(self).pts_s())[j] by {
                        assert(self.pts_s()[j] == self.control_points@[j]@);
                    }
                    assert(self.pts_s() =~= rev_s(old(self).pts_s()));
                    assert forall|j: int| 0 <= j < self.pts_s().len() implies (
                    #[trigger] self.pts_s()[j]).len() == old(self).dim_s() by {
                        assert(self.pts_s()[j] == old(self).pts_s()[self.pts_s().len() - 1 - j]);
                    }
                }
                true
            },
            None => false,
        }
    }

    /// Rescales the knot vector to the unit interval; the control points
    /// are untouched.  Returns false, leaving the curve unchanged, when
    /// the range is degenerate or rounding broke the order.
    pub fn knot_normalize(&mut self) -> (r: bool)
        requires
            old(self).wf(),
        ensures
            final(self).pts_s() == old(self).pts_s(),
            r == (!so_small_bits(sub_bits(
                old(self).knots_s()[old(self).knots_s().len() - 1],
                old(self).knots_s()[0],
            )) && knots_wf(KnotVec::normalized_s(old(self).knots_s()))),
            r ==> final(self).knots_s() == KnotVec::normalized_s(old(self).knots_s()),
            !r ==> final(self).knots_s() == old(self).knots_s(),
            r && is_finite_bits(old(self).knots_s()[0]) && !is_nan_bits(
                sub_bits(
                    old(self).knots_s()[old(self).knots_s().len() - 1],
                    old(self).knots_s()[0],
                ),
            ) && key_of(sub_bits(
                old(self).knots_s()[old(self).knots_s().len() - 1],
                old(self).knots_s()[0],
            )) > 0 ==> final(self).knots_s()[0] == 0u64,
            r && is_finite_bits(
                sub_bits(
                    old(self).knots_s()[old(self).knots_s().len() - 1],
                    old(self).knots_s()[0],
                ),
            ) && key_of(sub_bits(
                old(self).knots_s()[old(self).knots_s().len() - 1],
                old(self).knots_s()[0],
            )) != 0 ==> final(self).knots_s()[final(self).knots_s().len() - 1] == ONE_BITS,
            old(self).knots_s()[0] == 0u64 && old(self).knots_s()[old(self).knots_s().len()
                - 1] == ONE_BITS ==> r && final(self).knots_s() == old(self).knots_s(),
            final(self).wf(),
            final(self).dim_s() == old(self).dim_s(),
            final(self).degree_s() == old(self).degree_s(),
    {
        match self.knot_vec.try_normalize() {
            Ok(installed) => installed,
            Err(_) => false,
        }
    }

    /// Shifts the knot vector by `x`; the control points are untouched.
    /// Returns false, leaving the curve unchanged, when rounding broke
    /// the order (possible only at overflow).
    pub fn knot_translate(&mut self, x: u64) -> (r: bool)
        requires
            old(self).wf(),
        ensures
            final(self).pts_s() == old(self).pts_s(),
            r == knots_wf(KnotVec::translated_s(old(self).knots_s(), x)),
            r ==> final(self).knots_s() == KnotVec::translated_s(old(self).knots_s(), x),
            !r ==> final(self).knots_s() == old(self).knots_s(),
            final(self).wf(),
            final(self).dim_s() == old(self).dim_s(),
            final(self).degree_s() == old(self).degree_s(),
    {
        self.knot_vec.translate(x)
    }
}

impl BSplineCurve {
    /// Co-refines the knot vectors of two curves: optimizes and
    /// normalizes both, then inserts into each the knots missing from
    /// the other, by multiplicity, without changing either curve's
    /// shape.  On success the two knot vectors are identical.  The merge
    /// can fail only when it meets a positive and a negative zero at the
    /// same rank; the curves are then left partially merged but intact.
    #[verifier::rlimit(100)]
    #[verifier::spinoff_prover]
    #[verifier::loop_isolation(false)]
    pub fn syncro_knot(&mut self, other: &mut BSplineCurve) -> (r: bool)
        requires
            old(self).wf(),
            old(other).wf(),
        ensures
            r ==> final(self).knots_s() == final(other).knots_s(),
            final(self).wf(),
            final(other).wf(),
            final(self).dim_s() == old(self).dim_s(),
            final(other).dim_s() == old(other).dim_s(),
            final(self).degree_s() == old(self).degree_s(),
            final(other).degree_s() == old(other).degree_s(),
            old(self).knots_s() == old(other).knots_s() && (forall|i: int|
                !#[trigger] old(self).rm_ok(i)) && (forall|i: int|
                !#[trigger] old(other).rm_ok(i)) && old(self).knots_s()[0] == 0u64
                && old(self).knots_s()[old(self).knots_s().len() - 1] == ONE_BITS
                ==> r && final(self).knots_s() == old(self).knots_s() && final(self).pts_s()
                == old(self).pts_s() && final(other).knots_s() == old(other).knots_s()
                && final(other).pts_s() == old(other).pts_s(),
    {
        let ghost hyp = old(self).knots_s() == old(other).knots_s() && (forall|i: int|
            !#[trigger] old(self).rm_ok(i)) && (forall|i: int| !#[trigger] old(other).rm_ok(i))
            && old(self).knots_s()[0] == 0u64
            && old(self).knots_s()[old(self).knots_s().len() - 1] == ONE_BITS;
        self.optimize();
        other.optimize();
        proof {
            if hyp {
                assert(*self == *old(self));
                assert(*other == *old(other));
            }
        }
        self.knot_normalize();
        other.knot_normalize();
        let ghost s0 = *self;
        let ghost o0 = *other;
        proof {
            if hyp {
                assert(s0.knots_s() == old(self).knots_s());
                assert(s0.pts_s() == old(self).pts_s());
                assert(o0.knots_s() == old(other).knots_s());
                assert(o0.pts_s() == old(other).pts_s());
            }
        }
        self.merge_knots(other)
    }

    /// Inserts into each curve the knots missing from the other, by
    /// multiplicity.  Two curves that already share their knot vector
    /// are left untouched.
    #[verifier::rlimit(100)]
    #[verifier::spinoff_prover]
    #[verifier::loop_isolation(false)]
    fn merge_knots(&mut self, other: &mut BSplineCurve) -> (r: bool)
        requires
            old(self).wf(),
            old(other).wf(),
        ensures
            r ==> final(self).knots_s() == final(other).knots_s(),
            final(self).wf(),
            final(other).wf(),
            final(self).dim_s() == old(self).dim_s(),
            final(other).dim_s() == old(other).dim_s(),
            final(self).degree_s() == old(self).degree_s(),
            final(other).degree_s() == old(other).degree_s(),
            old(self).knots_s() == old(other).knots_s() ==> r && *final(self) == *old(self)
                && *final(other) == *old(other),
    {
        let ghost hyp = old(self).knots_s() == old(other).knots_s();
        let ghost s0 = *self;
        let ghost o0 = *other;

        let mut i: usize = 0;
        while i < self.knot_vec.len() || i < other.knot_vec.len()
            invariant
                self.wf(),
                other.wf(),
                self.dim_s() == old(self).dim_s(),
                other.dim_s() == old(other).dim_s(),
                self.degree_s() == old(self).degree_s(),
                other.degree_s() == old(other).degree_s(),
                i <= self.knots_s().len(),
                i <= other.knots_s().len(),
                self.knots_s().subrange(0, i as int) == other.knots_s().subrange(0, i as int),
                hyp ==> *self == s0 && *other == o0,
            decreases (self.knots_s().len() - i) + (other.knots_s().len() - i),
        {
            let ghost sk = self.knots_s();
            let ghost ok = other.knots_s();
            if i >= self.knot_vec.len() {
                proof {
                    if hyp {
                        assert(false);
                    }
                }
                let x = other.knot_vec.knot(i);
                proof {
                    knot_vec::lemma_sorted_pair(ok, i as int, i as int);
                    knot_vec::lemma_ins_idx_char(sk, x);
                    assert forall|j: int| 0 <= j < sk.len() implies le_bits(sk[j], x) by {
                        assert(sk.subrange(0, i as int)[j] == sk[j]);
                        assert(ok.subrange(0, i as int)[j] == ok[j]);
                        knot_vec::lemma_sorted_pair(ok, j, i as int);
                    }
                    let g = ins_idx(sk, x);
                    if g < sk.len() {
                        assert(le_bits(sk[g], x));
                        assert(false);
                    }
                }
                self.add_knot(x);
                proof {
                    assert(self.knots_s() =~= sk.push(x));
                    assert(self.knots_s().subrange(0, i as int + 1) =~= other.knots_s().subrange(
                        0,
                        i as int + 1,
                    ));
                }
                i = i + 1;
            } else if i >= other.knot_vec.len() {
                proof {
                    if hyp {
                        assert(false);
                    }
                }
                let x = self.knot_vec.knot(i);
                proof {
                    knot_vec::lemma_sorted_pair(sk, i as int, i as int);
                    knot_vec::lemma_ins_idx_char(ok, x);
                    assert forall|j: int| 0 <= j < ok.len() implies le_bits(ok[j], x) by {
                        assert(sk.subrange(0, i as int)[j] == sk[j]);
                        assert(ok.subrange(0, i as int)[j] == ok[j]);
                        knot_vec::lemma_sorted_pair(sk, j, i as int);
                    }
                    let g = ins_idx(ok, x);
                    if g < ok.len() {
                        assert(le_bits(ok[g], x));
                        assert(false);
                    }
                }
                other.add_knot(x);
                proof {
                    assert(other.knots_s() =~= ok.push(x));
                    assert(self.knots_s().subrange(0, i as int + 1) =~= other.knots_s().subrange(
                        0,
                        i as int + 1,
                    ));
                }
                i = i + 1;
            } else {
                let a = self.knot_vec.knot(i);
                let b = other.knot_vec.knot(i);
                if a == b {
                    proof {
                        assert(self.knots_s().subrange(0, i as int + 1)
                            =~= other.knots_s().subrange(0, i as int + 1));
                    }
                    i = i + 1;
                } else if scalar::lt(a, b) {
                    proof {
                        if hyp {
                            assert(a == b);
                            assert(false);
                        }
                    }
                    // `a` is missing from `other`: insert it at rank `i`.
                    proof {
                        knot_vec::lemma_ins_idx_char(ok, a);
                        assert forall|j: int| 0 <= j < i implies le_bits(ok[j], a) by {
                            assert(sk.subrange(0, i as int)[j] == sk[j]);
                            assert(ok.subrange(0, i as int)[j] == ok[j]);
                            knot_vec::lemma_sorted_pair(sk, j, i as int);
                        }
                        let g = ins_idx(ok, a);
                        if g < i {
                            assert(!le_bits(ok[g], a));
                            assert(le_bits(ok[g], a));
                            assert(false);
                        }
                        if g > i {
                            assert(le_bits(ok[i as int], a));
                            assert(false);
                        }
                    }
                    other.add_knot(a);
                    proof {
                        ok.insert_ensures(i as int, a);
                        assert(self.knots_s().subrange(0, i as int + 1)
                            =~= other.knots_s().subrange(0, i as int + 1));
                    }
                    i = i + 1;
                } else if scalar::lt(b, a) {
                    proof {
                        if hyp {
                            assert(a == b);
                            assert(false);
                        }
                    }
                    // `b` is missing from `self`: insert it at rank `i`.
                    proof {
                        knot_vec::lemma_ins_idx_char(sk, b);
                        assert forall|j: int| 0 <= j < i implies le_bits(sk[j], b) by {
                            assert(sk.subrange(0, i as int)[j] == sk[j]);
                            assert(ok.subrange(0, i as int)[j] == ok[j]);
                            knot_vec::lemma_sorted_pair(ok, j, i as int);
                        }
                        let g = ins_idx(sk, b);
                        if g < i {
                            assert(!le_bits(sk[g], b));
                            assert(le_bits(sk[g], b));
                            assert(false);
                        }
                        if g > i {
                            assert(le_bits(sk[i as int], b));
                            assert(false);
                        }
                    }
                    self.add_knot(b);
                    proof {
                        sk.insert_ensures(i as int, b);
                        assert(self.knots_s().subrange(0, i as int + 1)
                            =~= other.knots_s().subrange(0, i as int + 1));
                    }
                    i = i + 1;
                } else {
                    proof {
                        if hyp {
                            assert(a == b);
                            assert(false);
                        }
                    }
                    // A positive and a negative zero at the same rank:
                    // the two patterns compare equal but differ, and no
                    // sorted insertion can reconcile them.
                    return false;
                }
            }
        }
        proof {
            assert(self.knots_s() =~= self.knots_s().subrange(0, self.knots_s().len() as int));
            assert(other.knots_s() =~= other.knots_s().subrange(0, other.knots_s().len() as int));
        }
        true
    }

    /// Appends `other` to `self`: the knot vector of `other` is shifted
    /// so that its range follows the range of `self`, its clamp block is
    /// aligned with the end of `self`, and the duplicated junction
    /// control point is merged away.  Returns false, leaving `self`
    /// unchanged, when the junction control points are not near or the
    /// combined knot sequence fails the order check.
    #[verifier::rlimit(100)]
    #[verifier::spinoff_prover]
    #[verifier::loop_isolation(false)]
    pub fn concat(&mut self, other: &BSplineCurve) -> (r: bool)
        requires
            old(self).wf(),
            other.wf(),
            old(self).degree_s() == other.degree_s(),
            old(self).dim_s() == other.dim_s(),
        ensures
            r == (pt_near_s(
                old(self).pts_s()[old(self).pts_s().len() - 1],
                other.pts_s()[0],
            ) && knots_wf(concat_knots_s(
                old(self).knots_s(),
                other.knots_s(),
                old(self).degree_s(),
            ))),
            !r ==> *final(self) == *old(self),
            r ==> final(self).knots_s() == concat_knots_s(
                old(self).knots_s(),
                other.knots_s(),
                old(self).degree_s(),
            ),
            r ==> final(self).pts_s() == old(self).pts_s() + other.pts_s().subrange(
                1,
                other.pts_s().len() as int,
            ),
            r ==> pt_near_s(
                old(self).pts_s()[old(self).pts_s().len() - 1],
                other.pts_s()[0],
            ),
            final(self).wf(),
            final(self).dim_s() == old(self).dim_s(),
            final(self).degree_s() == old(self).degree_s(),
    {
        let k = self.degree();
        proof {
            vector::lemma_net_index(self.control_points, self.control_points@.len() - 1);
            vector::lemma_net_index(other.control_points, 0);
            assert(self.pts_s()[self.pts_s().len() - 1].len() == self.dim_s());
            assert(other.pts_s()[0].len() == other.dim_s());
        }
        if !vector::pt_near(
            &self.control_points[self.control_points.len() - 1],
            &other.control_points[0],
        ) {
            return false;
        }
        let n1 = self.knot_vec.len();
        let n2 = other.knot_vec.len();
        let delta = scalar::fsub(self.knot_vec.knot(n1 - 1), other.knot_vec.knot(0));
        let mut cand: Vec<u64> = Vec::new();
        let mut i: usize = 0;
        while i < n1 - 1
            invariant
                i <= n1 - 1,
                cand@.len() == i,
                forall|j: int| 0 <= j < i ==> cand@[j] == old(self).knots_s()[j],
                self.knots_s() == old(self).knots_s(),
                self.pts_s() == old(self).pts_s(),
            decreases n1 - 1 - i,
        {
            cand.push(self.knot_vec.knot(i));
            i = i + 1;
        }
        let mut j: usize = k + 1;
        while j < n2
            invariant
                k + 1 <= j <= n2,
                cand@.len() == n1 - 1 + j - k - 1,
                forall|q: int| 0 <= q < n1 - 1 ==> cand@[q] == old(self).knots_s()[q],
                forall|q: int| n1 - 1 <= q < cand@.len() ==> cand@[q] == add_bits(
                    other.knots_s()[q - (n1 - 1) + k + 1],
                    sub_bits(
                        old(self).knots_s()[n1 - 1],
                        other.knots_s()[0],
                    ),
                ),
                delta == sub_bits(old(self).knots_s()[n1 - 1], other.knots_s()[0]),
                self.knots_s() == old(self).knots_s(),
                self.pts_s() == old(self).pts_s(),
            decreases n2 - j,
        {
            cand.push(scalar::fadd(other.knot_vec.knot(j), delta));
            j = j + 1;
        }
        proof {
            assert(cand@ =~= concat_knots_s(
                old(self).knots_s(),
                other.knots_s(),
                old(self).degree_s(),
            ));
        }
        match KnotVec::try_new(cand) {
            Some(kv) => {
                let np = other.control_points.len();
                let mut q: usize = 1;
                while q < np
                    invariant
                        1 <= q <= np,
                        self.control_points@.len() == old(self).pts_s().len() + q - 1,
                        self.knots_s() == old(self).knots_s(),
                        forall|p: int| 0 <= p < old(self).pts_s().len()
                            ==> #[trigger] self.pts_s()[p] == old(self).pts_s()[p],
                        forall|p: int| old(self).pts_s().len() <= p < self.pts_s().len()
                            ==> #[trigger] self.pts_s()[p] == other.pts_s()[
                            p - old(self).pts_s().len() + 1],
                        uniform_s(self.pts_s(), old(self).dim_s()),
                    decreases np - q,
                {
                    proof {
                        vector::lemma_net_index(other.control_points, q as int);
                        assert(other.pts_s()[q as int].len() == other.dim_s());
                    }
                    let ghost before = self.pts_s();
                    self.control_points.push(vector::copy_pt(&other.control_points[q]));
                    proof {
                        assert forall|p: int| 0 <= p < before.len() implies #[trigger] self.pts_s()[
                        p] == before[p] by {
                            assert(self.pts_s()[p] == self.control_points@[p]@);
                        }
                        assert(self.pts_s()[self.pts_s().len() - 1]
                            == self.control_points@[self.pts_s().len() - 1]@);
                        assert(self.pts_s()[self.pts_s().len() - 1] == other.pts_s()[q as int]);
                    }
                    q = q + 1;
                }
                self.knot_vec = kv;
                proof {
                    assert(self.pts_s() =~= old(self).pts_s() + other.pts_s().subrange(
                        1,
                        other.pts_s().len() as int,
                    ));
                }
                true
            },
            None => false,
        }
    }
}

/// The combined knot sequence of a concatenation: all but the last knot
/// of the first sequence, then the second sequence past its degree-wide
/// clamp block, shifted so that the ranges follow each other.
pub open spec fn concat_knots_s(kn1: Seq<u64>, kn2: Seq<u64>, k: int) -> Seq<u64> {
    kn1.subrange(0, kn1.len() - 1) + Seq::new(
        (kn2.len() - k - 1) as nat,
        |j: int| add_bits(kn2[j + k + 1], sub_bits(kn1[kn1.len() - 1], kn2[0])),
    )
}

impl BSplineCurve {
    /// Raises the degree by one, keeping the shape: the curve is first
    /// refined until every interior knot has full multiplicity, each
    /// Bezier segment is elevated by the convex combinations
    /// `(i * P[i-1] + (k+1-i) * P[i]) / (k+1)`, and every distinct knot
    /// gains one multiplicity.  Returns false, leaving the curve
    /// unchanged, when the knot structure is not that of a clamped
    /// spline with interior multiplicities at most the degree.
    #[verifier::rlimit(100)]
    #[verifier::spinoff_prover]
    #[verifier::loop_isolation(false)]
    pub fn elevate_degree(&mut self) -> (r: bool)
        requires
            old(self).wf(),
        ensures
            !r ==> *final(self) == *old(self),
            r ==> final(self).degree_s() == old(self).degree_s() + 1,
            final(self).wf(),
            final(self).dim_s() == old(self).dim_s(),
            bezier_like(old(self).knots_s(), old(self).degree_s()) ==> r
                && final(self).knots_s() == rep2(
                old(self).knots_s()[0],
                old(self).knots_s()[old(self).knots_s().len() - 1],
                (old(self).degree_s() + 2) as nat,
                (old(self).degree_s() + 2) as nat,
            ),
    {
        let ghost hyp = bezier_like(old(self).knots_s(), old(self).degree_s());
        let k = self.degree();
        if k == 0 {
            return false;
        }
        let n = self.knot_vec.len();
        let dim = self.dim();
        let ghost v0 = self.knots_s()[0];
        let ghost v1 = self.knots_s()[n - 1];
        proof {
            if hyp {
                knot_vec::lemma_sorted_pair(self.knots_s(), 0, n - 1);
            }
        }

        // Run-length scan of the knot sequence by bit equality.
        let mut vals: Vec<u64> = Vec::new();
        let mut mults: Vec<usize> = Vec::new();
        let mut i: usize = 0;
        while i < n
            invariant
                i <= n,
                vals@.len() == mults@.len(),
                i == 0 ==> vals@.len() == 0,
                i > 0 ==> vals@.len() >= 1,
                forall|q: int| 0 <= q < vals@.len() ==> !is_nan_bits(#[trigger] vals@[q]),
                forall|q: int| 0 <= q < mults@.len() ==> #[trigger] mults@[q] >= 1,
                hyp && 1 <= i <= k + 1 ==> vals@ == seq![v0] && mults@ == seq![i],
                hyp && i > k + 1 ==> vals@ == seq![v0, v1] && mults@ == seq![
                    (k + 1) as usize,
                    (i - k - 1) as usize,
                ],
            decreases n - i,
        {
            let v = self.knot_vec.knot(i);
            proof {
                knot_vec::lemma_sorted_pair(self.knots_s(), i as int, i as int);
            }
            proof {
                if hyp {
                    assert(self.knots_s() == rep2(v0, v1, (k + 1) as nat, (k + 1) as nat));
                    if i <= k {
                        assert(v == v0);
                    } else {
                        assert(v == v1);
                    }
                }
            }
            let ln = vals.len();
            if ln == 0 || vals[ln - 1] != v {
                vals.push(v);
                mults.push(1);
            } else {
                let m = mults[ln - 1];
                if m == usize::MAX {
                    return false;
                }
                mults.set(ln - 1, m + 1);
            }
            proof {
                if hyp {
                    if i + 1 <= k + 1 {
                        assert(vals@ =~= seq![v0]);
                        assert(mults@ =~= seq![(i + 1) as usize]);
                    } else {
                        assert(vals@ =~= seq![v0, v1]);
                        assert(mults@ =~= seq![(k + 1) as usize, (i + 1 - k - 1) as usize]);
                    }
                }
            }
            i = i + 1;
        }
        let dcount = vals.len();
        proof {
            if hyp {
                assert(vals@ == seq![v0, v1]);
                assert(dcount == 2);
            }
        }
        if dcount < 2 {
            return false;
        }

        // Refine a working copy until every value has full multiplicity:
        // the degree plus one at the ends, the degree in the interior.
        let mut work = self.duplicate();
        proof {
            assert(work.wf());
        }
        let mut si: usize = 0;
        while si < dcount
            invariant
                si <= dcount,
                dcount == vals@.len(),
                vals@.len() == mults@.len(),
                forall|q: int| 0 <= q < vals@.len() ==> !is_nan_bits(#[trigger] vals@[q]),
                work.wf(),
                work.dim_s() == old(self).dim_s(),
                work.degree_s() == old(self).degree_s(),
                self == old(self),
                hyp ==> work.knots_s() == old(self).knots_s() && work.pts_s() == old(
                    self,
                ).pts_s(),
            decreases dcount - si,
        {
            let target: usize = if si == 0 || si == dcount - 1 {
                k + 1
            } else {
                k
            };
            proof {
                if hyp {
                    assert(mults@[si as int] == (k + 1) as usize);
                }
            }
            if mults[si] > target {
                proof {
                    if hyp {
                        assert(false);
                    }
                }
                return false;
            }
            let mut c = mults[si];
            while c < target
                invariant
                    c <= target,
                    target <= k + 1,
                    si < vals@.len(),
                    forall|q: int| 0 <= q < vals@.len() ==> !is_nan_bits(#[trigger] vals@[q]),
                    work.wf(),
                    work.dim_s() == old(self).dim_s(),
                    work.degree_s() == old(self).degree_s(),
                    self == old(self),
                    hyp ==> c >= target,
                    hyp ==> work.knots_s() == old(self).knots_s() && work.pts_s() == old(
                        self,
                    ).pts_s(),
                decreases target - c,
            {
                proof {
                    if hyp {
                        assert(false);
                    }
                }
                work.add_knot(vals[si]);
                c = c + 1;
            }
            si = si + 1;
        }

        // The refined copy must now consist of whole Bezier segments.
        let segs = dcount - 1;
        let wp = work.control_points.len();
        if segs >= 32768 || k >= 32768 {
            proof {
                if hyp {
                    assert(false);
                }
            }
            return false;
        }
        proof {
            assert(k * segs < 32768 * 32768) by (nonlinear_arith)
                requires
                    k < 32768,
                    segs < 32768,
            ;
        }
        if wp != k * segs + 1 {
            proof {
                if hyp {
                    assert(wp == old(self).pts_s().len());
                    assert(old(self).knots_s().len() == 2 * k + 2);
                    assert(false);
                }
            }
            return false;
        }

        // The elevated knot vector: every distinct value once more.
        let mut nk: Vec<u64> = Vec::new();
        let mut s2: usize = 0;
        while s2 < dcount
            invariant
                s2 <= dcount,
                dcount == vals@.len(),
                self == old(self),
                hyp && s2 == 0 ==> nk@ =~= Seq::<u64>::empty(),
                hyp && s2 == 1 ==> nk@ =~= rep2(v0, v1, (k + 2) as nat, 0),
                hyp && s2 == 2 ==> nk@ =~= rep2(v0, v1, (k + 2) as nat, (k + 2) as nat),
            decreases dcount - s2,
        {
            let target: usize = if s2 == 0 || s2 == dcount - 1 {
                k + 2
            } else {
                k + 1
            };
            let mut c: usize = 0;
            while c < target
                invariant
                    c <= target,
                    s2 < vals@.len(),
                    self == old(self),
                    hyp ==> target == k + 2,
                    hyp && s2 == 0 ==> nk@ =~= rep2(v0, v1, c as nat, 0),
                    hyp && s2 == 1 ==> nk@ =~= rep2(v0, v1, (k + 2) as nat, c as nat),
                decreases target - c,
            {
                nk.push(vals[s2]);
                c = c + 1;
            }
            s2 = s2 + 1;
        }
        proof {
            if hyp {
                let target = rep2(v0, v1, (k + 2) as nat, (k + 2) as nat);
                assert(nk@ == target);
                knot_vec::lemma_sorted_pair(old(self).knots_s(), 0, 0);
                knot_vec::lemma_sorted_pair(old(self).knots_s(), 0, 2 * k + 1);
                assert forall|q: int| 0 <= q < nk@.len() - 1 implies le_bits(
                    #[trigger] nk@[q],
                    nk@[q + 1],
                ) by {
                    assert(le_bits(v0, v0));
                    assert(le_bits(v1, v1));
                    assert(le_bits(v0, v1));
                }
                assert(lt_bits(nk@[0], nk@[nk@.len() - 1]));
                assert(knots_wf(nk@));
            }
        }
        let kvn = match KnotVec::try_new(nk) {
            Some(kv) => kv,
            None => {
                proof {
                    if hyp {
                        assert(false);
                    }
                }
                return false;
            },
        };

        // The elevated control points, one Bezier segment at a time,
        // sharing the joint point between consecutive segments.
        let kp1 = scalar::from_int(k + 1);
        let mut np: Vec<Vec<u64>> = Vec::new();
        proof {
            vector::lemma_net_index(work.control_points, 0);
            assert(work.pts_s()[0].len() == work.dim_s());
        }
        np.push(vector::copy_pt(&work.control_points[0]));
        let mut s3: usize = 0;
        while s3 < segs
            invariant
                s3 <= segs,
                np@.len() == 1 + s3 * (k + 1),
                wp == k * segs + 1,
                wp == work.control_points@.len(),
                work.wf(),
                work.dim_s() == old(self).dim_s(),
                forall|q: int| 0 <= q < np@.len() ==> (#[trigger] np@[q]@).len() == old(
                    self,
                ).dim_s(),
                self == old(self),
            decreases segs - s3,
        {
            proof {
                assert(s3 * k + k < wp) by (nonlinear_arith)
                    requires
                        s3 < segs,
                        wp == k * segs + 1,
                        k >= 1,
                ;
                assert(s3 * k < wp);
            }
            let base = s3 * k;
            proof {
                assert(base + k < wp);
                assert(np@.len() + k + 1 <= 1 + segs * (k + 1)) by (nonlinear_arith)
                    requires
                        s3 < segs,
                        k >= 1,
                        np@.len() == 1 + s3 * (k + 1),
                ;
            }
            let mut ii: usize = 1;
            while ii <= k
                invariant
                    1 <= ii <= k + 1,
                    base + k < wp,
                    wp == work.control_points@.len(),
                    work.wf(),
                    work.dim_s() == old(self).dim_s(),
                    np@.len() == 1 + s3 * (k + 1) + ii - 1,
                    forall|q: int| 0 <= q < np@.len() ==> (#[trigger] np@[q]@).len() == old(
                        self,
                    ).dim_s(),
                    self == old(self),
                decreases k + 1 - ii,
            {
                proof {
                    vector::lemma_net_index(work.control_points, base + ii - 1);
                    vector::lemma_net_index(work.control_points, base + ii);
                    assert(work.pts_s()[base + ii - 1].len() == work.dim_s());
                    assert(work.pts_s()[base + ii].len() == work.dim_s());
                }
                let a = vector::smul(scalar::from_int(ii), &work.control_points[base + ii - 1]);
                let b = vector::smul(
                    scalar::from_int(k + 1 - ii),
                    &work.control_points[base + ii],
                );
                np.push(vector::sdiv(&vector::vadd(&a, &b), kp1));
                ii = ii + 1;
            }
            proof {
                vector::lemma_net_index(work.control_points, base + k);
                assert(work.pts_s()[base + k].len() == work.dim_s());
            }
            np.push(vector::copy_pt(&work.control_points[base + k]));
            proof {
                assert(1 + s3 * (k + 1) + k + 1 == 1 + (s3 + 1) * (k + 1)) by (nonlinear_arith);
            }
            s3 = s3 + 1;
        }

        // The elevated lengths must agree with the raised degree.
        proof {
            assert(segs * (k + 1) < 32768 * 32769) by (nonlinear_arith)
                requires
                    segs < 32768,
                    k < 32768,
            ;
        }
        if kvn.len() != np.len() + k + 2 {
            proof {
                if hyp {
                    assert(kvn@.len() == 2 * k + 4);
                    assert(np@.len() == 1 + segs * (k + 1));
                    assert(false);
                }
            }
            return false;
        }
        proof {
            if hyp {
                assert(kvn@ == rep2(v0, v1, (k + 2) as nat, (k + 2) as nat));
            }
        }
        proof {
            assert forall|q: int| 0 <= q < net_of(np).len() implies (
            #[trigger] net_of(np)[q]).len() == old(self).dim_s() by {
                assert(net_of(np)[q] == np@[q]@);
            }
        }
        self.knot_vec = kvn;
        self.control_points = np;
        true
    }

    /// Elevates whichever curve has the lower degree until the degrees
    /// match.  Returns false when an elevation was refused; two curves
    /// of equal degree are left untouched.
    #[verifier::loop_isolation(false)]
    pub fn syncro_degree(&mut self, other: &mut BSplineCurve) -> (r: bool)
        requires
            old(self).wf(),
            old(other).wf(),
        ensures
            r ==> final(self).degree_s() == final(other).degree_s(),
            old(self).degree_s() == old(other).degree_s() ==> r && *final(self) == *old(self)
                && *final(other) == *old(other),
            bezier_like(old(self).knots_s(), old(self).degree_s()) && bezier_like(
                old(other).knots_s(),
                old(other).degree_s(),
            ) ==> r,
            final(self).wf(),
            final(other).wf(),
            final(self).dim_s() == old(self).dim_s(),
            final(other).dim_s() == old(other).dim_s(),
    {
        let ghost hyp = bezier_like(old(self).knots_s(), old(self).degree_s()) && bezier_like(
            old(other).knots_s(),
            old(other).degree_s(),
        );
        if self.degree() == other.degree() {
            return true;
        }
        if self.degree() < other.degree() {
        while self.degree() < other.degree()
            invariant
                self.wf(),
                other.wf(),
                self.dim_s() == old(self).dim_s(),
                other.dim_s() == old(other).dim_s(),
                other == old(other),
                self.degree_s() <= other.degree_s(),
                hyp ==> bezier_like(self.knots_s(), self.degree_s()),
            decreases other.degree_s() - self.degree_s(),
        {
            let ghost pre = *self;
            if !self.elevate_degree() {
                proof {
                    if hyp {
                        assert(false);
                    }
                }
                return false;
            }
            proof {
                if hyp {
                    assert(self.knots_s() == rep2(
                        pre.knots_s()[0],
                        pre.knots_s()[pre.knots_s().len() - 1],
                        (pre.degree_s() + 2) as nat,
                        (pre.degree_s() + 2) as nat,
                    ));
                    assert(self.knots_s()[0] == pre.knots_s()[0]);
                    assert(self.knots_s()[self.knots_s().len() - 1]
                        == pre.knots_s()[pre.knots_s().len() - 1]);
                    assert(self.knots_s() =~= rep2(
                        self.knots_s()[0],
                        self.knots_s()[self.knots_s().len() - 1],
                        (self.degree_s() + 1) as nat,
                        (self.degree_s() + 1) as nat,
                    ));
                    assert(bezier_like(self.knots_s(), self.degree_s()));
                }
            }
        }
        return true;
        }
        while other.degree() < self.degree()
            invariant
                self.wf(),
                other.wf(),
                self.dim_s() == old(self).dim_s(),
                other.dim_s() == old(other).dim_s(),
                other.degree_s() <= self.degree_s(),
                self == old(self),
                hyp ==> bezier_like(other.knots_s(), other.degree_s()),
            decreases self.degree_s() - other.degree_s(),
        {
            let ghost pre = *other;
            if !other.elevate_degree() {
                proof {
                    if hyp {
                        assert(false);
                    }
                }
                return false;
            }
            proof {
                if hyp {
                    assert(other.knots_s() == rep2(
                        pre.knots_s()[0],
                        pre.knots_s()[pre.knots_s().len() - 1],
                        (pre.degree_s() + 2) as nat,
                        (pre.degree_s() + 2) as nat,
                    ));
                    assert(other.knots_s()[0] == pre.knots_s()[0]);
                    assert(other.knots_s()[other.knots_s().len() - 1]
                        == pre.knots_s()[pre.knots_s().len() - 1]);
                    assert(other.knots_s() =~= rep2(
                        other.knots_s()[0],
                        other.knots_s()[other.knots_s().len() - 1],
                        (other.degree_s() + 1) as nat,
                        (other.degree_s() + 1) as nat,
                    ));
                    assert(bezier_like(other.knots_s(), other.degree_s()));
                }
            }
        }
        true
    }
}

/// Applies the full Boehm control update for an insertion at knot index
/// `idx` to a free-standing control sequence; the knot vector already
/// holds the inserted knot.
#[verifier::rlimit(100)]
#[verifier::spinoff_prover]
#[verifier::loop_isolation(false)]
pub(crate) fn apply_boehm(
    pts: &mut Vec<Vec<u64>>,
    kv: &KnotVec,
    idx: usize,
    k: usize,
    dim: usize,
)
    requires
        uniform_s(net_of(*old(pts)), dim as nat),
        old(pts)@.len() >= 1,
        kv@.len() == old(pts)@.len() + k + 2,
        idx < kv@.len(),
    ensures
        net_of(*final(pts)) == boehm_insert_s(
            net_of(*old(pts)),
            kv@,
            idx as int,
            k as int,
            dim as nat,
        ),
        final(pts)@.len() == old(pts)@.len() + 1,
        uniform_s(net_of(*final(pts)), dim as nat),
{
    let n = pts.len();
    let ghost opts = net_of(*pts);
    if idx == 0 {
        pts.insert(0, vector::vzero(dim));
        proof {
            assert forall|j: int| 0 <= j < net_of(*pts).len() implies #[trigger] net_of(*pts)[j]
                == (seq![zero_pt(dim as nat)] + opts)[j] by {
                assert(net_of(*pts)[j] == pts@[j]@);
                if j > 0 {
                    assert(pts@[j] == old(pts)@[j - 1]);
                }
            }
            assert(net_of(*pts) =~= seq![zero_pt(dim as nat)] + opts);
            assert forall|j: int| 0 <= j < net_of(*pts).len() implies (
            #[trigger] net_of(*pts)[j]).len() == dim by {}
        }
        return;
    }
    let end: usize = if idx > n {
        pts.push(vector::vzero(dim));
        n + 1
    } else {
        proof {
            vector::lemma_net_index(*pts, idx - 1);
        }
        let dup = vector::copy_pt(&pts[idx - 1]);
        pts.insert(idx - 1, dup);
        idx
    };
    let start: usize = if idx > k {
        idx - k
    } else {
        0
    };
    let ghost base = net_of(*pts);
    proof {
        if idx > n {
            assert forall|j: int| 0 <= j < base.len() implies #[trigger] base[j] == opts.push(
                zero_pt(dim as nat),
            )[j] by {
                assert(base[j] == pts@[j]@);
            }
            assert(base =~= opts.push(zero_pt(dim as nat)));
        } else {
            old(pts)@.insert_ensures(idx - 1, pts@[idx - 1]);
            assert forall|j: int| 0 <= j < base.len() implies #[trigger] base[j] == opts.insert(
                idx - 1,
                opts[idx - 1],
            )[j] by {
                assert(base[j] == pts@[j]@);
                opts.insert_ensures(idx - 1, opts[idx - 1]);
            }
            assert(base =~= opts.insert(idx - 1, opts[idx - 1]));
        }
        assert(uniform_s(base, dim as nat));
        assert(start <= end <= base.len());
    }
    boehm_window(pts, kv, idx, k, start, end, dim);
}

/// The Boehm insertion keeps the rows' dimension and adds one row.
pub proof fn lemma_boehm_insert_shape(
    pts: Seq<Seq<u64>>,
    kn: Seq<u64>,
    idx: int,
    k: int,
    dim: nat,
)
    requires
        uniform_s(pts, dim),
        pts.len() >= 1,
        0 <= idx <= pts.len() + k + 1,
        0 <= k,
    ensures
        boehm_insert_s(pts, kn, idx, k, dim).len() == pts.len() + 1,
        uniform_s(boehm_insert_s(pts, kn, idx, k, dim), dim),
{
    let n = pts.len() as int;
    if idx == 0 {
        let r = seq![zero_pt(dim)] + pts;
        assert forall|j: int| 0 <= j < r.len() implies (#[trigger] r[j]).len() == dim by {
            if j > 0 {
                assert(r[j] == pts[j - 1]);
            }
        }
    } else {
        let base = if idx > n {
            pts.push(zero_pt(dim))
        } else {
            pts.insert(idx - 1, pts[idx - 1])
        };
        let end = if idx > n {
            n + 1
        } else {
            idx
        };
        let start = if idx > k {
            idx - k
        } else {
            0
        };
        if idx <= n {
            pts.insert_ensures(idx - 1, pts[idx - 1]);
        }
        assert(uniform_s(base, dim));
        assert(base.len() == pts.len() + 1);
        assert(0 <= start <= end);
        assert(end <= base.len());
        lemma_boehm_iter_shape(base, kn, idx, k, end, (end - start) as nat, dim);
    }
}

/// Builds the removal candidates of a free-standing control sequence
/// over the given knot vector: candidate zero is the row in front of
/// the window, each next candidate inverts one Boehm combination, and
/// the construction stops at a degenerate window coefficient.
#[verifier::rlimit(100)]
#[verifier::spinoff_prover]
#[verifier::loop_isolation(false)]
pub(crate) fn rm_candidates(
    pts: &Vec<Vec<u64>>,
    kv: &KnotVec,
    idx: usize,
    k: usize,
    dim: usize,
) -> (r: Vec<Vec<u64>>)
    requires
        uniform_s(net_of(*pts), dim as nat),
        k + 1 <= idx < pts@.len(),
        kv@.len() == pts@.len() + k + 1,
    ensures
        r@.len() == rm_count_from(kv@, idx as int, k as int, 0) + 1,
        forall|q: int| 0 <= q < r@.len() ==> #[trigger] r@[q]@ == rm_cand(
            net_of(*pts),
            kv@,
            idx as int,
            k as int,
            q as nat,
        ),
        forall|q: int| 0 <= q < r@.len() ==> (#[trigger] r@[q]@).len() == dim,
{
    let kvlen = kv.len();
    let ghost opts = net_of(*pts);
    let ghost kn = kv@;
    let mut cands: Vec<Vec<u64>> = Vec::new();
    proof {
        vector::lemma_net_index(*pts, idx - k - 1);
    }
    cands.push(vector::copy_pt(&pts[idx - k - 1]));
    let mut m: usize = 0;
    let mut stopped = false;
    while m < k && !stopped
        invariant
            0 <= m <= k,
            cands@.len() == m + 1,
            forall|q: int| 0 <= q <= m ==> #[trigger] cands@[q]@ == rm_cand(
                opts,
                kn,
                idx as int,
                k as int,
                q as nat,
            ),
            forall|q: int| 0 <= q <= m ==> (#[trigger] cands@[q]@).len() == dim,
            !stopped ==> rm_count_from(kn, idx as int, k as int, 0) == rm_count_from(
                kn,
                idx as int,
                k as int,
                m as nat,
            ),
            stopped ==> rm_count_from(kn, idx as int, k as int, 0) == m,
        decreases k - m + (if stopped { 0int } else { 1int }),
    {
        let i = idx - k + m;
        proof {
            assert(i + k + 1 < kvlen);
        }
        let a = scalar::fmul(
            tolerance::inv_or_zero(scalar::fsub(kv.knot(i + k + 1), kv.knot(i))),
            scalar::fsub(kv.knot(idx), kv.knot(i)),
        );
        proof {
            assert(a == rm_a(kn, idx as int, k as int, i as int));
        }
        if tolerance::so_small(a) {
            stopped = true;
        } else {
            let one_minus = scalar::fsub(ONE_BITS, a);
            proof {
                vector::lemma_net_index(*pts, i as int);
                assert(net_of(*pts)[i as int].len() == dim);
            }
            let t0 = vector::sdiv(&pts[i], a);
            let t1 = vector::sdiv(&vector::smul(one_minus, &cands[m]), a);
            let newc = vector::vsub(&t0, &t1);
            proof {
                assert(newc@ == rm_cand(opts, kn, idx as int, k as int, (m + 1) as nat));
            }
            cands.push(newc);
            m = m + 1;
        }
    }
    proof {
        assert(rm_count_from(kn, idx as int, k as int, 0) == m);
    }
    cands
}

/// Writes the removal candidates one and later back over the window
/// rows and drops the removed row.
#[verifier::rlimit(100)]
#[verifier::spinoff_prover]
#[verifier::loop_isolation(false)]
pub(crate) fn rm_apply(
    pts: &mut Vec<Vec<u64>>,
    cands: &Vec<Vec<u64>>,
    kv: &KnotVec,
    idx: usize,
    k: usize,
    dim: usize,
)
    requires
        uniform_s(net_of(*old(pts)), dim as nat),
        k + 1 <= idx < old(pts)@.len(),
        cands@.len() == rm_count_from(kv@, idx as int, k as int, 0) + 1,
        cands@.len() <= k + 1,
        forall|q: int| 0 <= q < cands@.len() ==> #[trigger] cands@[q]@ == rm_cand(
            net_of(*old(pts)),
            kv@,
            idx as int,
            k as int,
            q as nat,
        ),
    ensures
        net_of(*final(pts)) == rm_write(
            net_of(*old(pts)),
            kv@,
            idx as int,
            k as int,
            (cands@.len() - 1) as nat,
        ).remove(idx as int),
        final(pts)@.len() == old(pts)@.len() - 1,
        uniform_s(net_of(*final(pts)), dim as nat),
{
    let ghost opts = net_of(*old(pts));
    let ghost kn = kv@;
    let m = cands.len() - 1;
    let mut q: usize = 1;
    while q <= m
        invariant
            1 <= q <= m + 1,
            m + 1 == cands@.len(),
            m <= k,
            pts@.len() == opts.len(),
            k + 1 <= idx < opts.len(),
            net_of(*pts) == rm_write(opts, kn, idx as int, k as int, (q - 1) as nat),
        decreases m + 1 - q,
    {
        let c = vector::copy_pt(&cands[q]);
        pts.set(idx - k + q - 1, c);
        proof {
            assert forall|j: int| 0 <= j < net_of(*pts).len() implies #[trigger] net_of(*pts)[j]
                == rm_write(opts, kn, idx as int, k as int, q as nat)[j] by {
                assert(net_of(*pts)[j] == pts@[j]@);
            }
            assert(net_of(*pts) =~= rm_write(opts, kn, idx as int, k as int, q as nat));
        }
        q = q + 1;
    }
    let ghost written = net_of(*pts);
    pts.remove(idx);
    proof {
        written.remove_ensures(idx as int);
        assert forall|j: int| 0 <= j < net_of(*pts).len() implies #[trigger] net_of(*pts)[j]
            == written.remove(idx as int)[j] by {
            assert(net_of(*pts)[j] == pts@[j]@);
        }
        assert(net_of(*pts) =~= written.remove(idx as int));
        lemma_rm_write_shape(opts, kn, idx as int, k as int, m as nat, dim as nat);
        assert forall|j: int| 0 <= j < net_of(*pts).len() implies (
        #[trigger] net_of(*pts)[j]).len() == dim by {
            assert(net_of(*pts)[j] == written.remove(idx as int)[j]);
        }
    }
}

/// The removal step count never exceeds the degree.
pub proof fn lemma_rm_count_le(kn: Seq<u64>, idx: int, k: int, m: nat)
    requires
        m <= k,
    ensures
        m <= rm_count_from(kn, idx, k, m) <= k,
    decreases k - m,
{
    if m < k && !so_small_bits(rm_a(kn, idx, k, idx - k + m)) {
        lemma_rm_count_le(kn, idx, k, m + 1);
    }
}

impl BSplineCurve {
    /// Scales every control point by `c`; the knot vectors are kept,
    /// which is the affine invariance of the representation.
    #[verifier::loop_isolation(false)]
    pub fn scale(&mut self, c: u64)
        requires
            old(self).wf(),
        ensures
            final(self).knots_s() == old(self).knots_s(),
            final(self).pts_s() == Seq::new(
                old(self).pts_s().len(),
                |i: int| smul_s(c, old(self).pts_s()[i]),
            ),
            final(self).wf(),
            final(self).dim_s() == old(self).dim_s(),
            final(self).degree_s() == old(self).degree_s(),
    {
        let n = self.control_points.len();
        let mut i: usize = 0;
        while i < n
            invariant
                i <= n,
                n == self.control_points@.len(),
                self.knots_s() == old(self).knots_s(),
                forall|j: int| 0 <= j < i ==> #[trigger] self.pts_s()[j] == smul_s(
                    c,
                    old(self).pts_s()[j],
                ),
                forall|j: int| i <= j < n ==> #[trigger] self.control_points@[j] == old(
                    self,
                ).control_points@[j],
            decreases n - i,
        {
            proof {
                assert(self.pts_s()[i as int] == self.control_points@[i as int]@);
                assert(old(self).pts_s()[i as int] == old(self).control_points@[i as int]@);
            }
            let newp = vector::smul(c, &self.control_points[i]);
            let ghost pre = self.pts_s();
            let ghost precp = self.control_points@;
            self.control_points.set(i, newp);
            proof {
                assert forall|j: int| 0 <= j < i + 1 implies #[trigger] self.pts_s()[j]
                    == smul_s(c, old(self).pts_s()[j]) by {
                    assert(self.pts_s()[j] == self.control_points@[j]@);
                    if j < i {
                        assert(self.control_points@[j] == precp[j]);
                        assert(pre[j] == precp[j]@);
                    }
                    assert(old(self).pts_s()[j] == old(self).control_points@[j]@);
                }
            }
            i = i + 1;
        }
        proof {
            let t = Seq::new(old(self).pts_s().len(), |i: int| smul_s(c, old(self).pts_s()[i]));
            assert forall|j: int| 0 <= j < self.pts_s().len() implies #[trigger] self.pts_s()[j]
                == t[j] by {}
            assert(self.pts_s() =~= t);
            assert forall|j: int| 0 <= j < self.pts_s().len() implies (
            #[trigger] self.pts_s()[j]).len() == old(self).dim_s() by {
                assert(self.pts_s()[j] == t[j]);
            }
        }
    }

    /// Applies a square matrix to every control point, as the matrix
    /// acting from the left on a column vector (`mat * p`); a caller
    /// with row-vector data passes the transpose.  The knot vectors are
    /// kept.
    #[verifier::loop_isolation(false)]
    pub fn transform(&mut self, mat: &Vec<Vec<u64>>)
        requires
            old(self).wf(),
            mat@.len() == old(self).dim_s(),
            forall|i: int| 0 <= i < mat@.len() ==> (#[trigger] mat@[i]@).len() == old(
                self,
            ).dim_s(),
        ensures
            final(self).knots_s() == old(self).knots_s(),
            final(self).pts_s() == Seq::new(
                old(self).pts_s().len(),
                |i: int| vector::matvec_s(net_of(*mat), old(self).pts_s()[i]),
            ),
            final(self).wf(),
            final(self).dim_s() == old(self).dim_s(),
            final(self).degree_s() == old(self).degree_s(),
    {
        let n = self.control_points.len();
        let mut i: usize = 0;
        while i < n
            invariant
                i <= n,
                n == self.control_points@.len(),
                self.knots_s() == old(self).knots_s(),
                forall|j: int| 0 <= j < i ==> #[trigger] self.pts_s()[j] == vector::matvec_s(
                    net_of(*mat),
                    old(self).pts_s()[j],
                ),
                forall|j: int| i <= j < n ==> #[trigger] self.control_points@[j] == old(
                    self,
                ).control_points@[j],
            decreases n - i,
        {
            proof {
                assert(self.pts_s()[i as int] == self.control_points@[i as int]@);
                assert(old(self).pts_s()[i as int] == old(self).control_points@[i as int]@);
                assert(old(self).pts_s()[i as int].len() == old(self).dim_s());
            }
            let newp = vector::matvec(mat, &self.control_points[i]);
            let ghost pre = self.pts_s();
            let ghost precp = self.control_points@;
            self.control_points.set(i, newp);
            proof {
                assert forall|j: int| 0 <= j < i + 1 implies #[trigger] self.pts_s()[j]
                    == vector::matvec_s(net_of(*mat), old(self).pts_s()[j]) by {
                    assert(self.pts_s()[j] == self.control_points@[j]@);
                    if j < i {
                        assert(self.control_points@[j] == precp[j]);
                        assert(pre[j] == precp[j]@);
                    }
                    assert(old(self).pts_s()[j] == old(self).control_points@[j]@);
                }
            }
            i = i + 1;
        }
        proof {
            let t = Seq::new(
                old(self).pts_s().len(),
                |i: int| vector::matvec_s(net_of(*mat), old(self).pts_s()[i]),
            );
            assert forall|j: int| 0 <= j < self.pts_s().len() implies #[trigger] self.pts_s()[j]
                == t[j] by {}
            assert(self.pts_s() =~= t);
            assert forall|j: int| 0 <= j < self.pts_s().len() implies (
            #[trigger] self.pts_s()[j]).len() == old(self).dim_s() by {
                assert(self.pts_s()[j] == t[j]);
            }
        }
    }
}

/// Law: a knot insertion followed by a removal at the same index
/// restores the knot sequence exactly.  Together with the contracts of
/// `add_knot` and `try_remove_knot`, a successful removal right after
/// an insertion therefore returns the knot vector to its original
/// value; the control points are restored up to the reconstruction the
/// removal accepts.
pub proof fn lemma_insert_remove_knots(s: Seq<u64>, idx: int, x: u64)
    requires
        0 <= idx <= s.len(),
    ensures
        s.insert(idx, x).remove(idx) == s,
{
    s.insert_ensures(idx, x);
    s.insert(idx, x).remove_ensures(idx);
    assert(s.insert(idx, x).remove(idx) =~= s);
}

/// The sequence of `a` copies of `v0` followed by `b` copies of `v1`.
pub open spec fn rep2(v0: u64, v1: u64, a: nat, b: nat) -> Seq<u64> {
    Seq::new(a + b, |i: int| if i < a { v0 } else { v1 })
}

/// A clamped Bezier knot sequence of degree `k`: `k + 1` copies of the
/// first knot followed by `k + 1` copies of the last, two distinct
/// values, and a degree small enough for the elevation index guards.
pub open spec fn bezier_like(kn: Seq<u64>, k: int) -> bool {
    &&& 1 <= k <= 32000
    &&& kn.len() == 2 * k + 2
    &&& kn == rep2(kn[0], kn[kn.len() - 1], (k + 1) as nat, (k + 1) as nat)
    &&& kn[0] != kn[kn.len() - 1]
}

/// The knot sequence after a shift by `x`: installed when still
/// well-formed, unchanged otherwise; mirrors `knot_translate`.
pub open spec fn translate_step(kn: Seq<u64>, x: u64) -> Seq<u64> {
    if knots_wf(KnotVec::translated_s(kn, x)) {
        KnotVec::translated_s(kn, x)
    } else {
        kn
    }
}

/// The knot sequence after an inversion: reflected when the reflection
/// is still well-formed, unchanged otherwise; mirrors `invert`.
pub open spec fn inv_kn_step(kn: Seq<u64>) -> Seq<u64> {
    if knots_wf(reflected_s(kn)) {
        reflected_s(kn)
    } else {
        kn
    }
}

/// The control points after an inversion; mirrors `invert`.
pub open spec fn inv_pts_step(kn: Seq<u64>, pts: Seq<Seq<u64>>) -> Seq<Seq<u64>> {
    if knots_wf(reflected_s(kn)) {
        rev_s(pts)
    } else {
        pts
    }
}

/// Whether a concatenation is installed: the junction control points
/// are near and the combined knot sequence is well-formed; mirrors
/// `concat`.
pub open spec fn concat_ok(
    kn1: Seq<u64>,
    p1: Seq<Seq<u64>>,
    kn2: Seq<u64>,
    p2: Seq<Seq<u64>>,
    k: int,
) -> bool {
    pt_near_s(p1[p1.len() - 1], p2[0]) && knots_wf(concat_knots_s(kn1, kn2, k))
}

/// The knot sequence after a concatenation attempt.
pub open spec fn concat_kn_step(
    kn1: Seq<u64>,
    p1: Seq<Seq<u64>>,
    kn2: Seq<u64>,
    p2: Seq<Seq<u64>>,
    k: int,
) -> Seq<u64> {
    if concat_ok(kn1, p1, kn2, p2, k) {
        concat_knots_s(kn1, kn2, k)
    } else {
        kn1
    }
}

/// The control points after a concatenation attempt.
pub open spec fn concat_pts_step(
    kn1: Seq<u64>,
    p1: Seq<Seq<u64>>,
    kn2: Seq<u64>,
    p2: Seq<Seq<u64>>,
    k: int,
) -> Seq<Seq<u64>> {
    if concat_ok(kn1, p1, kn2, p2, k) {
        p1 + p2.subrange(1, p2.len() as int)
    } else {
        p1
    }
}

} // verus!
