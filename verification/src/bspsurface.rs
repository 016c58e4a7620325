//! Two-parameter B-spline surfaces: evaluation, directional derivation,
//! knot insertion and removal on both axes, axis swapping, lofting,
//! boundary extraction and fill, and sampled near-equality.

use vstd::prelude::*;
use crate::scalar::{
    add_bits, sub_bits, mul_bits, div_bits, neg_bits, is_nan_bits, is_finite_bits, key_of,
    le_bits, lt_bits, eq_bits, int_bits, sqrt_bits, ONE_BITS, TWO_BITS,
};
use crate::scalar;
use crate::tolerance::{so_small_bits, inv_or_zero_bits, near_bits, near2_bits};
use crate::tolerance;
use crate::vector::{
    zero_pt, vadd_s, vsub_s, vneg_s, smul_s, sdiv_s, dot_s, cross_s, pt_near_s, pt_near2_s,
    rat_proj_s, rat_der_s, net_of, uniform_s, rsub_s, rneg_s, rsmul_s, rdiv_s,
    row_near_s,
};
use crate::vector;
use crate::knot_vec::{
    KnotVec, knots_wf, sorted_bits, ins_idx, basis_s, clamped_s, norm_ok,
};
use crate::knot_vec;
use crate::bspcurve::{
    BSplineCurve, wsum_s, delta_s, deriv_pts_s, boehm_a, boehm_insert_s, apply_boehm,
    rm_a, rm_count_from, rm_cand, rm_write, rm_candidates, rm_apply, lemma_rm_count_le,
    rm_ok_at, reflected_s, rev_s,
};
use crate::bspcurve;
use crate::errors::Error;

verus! {

/// The three-level view of a rectangular control net.
pub open spec fn net3_of(v: Vec<Vec<Vec<u64>>>) -> Seq<Seq<Seq<u64>>> {
    Seq::new(v@.len(), |i: int| net_of(v@[i]))
}

/// Every row has `cols` points and every point has `dim` components.
pub open spec fn rect_s(net: Seq<Seq<Seq<u64>>>, cols: nat, dim: nat) -> bool {
    &&& forall|i: int| 0 <= i < net.len() ==> (#[trigger] net[i]).len() == cols
    &&& forall|i: int, j: int| 0 <= i < net.len() && 0 <= j < cols
        ==> (#[trigger] net[i][j]).len() == dim
}

/// The transpose of a rectangular net with `cols` columns.
pub open spec fn transpose_s(net: Seq<Seq<Seq<u64>>>, cols: nat) -> Seq<Seq<Seq<u64>>> {
    Seq::new(cols, |j: int| Seq::new(net.len(), |i: int| net[i][j]))
}

/// Transposing twice gives the original rectangular net back.
pub proof fn lemma_transpose_involutive(net: Seq<Seq<Seq<u64>>>, cols: nat, dim: nat)
    requires
        rect_s(net, cols, dim),
    ensures
        transpose_s(transpose_s(net, cols), net.len()) == net,
{
    let t = transpose_s(net, cols);
    let tt = transpose_s(t, net.len());
    assert forall|i: int| 0 <= i < net.len() implies #[trigger] tt[i] == net[i] by {
        assert forall|j: int| 0 <= j < cols implies #[trigger] tt[i][j] == net[i][j] by {
            assert(t[j][i] == net[i][j]);
        }
        assert(tt[i] =~= net[i]);
    }
    assert(tt =~= net);
}

/// The running weighted sum of the surface evaluation: all rows before
/// `i` in full, and the first `j` points of row `i`, each point weighted
/// by the product of its two basis values.
pub open spec fn surf_sum_s(
    net: Seq<Seq<Seq<u64>>>,
    b0: Seq<u64>,
    b1: Seq<u64>,
    dim: nat,
    cols: int,
    i: int,
    j: int,
) -> Seq<u64>
    decreases i, j,
{
    if j > 0 {
        vadd_s(
            surf_sum_s(net, b0, b1, dim, cols, i, j - 1),
            smul_s(mul_bits(b0[i], b1[j - 1]), net[i][j - 1]),
        )
    } else if i > 0 {
        surf_sum_s(net, b0, b1, dim, cols, i - 1, cols)
    } else {
        zero_pt(dim)
    }
}

/// The row-level control delta of the u-derivation: boundary rows extend
/// from the first row and the negated last row.
pub open spec fn rdelta_s(net: Seq<Seq<Seq<u64>>>, i: int) -> Seq<Seq<u64>> {
    if i == 0 {
        net[0]
    } else if i == net.len() {
        rneg_s(net[net.len() - 1])
    } else {
        rsub_s(net[i], net[i - 1])
    }
}

/// The `i`-th row of the u-derivative surface.
pub open spec fn uderiv_row_s(net: Seq<Seq<Seq<u64>>>, kn: Seq<u64>, k: int, i: int) -> Seq<
    Seq<u64>,
> {
    rsmul_s(
        mul_bits(int_bits(k), inv_or_zero_bits(sub_bits(kn[i + k], kn[i]))),
        rdelta_s(net, i),
    )
}

/// A zero net of the given shape.
pub open spec fn zero_net_s(rows: nat, cols: nat, dim: nat) -> Seq<Seq<Seq<u64>>> {
    Seq::new(rows, |i: int| Seq::new(cols, |j: int| zero_pt(dim)))
}

/// A B-spline surface: a pair of knot vectors and a rectangular control
/// net.
pub struct BSplineSurface {
    knot_vecs: (KnotVec, KnotVec),
    control_points: Vec<Vec<Vec<u64>>>,
}

impl BSplineSurface {
    /// The u-direction knot sequence.
    pub closed spec fn uknots_s(&self) -> Seq<u64> {
        self.knot_vecs.0@
    }

    /// The v-direction knot sequence.
    pub closed spec fn vknots_s(&self) -> Seq<u64> {
        self.knot_vecs.1@
    }

    /// The control net view.
    pub closed spec fn net_s(&self) -> Seq<Seq<Seq<u64>>> {
        net3_of(self.control_points)
    }

    /// The number of control rows.
    pub open spec fn rows_s(&self) -> nat {
        self.net_s().len()
    }

    /// The number of control columns.
    pub open spec fn cols_s(&self) -> nat {
        self.net_s()[0].len()
    }

    /// The common dimension of the control points.
    pub open spec fn dim_s(&self) -> nat {
        self.net_s()[0][0].len()
    }

    /// The degree along u.
    pub open spec fn udegree_s(&self) -> int {
        self.uknots_s().len() - self.rows_s() - 1
    }

    /// The degree along v.
    pub open spec fn vdegree_s(&self) -> int {
        self.vknots_s().len() - self.cols_s() - 1
    }

    /// The surface invariant: two well-formed knot vectors, a non-empty
    /// rectangular net of points of one positive dimension, and both
    /// knot vectors longer than the corresponding control extent.
    pub open spec fn wf(&self) -> bool {
        &&& knots_wf(self.uknots_s())
        &&& knots_wf(self.vknots_s())
        &&& self.rows_s() >= 1
        &&& self.cols_s() >= 1
        &&& self.dim_s() >= 1
        &&& rect_s(self.net_s(), self.cols_s(), self.dim_s())
        &&& self.uknots_s().len() > self.rows_s()
        &&& self.vknots_s().len() > self.cols_s()
    }

    /// Wraps parts that are already known to satisfy the invariant; the
    /// non-validating escape hatch for pre-validated callers.
    pub fn new_unchecked(
        knot_vecs: (KnotVec, KnotVec),
        control_points: Vec<Vec<Vec<u64>>>,
    ) -> (r: BSplineSurface)
        requires
            knots_wf(knot_vecs.0@),
            knots_wf(knot_vecs.1@),
            net3_of(control_points).len() >= 1,
            net3_of(control_points)[0].len() >= 1,
            net3_of(control_points)[0][0].len() >= 1,
            rect_s(
                net3_of(control_points),
                net3_of(control_points)[0].len(),
                net3_of(control_points)[0][0].len(),
            ),
            knot_vecs.0@.len() > net3_of(control_points).len(),
            knot_vecs.1@.len() > net3_of(control_points)[0].len(),
        ensures
            r.uknots_s() == knot_vecs.0@,
            r.vknots_s() == knot_vecs.1@,
            r.net_s() == net3_of(control_points),
            r.wf(),
    {
        BSplineSurface { knot_vecs, control_points }
    }

    /// Validating constructor.  Fails with `EmptyControlPoints` when the
    /// net or its first row is empty or a point is empty, with
    /// `TooShortKnotVector` when a knot vector is not longer than the
    /// matching control extent, with `ZeroRange` when a knot range is
    /// zero up to the linear tolerance, and with `IrregularControlPoints`
    /// when the net is not rectangular with one point dimension.
    #[verifier::rlimit(100)]
    #[verifier::spinoff_prover]
    #[verifier::loop_isolation(false)]
    pub fn try_new(
        knot_vecs: (KnotVec, KnotVec),
        control_points: Vec<Vec<Vec<u64>>>,
    ) -> (r: Result<BSplineSurface, Error>)
        requires
            knot_vecs.0.wf(),
            knot_vecs.1.wf(),
        ensures
            r is Ok <==> net3_of(control_points).len() >= 1 && net3_of(control_points)[0].len()
                >= 1 && net3_of(control_points)[0][0].len() >= 1 && knot_vecs.0@.len()
                > net3_of(control_points).len() && knot_vecs.1@.len() > net3_of(
                control_points,
            )[0].len() && !so_small_bits(
                sub_bits(knot_vecs.0@[knot_vecs.0@.len() - 1], knot_vecs.0@[0]),
            ) && !so_small_bits(
                sub_bits(knot_vecs.1@[knot_vecs.1@.len() - 1], knot_vecs.1@[0]),
            ) && rect_s(
                net3_of(control_points),
                net3_of(control_points)[0].len(),
                net3_of(control_points)[0][0].len(),
            ),
            match r {
                Ok(s) => {
                    &&& s.uknots_s() == knot_vecs.0@
                    &&& s.vknots_s() == knot_vecs.1@
                    &&& s.net_s() == net3_of(control_points)
                    &&& s.wf()
                },
                Err(Error::EmptyControlPoints) => net3_of(control_points).len() == 0
                    || net3_of(control_points)[0].len() == 0
                    || net3_of(control_points)[0][0].len() == 0,
                Err(Error::TooShortKnotVector(a, b)) => net3_of(control_points).len() >= 1
                    && net3_of(control_points)[0].len() >= 1 && net3_of(control_points)[0][
                    0].len() >= 1 && ((a == knot_vecs.0@.len() && b == net3_of(
                    control_points,
                ).len() && a <= b) || (a == knot_vecs.1@.len() && b == net3_of(control_points)[
                    0].len() && a <= b && knot_vecs.0@.len() > net3_of(control_points).len())),
                Err(Error::ZeroRange) => net3_of(control_points).len() >= 1 && net3_of(
                    control_points,
                )[0].len() >= 1 && net3_of(control_points)[0][0].len() >= 1 && knot_vecs.0@.len()
                    > net3_of(control_points).len() && knot_vecs.1@.len() > net3_of(
                    control_points,
                )[0].len() && (so_small_bits(
                    sub_bits(knot_vecs.0@[knot_vecs.0@.len() - 1], knot_vecs.0@[0]),
                ) || so_small_bits(
                    sub_bits(knot_vecs.1@[knot_vecs.1@.len() - 1], knot_vecs.1@[0]),
                )),
                Err(Error::IrregularControlPoints) => !rect_s(
                    net3_of(control_points),
                    net3_of(control_points)[0].len(),
                    net3_of(control_points)[0][0].len(),
                ) && net3_of(control_points).len() >= 1 && net3_of(control_points)[0].len() >= 1
                    && net3_of(control_points)[0][0].len() >= 1 && knot_vecs.0@.len() > net3_of(
                    control_points,
                ).len() && knot_vecs.1@.len() > net3_of(control_points)[0].len()
                    && !so_small_bits(
                    sub_bits(knot_vecs.0@[knot_vecs.0@.len() - 1], knot_vecs.0@[0]),
                ) && !so_small_bits(
                    sub_bits(knot_vecs.1@[knot_vecs.1@.len() - 1], knot_vecs.1@[0]),
                ),
                _ => false,
            },
    {
        if control_points.len() == 0 {
            return Err(Error::EmptyControlPoints);
        }
        if control_points[0].len() == 0 {
            return Err(Error::EmptyControlPoints);
        }
        if control_points[0][0].len() == 0 {
            proof {
                assert(net3_of(control_points)[0] == net_of(control_points@[0]));
                assert(net3_of(control_points)[0][0] == control_points@[0]@[0]@);
            }
            return Err(Error::EmptyControlPoints);
        }
        if knot_vecs.0.len() <= control_points.len() {
            return Err(Error::TooShortKnotVector(knot_vecs.0.len(), control_points.len()));
        }
        if knot_vecs.1.len() <= control_points[0].len() {
            proof {
                assert(net3_of(control_points)[0] == net_of(control_points@[0]));
            }
            return Err(Error::TooShortKnotVector(knot_vecs.1.len(), control_points[0].len()));
        }
        if tolerance::so_small(knot_vecs.0.range_length()) {
            return Err(Error::ZeroRange);
        }
        if tolerance::so_small(knot_vecs.1.range_length()) {
            return Err(Error::ZeroRange);
        }
        let cols = control_points[0].len();
        let dim = control_points[0][0].len();
        proof {
            assert(net3_of(control_points)[0] == net_of(control_points@[0]));
            assert(net3_of(control_points)[0][0] == control_points@[0]@[0]@);
        }
        let rows = control_points.len();
        let mut i: usize = 0;
        while i < rows
            invariant
                i <= rows,
                rows == control_points@.len(),
                forall|p: int| 0 <= p < i ==> (#[trigger] net3_of(control_points)[p]).len()
                    == cols,
                forall|p: int, q: int| 0 <= p < i && 0 <= q < cols
                    ==> (#[trigger] net3_of(control_points)[p][q]).len() == dim,
            decreases rows - i,
        {
            proof {
                assert(net3_of(control_points)[i as int] == net_of(control_points@[i as int]));
            }
            if control_points[i].len() != cols {
                return Err(Error::IrregularControlPoints);
            }
            let mut j: usize = 0;
            while j < cols
                invariant
                    j <= cols,
                    i < rows,
                    rows == control_points@.len(),
                    cols == control_points@[i as int]@.len(),
                    forall|q: int| 0 <= q < j
                        ==> (#[trigger] net3_of(control_points)[i as int][q]).len() == dim,
                decreases cols - j,
            {
                proof {
                    assert(net3_of(control_points)[i as int] == net_of(
                        control_points@[i as int],
                    ));
                    assert(net3_of(control_points)[i as int][j as int]
                        == control_points@[i as int]@[j as int]@);
                }
                if control_points[i][j].len() != dim {
                    return Err(Error::IrregularControlPoints);
                }
                j = j + 1;
            }
            i = i + 1;
        }
        Ok(BSplineSurface { knot_vecs, control_points })
    }

    /// Constructor for callers that have already ruled the validation
    /// failures out.
    pub fn new(
        knot_vecs: (KnotVec, KnotVec),
        control_points: Vec<Vec<Vec<u64>>>,
    ) -> (r: BSplineSurface)
        requires
            knot_vecs.0.wf(),
            knot_vecs.1.wf(),
            net3_of(control_points).len() >= 1,
            net3_of(control_points)[0].len() >= 1,
            net3_of(control_points)[0][0].len() >= 1,
            rect_s(
                net3_of(control_points),
                net3_of(control_points)[0].len(),
                net3_of(control_points)[0][0].len(),
            ),
            knot_vecs.0@.len() > net3_of(control_points).len(),
            knot_vecs.1@.len() > net3_of(control_points)[0].len(),
            !so_small_bits(sub_bits(knot_vecs.0@[knot_vecs.0@.len() - 1], knot_vecs.0@[0])),
            !so_small_bits(sub_bits(knot_vecs.1@[knot_vecs.1@.len() - 1], knot_vecs.1@[0])),
        ensures
            r.uknots_s() == knot_vecs.0@,
            r.vknots_s() == knot_vecs.1@,
            r.net_s() == net3_of(control_points),
            r.wf(),
    {
        match Self::try_new(knot_vecs, control_points) {
            Ok(s) => s,
            Err(_) => {
                proof {
                    assert(false);
                }
                // Unreachable: the validation failures are ruled out.
                BSplineSurface {
                    knot_vecs: (KnotVec::bezier_knot(0), KnotVec::bezier_knot(0)),
                    control_points: vec![vec![vec![0u64]]],
                }
            },
        }
    }

    /// A reference to the pair of knot vectors.
    pub fn knot_vecs(&self) -> (r: &(KnotVec, KnotVec))
        ensures
            r.0@ == self.uknots_s(),
            r.1@ == self.vknots_s(),
    {
        &self.knot_vecs
    }

    /// A reference to the u knot vector.
    pub fn uknot_vec(&self) -> (r: &KnotVec)
        ensures
            r@ == self.uknots_s(),
    {
        &self.knot_vecs.0
    }

    /// A reference to the v knot vector.
    pub fn vknot_vec(&self) -> (r: &KnotVec)
        ensures
            r@ == self.vknots_s(),
    {
        &self.knot_vecs.1
    }

    /// The `idx`-th u knot.
    pub fn uknot(&self, idx: usize) -> (r: u64)
        requires
            idx < self.uknots_s().len(),
        ensures
            r == self.uknots_s()[idx as int],
    {
        self.knot_vecs.0.knot(idx)
    }

    /// The `idx`-th v knot.
    pub fn vknot(&self, idx: usize) -> (r: u64)
        requires
            idx < self.vknots_s().len(),
        ensures
            r == self.vknots_s()[idx as int],
    {
        self.knot_vecs.1.knot(idx)
    }

    /// A reference to the control net.
    pub fn control_points(&self) -> (r: &Vec<Vec<Vec<u64>>>)
        ensures
            net3_of(*r) == self.net_s(),
            r@.len() == self.rows_s(),
    {
        &self.control_points
    }

    /// A reference to the control point at `(idx0, idx1)`.
    pub fn control_point(&self, idx0: usize, idx1: usize) -> (r: &Vec<u64>)
        requires
            idx0 < self.rows_s(),
            idx1 < self.net_s()[idx0 as int].len(),
        ensures
            r@ == self.net_s()[idx0 as int][idx1 as int],
    {
        proof {
            assert(self.net_s()[idx0 as int] == net_of(self.control_points@[idx0 as int]));
            assert(self.net_s()[idx0 as int][idx1 as int]
                == self.control_points@[idx0 as int]@[idx1 as int]@);
        }
        &self.control_points[idx0][idx1]
    }

    /// Overwrites the control point at `(idx0, idx1)`.
    pub fn set_control_point(&mut self, idx0: usize, idx1: usize, pt: Vec<u64>)
        requires
            old(self).wf(),
            idx0 < old(self).rows_s(),
            idx1 < old(self).cols_s(),
            pt@.len() == old(self).dim_s(),
        ensures
            final(self).net_s() == old(self).net_s().update(
                idx0 as int,
                old(self).net_s()[idx0 as int].update(idx1 as int, pt@),
            ),
            final(self).uknots_s() == old(self).uknots_s(),
            final(self).vknots_s() == old(self).vknots_s(),
            final(self).wf(),
            final(self).dim_s() == old(self).dim_s(),
            final(self).rows_s() == old(self).rows_s(),
            final(self).cols_s() == old(self).cols_s(),
    {
        proof {
            assert(old(self).net_s()[idx0 as int] == net_of(self.control_points@[idx0 as int]));
        }
        let mut row = self.control_points.remove(idx0);
        row.set(idx1, pt);
        self.control_points.insert(idx0, row);
        proof {
            let o = old(self).net_s();
            let t = o.update(idx0 as int, o[idx0 as int].update(idx1 as int, pt@));
            assert forall|i: int| 0 <= i < self.net_s().len() implies #[trigger] self.net_s()[i]
                == t[i] by {
                assert(self.net_s()[i] == net_of(self.control_points@[i]));
                if i == idx0 {
                    assert forall|j: int| 0 <= j < self.net_s()[i].len() implies
                        #[trigger] self.net_s()[i][j] == t[i][j] by {
                        assert(self.net_s()[i][j] == self.control_points@[i]@[j]@);
                    }
                    assert(self.net_s()[i] =~= t[i]);
                } else {
                    assert(self.control_points@[i] == old(self).control_points@[i]);
                    assert(o[i] == net_of(old(self).control_points@[i]));
                }
            }
            assert(self.net_s() =~= t);
            assert forall|i: int| 0 <= i < self.net_s().len() implies (
            #[trigger] self.net_s()[i]).len() == old(self).cols_s() by {}
            assert forall|i: int, j: int| 0 <= i < self.net_s().len() && 0 <= j < old(
                self,
            ).cols_s() implies (#[trigger] self.net_s()[i][j]).len() == old(self).dim_s() by {
                assert(o[i].len() == old(self).cols_s());
            }
        }
    }

    /// The number of control rows.
    pub fn rows(&self) -> (r: usize)
        ensures
            r == self.rows_s(),
    {
        self.control_points.len()
    }

    /// The number of control columns.
    pub fn cols(&self) -> (r: usize)
        requires
            self.rows_s() >= 1,
        ensures
            r == self.cols_s(),
    {
        proof {
            assert(self.net_s()[0] == net_of(self.control_points@[0]));
        }
        self.control_points[0].len()
    }

    /// The common dimension of the control points.
    pub fn dim(&self) -> (r: usize)
        requires
            self.rows_s() >= 1,
            self.net_s()[0].len() >= 1,
        ensures
            r == self.dim_s(),
    {
        proof {
            assert(self.net_s()[0] == net_of(self.control_points@[0]));
            assert(self.net_s()[0][0] == self.control_points@[0]@[0]@);
        }
        self.control_points[0][0].len()
    }

    /// The degree along u.
    pub fn udegree(&self) -> (r: usize)
        requires
            self.wf(),
        ensures
            r == self.udegree_s(),
    {
        self.knot_vecs.0.len() - self.control_points.len() - 1
    }

    /// The degree along v.
    pub fn vdegree(&self) -> (r: usize)
        requires
            self.wf(),
        ensures
            r == self.vdegree_s(),
    {
        let c = self.cols();
        self.knot_vecs.1.len() - c - 1
    }

    /// Both degrees.
    pub fn degrees(&self) -> (r: (usize, usize))
        requires
            self.wf(),
        ensures
            r.0 == self.udegree_s(),
            r.1 == self.vdegree_s(),
    {
        (self.udegree(), self.vdegree())
    }

    /// An owned copy of the surface.
    pub fn duplicate(&self) -> (r: BSplineSurface)
        ensures
            r.uknots_s() == self.uknots_s(),
            r.vknots_s() == self.vknots_s(),
            r.net_s() == self.net_s(),
    {
        let n = self.control_points.len();
        let mut net: Vec<Vec<Vec<u64>>> = Vec::new();
        let mut i: usize = 0;
        #[verifier::loop_isolation(false)]
        while i < n
            invariant
                i <= n,
                net@.len() == i,
                forall|j: int| 0 <= j < i ==> #[trigger] net_of(net@[j]) == net_of(
                    self.control_points@[j],
                ),
            decreases n - i,
        {
            net.push(vector::copy_net(&self.control_points[i]));
            i = i + 1;
        }
        proof {
            assert forall|j: int| 0 <= j < net3_of(net).len() implies #[trigger] net3_of(net)[j]
                == self.net_s()[j] by {
                assert(net3_of(net)[j] == net_of(net@[j]));
                assert(self.net_s()[j] == net_of(self.control_points@[j]));
            }
            assert(net3_of(net) =~= self.net_s());
        }
        BSplineSurface {
            knot_vecs: (self.knot_vecs.0.duplicate(), self.knot_vecs.1.duplicate()),
            control_points: net,
        }
    }

    /// Whether both knot vectors are clamped for their degrees.
    pub fn is_clamped(&self) -> (r: bool)
        requires
            self.wf(),
        ensures
            r == (clamped_s(self.uknots_s(), self.udegree_s() as nat) && clamped_s(
                self.vknots_s(),
                self.vdegree_s() as nat,
            )),
    {
        let ku = self.udegree();
        let kv = self.vdegree();
        self.knot_vecs.0.is_clamped(ku) && self.knot_vecs.1.is_clamped(kv)
    }

    /// Evaluates the surface at `(u, v)`: the double weighted sum of the
    /// control net against the two basis value arrays.
    pub open spec fn subs_at(&self, u: u64, v: u64) -> Seq<u64> {
        surf_sum_s(
            self.net_s(),
            basis_s(self.uknots_s(), self.udegree_s() as nat, u),
            basis_s(self.vknots_s(), self.vdegree_s() as nat, v),
            self.dim_s(),
            self.cols_s() as int,
            self.rows_s() as int,
            0,
        )
    }

    /// Evaluates the surface at the parameters `(u, v)`.
    #[verifier::rlimit(100)]
    #[verifier::spinoff_prover]
    #[verifier::loop_isolation(false)]
    pub fn subs(&self, u: u64, v: u64) -> (r: Vec<u64>)
        requires
            self.wf(),
        ensures
            r@ == self.subs_at(u, v),
            r@.len() == self.dim_s(),
    {
        let ku = self.udegree();
        let kv = self.vdegree();
        let b0 = self.knot_vecs.0.bspline_basis_functions(ku, u);
        let b1 = self.knot_vecs.1.bspline_basis_functions(kv, v);
        let rows = self.control_points.len();
        let cols = self.cols();
        let dim = self.dim();
        let ghost bs0 = basis_s(self.uknots_s(), self.udegree_s() as nat, u);
        let ghost bs1 = basis_s(self.vknots_s(), self.vdegree_s() as nat, v);
        let mut res = vector::vzero(dim);
        let mut i: usize = 0;
        while i < rows
            invariant
                i <= rows,
                res@ == surf_sum_s(
                    self.net_s(),
                    bs0,
                    bs1,
                    self.dim_s(),
                    self.cols_s() as int,
                    i as int,
                    0,
                ),
                res@.len() == self.dim_s(),
            decreases rows - i,
        {
            let mut j: usize = 0;
            while j < cols
                invariant
                    j <= cols,
                    i < rows,
                    res@ == surf_sum_s(
                        self.net_s(),
                        bs0,
                        bs1,
                        self.dim_s(),
                        self.cols_s() as int,
                        i as int,
                        j as int,
                    ),
                    res@.len() == self.dim_s(),
                decreases cols - j,
            {
                proof {
                    assert(self.net_s()[i as int] == net_of(self.control_points@[i as int]));
                    assert(self.net_s()[i as int][j as int]
                        == self.control_points@[i as int]@[j as int]@);
                    assert(self.net_s()[i as int][j as int].len() == self.dim_s());
                }
                let w = scalar::fmul(b0[i], b1[j]);
                let term = vector::smul(w, &self.control_points[i][j]);
                res = vector::vadd(&res, &term);
                j = j + 1;
            }
            proof {
                assert(surf_sum_s(
                    self.net_s(),
                    bs0,
                    bs1,
                    self.dim_s(),
                    self.cols_s() as int,
                    i as int + 1,
                    0,
                ) == surf_sum_s(
                    self.net_s(),
                    bs0,
                    bs1,
                    self.dim_s(),
                    self.cols_s() as int,
                    i as int,
                    self.cols_s() as int,
                ));
            }
            i = i + 1;
        }
        res
    }

    /// Builds the surface of the first derivative along `u`.  The u
    /// degree drops by one; a u degree of zero yields the zero net of
    /// the same shape.
    #[verifier::rlimit(100)]
    #[verifier::spinoff_prover]
    #[verifier::loop_isolation(false)]
    pub fn uderivation(&self) -> (r: BSplineSurface)
        requires
            self.wf(),
        ensures
            r.uknots_s() == self.uknots_s(),
            r.vknots_s() == self.vknots_s(),
            r.wf(),
            r.dim_s() == self.dim_s(),
            r.cols_s() == self.cols_s(),
            self.udegree_s() > 0 ==> r.net_s() == Seq::new(
                (self.rows_s() + 1) as nat,
                |i: int| uderiv_row_s(self.net_s(), self.uknots_s(), self.udegree_s(), i),
            ),
            self.udegree_s() == 0 ==> r.net_s() == zero_net_s(
                self.rows_s(),
                self.cols_s(),
                self.dim_s(),
            ),
    {
        let k = self.udegree();
        let n0 = self.control_points.len();
        let cols = self.cols();
        let dim = self.dim();
        let klen = self.knot_vecs.0.len();
        let mut new_points: Vec<Vec<Vec<u64>>> = Vec::new();
        if k > 0 {
            let kf = scalar::from_int(k);
            let mut i: usize = 0;
            while i <= n0
                invariant
                    i <= n0 + 1,
                    new_points@.len() == i,
                    forall|j: int| 0 <= j < i ==> #[trigger] net_of(new_points@[j])
                        == uderiv_row_s(self.net_s(), self.uknots_s(), self.udegree_s(), j),
                    forall|j: int| 0 <= j < i ==> new_points@[j]@.len() == self.cols_s(),
                decreases n0 + 1 - i,
            {
                proof {
                    assert(klen == n0 + k + 1);
                    assert(self.net_s()[0] == net_of(self.control_points@[0]));
                    assert(self.net_s()[n0 - 1] == net_of(self.control_points@[n0 - 1]));
                    if 0 < i < n0 {
                        assert(self.net_s()[i as int] == net_of(self.control_points@[i as int]));
                        assert(self.net_s()[i - 1] == net_of(self.control_points@[i - 1]));
                    }
                }
                let delta = scalar::fsub(self.knot_vecs.0.knot(i + k), self.knot_vecs.0.knot(i));
                let coef = scalar::fmul(kf, tolerance::inv_or_zero(delta));
                let drow: Vec<Vec<u64>> = if i == 0 {
                    vector::copy_net(&self.control_points[0])
                } else if i == n0 {
                    vector::rneg(&self.control_points[n0 - 1])
                } else {
                    proof {
                        assert forall|q: int| 0 <= q < self.control_points@[i as int]@.len()
                            implies (#[trigger] self.control_points@[i as int]@[q]@).len()
                            == self.control_points@[i - 1]@[q]@.len() by {
                            assert(self.net_s()[i as int][q]
                                == self.control_points@[i as int]@[q]@);
                            assert(self.net_s()[i - 1][q] == self.control_points@[i - 1]@[q]@);
                        }
                    }
                    vector::rsub(&self.control_points[i], &self.control_points[i - 1])
                };
                proof {
                    assert(net_of(drow) == rdelta_s(self.net_s(), i as int));
                }
                let nrow = vector::rsmul(coef, &drow);
                new_points.push(nrow);
                i = i + 1;
            }
            proof {
                let target = Seq::new(
                    (self.rows_s() + 1) as nat,
                    |i: int| uderiv_row_s(self.net_s(), self.uknots_s(), self.udegree_s(), i),
                );
                assert forall|j: int| 0 <= j < net3_of(new_points).len() implies
                    #[trigger] net3_of(new_points)[j] == target[j] by {
                    assert(net3_of(new_points)[j] == net_of(new_points@[j]));
                }
                assert(net3_of(new_points) =~= target);
            }
        } else {
            let mut i: usize = 0;
            while i < n0
                invariant
                    i <= n0,
                    new_points@.len() == i,
                    forall|j: int| 0 <= j < i ==> #[trigger] net_of(new_points@[j]) == Seq::new(
                        self.cols_s(),
                        |q: int| zero_pt(self.dim_s()),
                    ),
                decreases n0 - i,
            {
                let mut row: Vec<Vec<u64>> = Vec::new();
                let mut j: usize = 0;
                while j < cols
                    invariant
                        j <= cols,
                        row@.len() == j,
                        forall|q: int| 0 <= q < j ==> #[trigger] row@[q]@ == zero_pt(
                            self.dim_s(),
                        ),
                    decreases cols - j,
                {
                    row.push(vector::vzero(dim));
                    j = j + 1;
                }
                proof {
                    assert(net_of(row) =~= Seq::new(self.cols_s(), |q: int| zero_pt(
                        self.dim_s(),
                    )));
                }
                new_points.push(row);
                i = i + 1;
            }
            proof {
                assert forall|j: int| 0 <= j < net3_of(new_points).len() implies
                    #[trigger] net3_of(new_points)[j] == zero_net_s(
                    self.rows_s(),
                    self.cols_s(),
                    self.dim_s(),
                )[j] by {
                    assert(net3_of(new_points)[j] == net_of(new_points@[j]));
                }
                assert(net3_of(new_points) =~= zero_net_s(
                    self.rows_s(),
                    self.cols_s(),
                    self.dim_s(),
                ));
            }
        }
        BSplineSurface {
            knot_vecs: (self.knot_vecs.0.duplicate(), self.knot_vecs.1.duplicate()),
            control_points: new_points,
        }
    }

    /// Builds the surface of the first derivative along `v`: each row is
    /// derived as a curve over the v knot vector.  The v degree drops by
    /// one; a v degree of zero yields the zero net of the same shape.
    #[verifier::rlimit(100)]
    #[verifier::spinoff_prover]
    #[verifier::loop_isolation(false)]
    pub fn vderivation(&self) -> (r: BSplineSurface)
        requires
            self.wf(),
        ensures
            r.uknots_s() == self.uknots_s(),
            r.vknots_s() == self.vknots_s(),
            r.wf(),
            r.dim_s() == self.dim_s(),
            r.rows_s() == self.rows_s(),
            self.vdegree_s() > 0 ==> r.net_s() == Seq::new(
                self.rows_s(),
                |i: int| deriv_pts_s(self.net_s()[i], self.vknots_s(), self.vdegree_s()),
            ),
            self.vdegree_s() == 0 ==> r.net_s() == zero_net_s(
                self.rows_s(),
                self.cols_s(),
                self.dim_s(),
            ),
    {
        let k = self.vdegree();
        let n0 = self.control_points.len();
        let cols = self.cols();
        let dim = self.dim();
        let klen = self.knot_vecs.1.len();
        let kf = scalar::from_int(k);
        let mut new_points: Vec<Vec<Vec<u64>>> = Vec::new();
        if k > 0 {
            let mut i: usize = 0;
            while i < n0
                invariant
                    i <= n0,
                    new_points@.len() == i,
                    forall|p: int| 0 <= p < i ==> #[trigger] net_of(new_points@[p])
                        == deriv_pts_s(self.net_s()[p], self.vknots_s(), self.vdegree_s()),
                decreases n0 - i,
            {
                proof {
                    assert(self.net_s()[i as int] == net_of(self.control_points@[i as int]));
                }
                let mut row: Vec<Vec<u64>> = Vec::new();
                let mut j: usize = 0;
                while j <= cols
                    invariant
                        j <= cols + 1,
                        i < n0,
                        klen == cols + k + 1,
                        row@.len() == j,
                        forall|q: int| 0 <= q < j ==> #[trigger] row@[q]@ == deriv_pts_s(
                            self.net_s()[i as int],
                            self.vknots_s(),
                            self.vdegree_s(),
                        )[q],
                    decreases cols + 1 - j,
                {
                    proof {
                        assert(self.net_s()[i as int] == net_of(self.control_points@[i as int]));
                        assert(self.net_s()[i as int][0]
                            == self.control_points@[i as int]@[0]@);
                        assert(self.net_s()[i as int][cols - 1]
                            == self.control_points@[i as int]@[cols - 1]@);
                        if 0 < j < cols {
                            assert(self.net_s()[i as int][j as int]
                                == self.control_points@[i as int]@[j as int]@);
                            assert(self.net_s()[i as int][j - 1]
                                == self.control_points@[i as int]@[j - 1]@);
                        }
                    }
                    let delta = scalar::fsub(
                        self.knot_vecs.1.knot(j + k),
                        self.knot_vecs.1.knot(j),
                    );
                    let coef = scalar::fmul(kf, tolerance::inv_or_zero(delta));
                    let dpt: Vec<u64> = if j == 0 {
                        vector::copy_pt(&self.control_points[i][0])
                    } else if j == cols {
                        vector::vneg(&self.control_points[i][cols - 1])
                    } else {
                        vector::vsub(
                            &self.control_points[i][j],
                            &self.control_points[i][j - 1],
                        )
                    };
                    proof {
                        assert(dpt@ == delta_s(self.net_s()[i as int], j as int));
                    }
                    row.push(vector::smul(coef, &dpt));
                    j = j + 1;
                }
                proof {
                    assert(net_of(row) =~= deriv_pts_s(
                        self.net_s()[i as int],
                        self.vknots_s(),
                        self.vdegree_s(),
                    ));
                }
                new_points.push(row);
                i = i + 1;
            }
            proof {
                let target = Seq::new(
                    self.rows_s(),
                    |i: int| deriv_pts_s(self.net_s()[i], self.vknots_s(), self.vdegree_s()),
                );
                assert forall|j: int| 0 <= j < net3_of(new_points).len() implies
                    #[trigger] net3_of(new_points)[j] == target[j] by {
                    assert(net3_of(new_points)[j] == net_of(new_points@[j]));
                }
                assert(net3_of(new_points) =~= target);
            }
        } else {
            let mut i: usize = 0;
            while i < n0
                invariant
                    i <= n0,
                    new_points@.len() == i,
                    forall|j: int| 0 <= j < i ==> #[trigger] net_of(new_points@[j]) == Seq::new(
                        self.cols_s(),
                        |q: int| zero_pt(self.dim_s()),
                    ),
                decreases n0 - i,
            {
                let mut row: Vec<Vec<u64>> = Vec::new();
                let mut j: usize = 0;
                while j < cols
                    invariant
                        j <= cols,
                        row@.len() == j,
                        forall|q: int| 0 <= q < j ==> #[trigger] row@[q]@ == zero_pt(
                            self.dim_s(),
                        ),
                    decreases cols - j,
                {
                    row.push(vector::vzero(dim));
                    j = j + 1;
                }
                proof {
                    assert(net_of(row) =~= Seq::new(self.cols_s(), |q: int| zero_pt(
                        self.dim_s(),
                    )));
                }
                new_points.push(row);
                i = i + 1;
            }
            proof {
                assert forall|j: int| 0 <= j < net3_of(new_points).len() implies
                    #[trigger] net3_of(new_points)[j] == zero_net_s(
                    self.rows_s(),
                    self.cols_s(),
                    self.dim_s(),
                )[j] by {
                    assert(net3_of(new_points)[j] == net_of(new_points@[j]));
                }
                assert(net3_of(new_points) =~= zero_net_s(
                    self.rows_s(),
                    self.cols_s(),
                    self.dim_s(),
                ));
            }
        }
        BSplineSurface {
            knot_vecs: (self.knot_vecs.0.duplicate(), self.knot_vecs.1.duplicate()),
            control_points: new_points,
        }
    }

    /// Swaps the two parameters: exchanges the knot vectors and
    /// transposes the control net.
    #[verifier::rlimit(100)]
    #[verifier::spinoff_prover]
    #[verifier::loop_isolation(false)]
    pub fn swap_axes(&mut self)
        requires
            old(self).wf(),
        ensures
            final(self).uknots_s() == old(self).vknots_s(),
            final(self).vknots_s() == old(self).uknots_s(),
            final(self).net_s() == transpose_s(old(self).net_s(), old(self).cols_s()),
            final(self).wf(),
            final(self).dim_s() == old(self).dim_s(),
            final(self).rows_s() == old(self).cols_s(),
            final(self).cols_s() == old(self).rows_s(),
    {
        let rows = self.control_points.len();
        let cols = self.cols();
        let mut newnet: Vec<Vec<Vec<u64>>> = Vec::new();
        let mut j: usize = 0;
        while j < cols
            invariant
                j <= cols,
                newnet@.len() == j,
                forall|q: int| 0 <= q < j ==> #[trigger] net_of(newnet@[q]) == transpose_s(
                    self.net_s(),
                    self.cols_s(),
                )[q],
                self == old(self),
            decreases cols - j,
        {
            let mut col: Vec<Vec<u64>> = Vec::new();
            let mut i: usize = 0;
            while i < rows
                invariant
                    i <= rows,
                    j < cols,
                    col@.len() == i,
                    forall|p: int| 0 <= p < i ==> #[trigger] col@[p]@ == self.net_s()[p][
                    j as int],
                    self == old(self),
                decreases rows - i,
            {
                proof {
                    assert(self.net_s()[i as int] == net_of(self.control_points@[i as int]));
                    assert(self.net_s()[i as int][j as int]
                        == self.control_points@[i as int]@[j as int]@);
                }
                col.push(vector::copy_pt(&self.control_points[i][j]));
                i = i + 1;
            }
            proof {
                assert(net_of(col) =~= transpose_s(self.net_s(), self.cols_s())[j as int]);
            }
            newnet.push(col);
            j = j + 1;
        }
        let kv0 = self.knot_vecs.1.duplicate();
        let kv1 = self.knot_vecs.0.duplicate();
        self.knot_vecs = (kv0, kv1);
        self.control_points = newnet;
        proof {
            let t = transpose_s(old(self).net_s(), old(self).cols_s());
            assert forall|q: int| 0 <= q < self.net_s().len() implies #[trigger] self.net_s()[q]
                == t[q] by {
                assert(self.net_s()[q] == net_of(self.control_points@[q]));
            }
            assert(self.net_s() =~= t);
            assert forall|i: int, j2: int| 0 <= i < self.net_s().len() && 0 <= j2 < old(
                self,
            ).rows_s() implies (#[trigger] self.net_s()[i][j2]).len() == old(self).dim_s() by {
                assert(t[i][j2] == old(self).net_s()[j2][i]);
            }
        }
    }
}

/// One in-place row-level Boehm update: control row `i0` becomes
/// `P[i0] - (1 - a) * (P[i0] - P[i0 - 1])`, point by point.
pub open spec fn rboehm_step(
    net: Seq<Seq<Seq<u64>>>,
    kn: Seq<u64>,
    idx: int,
    k: int,
    i0: int,
) -> Seq<Seq<Seq<u64>>> {
    net.update(
        i0,
        rsub_s(
            net[i0],
            rsmul_s(sub_bits(ONE_BITS, boehm_a(kn, idx, k, i0)), rdelta_s(net, i0)),
        ),
    )
}

/// `c` row-level Boehm updates walking the window downwards.
pub open spec fn rboehm_iter(
    net: Seq<Seq<Seq<u64>>>,
    kn: Seq<u64>,
    idx: int,
    k: int,
    end: int,
    c: nat,
) -> Seq<Seq<Seq<u64>>>
    decreases c,
{
    if c == 0 {
        net
    } else {
        rboehm_step(rboehm_iter(net, kn, idx, k, end, (c - 1) as nat), kn, idx, k, end - c)
    }
}

/// The row-level Boehm iteration preserves the shape of the net and
/// touches only the window rows.
pub proof fn lemma_rboehm_iter_shape(
    net: Seq<Seq<Seq<u64>>>,
    kn: Seq<u64>,
    idx: int,
    k: int,
    end: int,
    c: nat,
    cols: nat,
    dim: nat,
)
    requires
        rect_s(net, cols, dim),
        c <= end <= net.len(),
    ensures
        rboehm_iter(net, kn, idx, k, end, c).len() == net.len(),
        rect_s(rboehm_iter(net, kn, idx, k, end, c), cols, dim),
        forall|j: int| 0 <= j < net.len() && !(end - c <= j < end)
            ==> #[trigger] rboehm_iter(net, kn, idx, k, end, c)[j] == net[j],
    decreases c,
{
    if c > 0 {
        lemma_rboehm_iter_shape(net, kn, idx, k, end, (c - 1) as nat, cols, dim);
        let prev = rboehm_iter(net, kn, idx, k, end, (c - 1) as nat);
        let cur = rboehm_iter(net, kn, idx, k, end, c);
        assert(cur == rboehm_step(prev, kn, idx, k, end - c));
        assert(prev[end - c].len() == cols);
        assert(cur[end - c].len() == cols);
        assert forall|i: int, j: int| 0 <= i < cur.len() && 0 <= j < cols implies (
        #[trigger] cur[i][j]).len() == dim by {
            if i == end - c {
                assert(cur[i] == rsub_s(
                    prev[i],
                    rsmul_s(sub_bits(ONE_BITS, boehm_a(kn, idx, k, i)), rdelta_s(prev, i)),
                ));
                assert(prev[i][j].len() == dim);
            }
        }
    }
}

/// The full row-level control transformation of a Boehm insertion along
/// the first parameter.
pub open spec fn rboehm_insert_s(
    net: Seq<Seq<Seq<u64>>>,
    kn_new: Seq<u64>,
    idx: int,
    k: int,
    cols: nat,
    dim: nat,
) -> Seq<Seq<Seq<u64>>> {
    let n = net.len() as int;
    let zrow = Seq::new(cols, |j: int| zero_pt(dim));
    if idx == 0 {
        seq![zrow] + net
    } else {
        let base = if idx > n {
            net.push(zrow)
        } else {
            net.insert(idx - 1, net[idx - 1])
        };
        let end = if idx > n {
            n + 1
        } else {
            idx
        };
        let start = if idx > k {
            idx - k
        } else {
            0
        };
        rboehm_iter(base, kn_new, idx, k, end, (end - start) as nat)
    }
}

impl BSplineSurface {
    /// Boehm knot insertion along the first parameter `u`: the knot is
    /// inserted at its sorted position and the control rows of the
    /// affected window are recombined, so that the surface is unchanged
    /// pointwise; when the new knot lies in front of the range a zero
    /// row is prepended, and when the insertion index exceeds the
    /// control extent a zero row is appended.  Returns the insertion
    /// index.
    #[verifier::rlimit(100)]
    #[verifier::spinoff_prover]
    #[verifier::loop_isolation(false)]
    pub fn add_uknot(&mut self, x: u64) -> (r: usize)
        requires
            old(self).wf(),
            !is_nan_bits(x),
        ensures
            r == ins_idx(old(self).uknots_s(), x),
            final(self).uknots_s() == old(self).uknots_s().insert(r as int, x),
            final(self).vknots_s() == old(self).vknots_s(),
            final(self).net_s() == rboehm_insert_s(
                old(self).net_s(),
                final(self).uknots_s(),
                r as int,
                old(self).udegree_s(),
                old(self).cols_s(),
                old(self).dim_s(),
            ),
            final(self).wf(),
            final(self).dim_s() == old(self).dim_s(),
            final(self).cols_s() == old(self).cols_s(),
            final(self).udegree_s() == old(self).udegree_s(),
            final(self).vdegree_s() == old(self).vdegree_s(),
    {
        let k = self.udegree();
        let n = self.control_points.len();
        let cols = self.cols();
        let dim = self.dim();
        let ghost onet = self.net_s();

        let idx = self.knot_vecs.0.add_knot(x);
        let ghost knew = self.uknots_s();
        let ghost zrow = Seq::new(old(self).cols_s(), |j: int| zero_pt(old(self).dim_s()));

        if idx == 0 {
            let zr = zero_row(cols, dim);
            self.control_points.insert(0, zr);
            proof {
                assert forall|j: int| 0 <= j < self.net_s().len() implies #[trigger] self.net_s()[
                j] == (seq![zrow] + onet)[j] by {
                    assert(self.net_s()[j] == net_of(self.control_points@[j]));
                    if j > 0 {
                        assert(self.control_points@[j] == old(self).control_points@[j - 1]);
                        assert(onet[j - 1] == net_of(old(self).control_points@[j - 1]));
                    }
                }
                assert(self.net_s() =~= seq![zrow] + onet);
                assert forall|i: int, j: int| 0 <= i < self.net_s().len() && 0 <= j < old(
                    self,
                ).cols_s() implies (#[trigger] self.net_s()[i][j]).len() == old(self).dim_s() by {
                    if i > 0 {
                        assert(onet[i - 1].len() == old(self).cols_s());
                    }
                }
            }
            return 0;
        }

        // Extend the control net by one row.
        let end: usize = if idx > n {
            let zr = zero_row(cols, dim);
            self.control_points.push(zr);
            n + 1
        } else {
            proof {
                assert(self.net_s()[idx - 1] == net_of(self.control_points@[idx - 1]));
            }
            let dup = vector::copy_net(&self.control_points[idx - 1]);
            self.control_points.insert(idx - 1, dup);
            idx
        };
        let start: usize = if idx > k {
            idx - k
        } else {
            0
        };
        let ghost base = self.net_s();
        proof {
            if idx > n {
                assert forall|j: int| 0 <= j < base.len() implies #[trigger] base[j] == onet.push(
                    zrow,
                )[j] by {
                    assert(base[j] == net_of(self.control_points@[j]));
                    if j < onet.len() {
                        assert(onet[j] == net_of(old(self).control_points@[j]));
                    }
                }
                assert(base =~= onet.push(zrow));
            } else {
                assert forall|j: int| 0 <= j < base.len() implies #[trigger] base[j] == onet.insert(
                    idx - 1,
                    onet[idx - 1],
                )[j] by {
                    assert(base[j] == net_of(self.control_points@[j]));
                    onet.insert_ensures(idx - 1, onet[idx - 1]);
                    if j < idx - 1 {
                        assert(onet[j] == net_of(old(self).control_points@[j]));
                    } else if j == idx - 1 || j == idx {
                        assert(onet[idx - 1] == net_of(old(self).control_points@[idx - 1]));
                    } else {
                        assert(onet[j - 1] == net_of(old(self).control_points@[j - 1]));
                    }
                }
                assert(base =~= onet.insert(idx - 1, onet[idx - 1]));
            }
            assert(rect_s(base, old(self).cols_s(), old(self).dim_s()));
            knot_vec::lemma_ins_idx_char(old(self).uknots_s(), x);
            assert(start <= end <= base.len());
        }

        // Recombine the window rows, walking downwards.
        rboehm_window(&mut self.control_points, &self.knot_vecs.0, idx, k, start, end, cols, dim);
        idx
    }

    /// Boehm knot insertion along the second parameter `v`: the same
    /// update law applied within every control row.  Returns the
    /// insertion index.
    #[verifier::rlimit(100)]
    #[verifier::spinoff_prover]
    #[verifier::loop_isolation(false)]
    pub fn add_vknot(&mut self, x: u64) -> (r: usize)
        requires
            old(self).wf(),
            !is_nan_bits(x),
        ensures
            r == ins_idx(old(self).vknots_s(), x),
            final(self).vknots_s() == old(self).vknots_s().insert(r as int, x),
            final(self).uknots_s() == old(self).uknots_s(),
            final(self).net_s() == Seq::new(
                old(self).rows_s(),
                |i: int| boehm_insert_s(
                    old(self).net_s()[i],
                    final(self).vknots_s(),
                    r as int,
                    old(self).vdegree_s(),
                    old(self).dim_s(),
                ),
            ),
            final(self).wf(),
            final(self).dim_s() == old(self).dim_s(),
            final(self).rows_s() == old(self).rows_s(),
            final(self).cols_s() == old(self).cols_s() + 1,
            final(self).udegree_s() == old(self).udegree_s(),
            final(self).vdegree_s() == old(self).vdegree_s(),
    {
        let k = self.vdegree();
        let rows = self.control_points.len();
        let dim = self.dim();
        let ghost onet = self.net_s();

        let idx = self.knot_vecs.1.add_knot(x);
        let ghost knew = self.vknots_s();
        let ghost target = Seq::new(
            old(self).rows_s(),
            |i: int| boehm_insert_s(
                old(self).net_s()[i],
                knew,
                idx as int,
                old(self).vdegree_s(),
                old(self).dim_s(),
            ),
        );

        proof {
            knot_vec::lemma_ins_idx_char(old(self).vknots_s(), x);
        }
        let mut i: usize = 0;
        while i < rows
            invariant
                i <= rows,
                rows == self.control_points@.len(),
                idx < knew.len(),
                self.uknots_s() == old(self).uknots_s(),
                self.vknots_s() == knew,
                forall|j: int| 0 <= j < i ==> #[trigger] net_of(self.control_points@[j])
                    == target[j],
                forall|j: int| i <= j < rows ==> #[trigger] self.control_points@[j] == old(
                    self,
                ).control_points@[j],
            decreases rows - i,
        {
            proof {
                assert(onet[i as int] == net_of(old(self).control_points@[i as int]));
                assert(rect_s(onet, old(self).cols_s(), old(self).dim_s()));
                assert(uniform_s(net_of(self.control_points@[i as int]), old(self).dim_s()));
            }
            let mut row = self.control_points.remove(i);
            apply_boehm(&mut row, &self.knot_vecs.1, idx, k, dim);
            self.control_points.insert(i, row);
            proof {
                assert forall|j: int| 0 <= j < i + 1 implies #[trigger] net_of(
                    self.control_points@[j],
                ) == target[j] by {}
                assert forall|j: int| i + 1 <= j < rows implies #[trigger] self.control_points@[j]
                    == old(self).control_points@[j] by {}
            }
            i = i + 1;
        }
        proof {
            assert forall|j: int| 0 <= j < self.net_s().len() implies #[trigger] self.net_s()[j]
                == target[j] by {
                assert(self.net_s()[j] == net_of(self.control_points@[j]));
            }
            assert(self.net_s() =~= target);
            assert forall|p: int| 0 <= p < self.net_s().len() implies (
            #[trigger] self.net_s()[p]).len() == old(self).cols_s() + 1 by {
                assert(self.net_s()[p] == target[p]);
                assert(rect_s(onet, old(self).cols_s(), old(self).dim_s()));
                bspcurve::lemma_boehm_insert_shape(
                    onet[p],
                    knew,
                    idx as int,
                    old(self).vdegree_s(),
                    old(self).dim_s(),
                );
            }
            assert forall|p: int, q: int| 0 <= p < self.net_s().len() && 0 <= q < old(
                self,
            ).cols_s() + 1 implies (#[trigger] self.net_s()[p][q]).len() == old(self).dim_s() by {
                assert(self.net_s()[p] == target[p]);
                bspcurve::lemma_boehm_insert_shape(
                    onet[p],
                    knew,
                    idx as int,
                    old(self).vdegree_s(),
                    old(self).dim_s(),
                );
            }
        }
        idx
    }
}

/// Builds a row of `cols` zero points of dimension `dim`.
fn zero_row(cols: usize, dim: usize) -> (r: Vec<Vec<u64>>)
    ensures
        net_of(r) == Seq::new(cols as nat, |j: int| zero_pt(dim as nat)),
        r@.len() == cols,
{
    let mut r: Vec<Vec<u64>> = Vec::new();
    let mut j: usize = 0;
    #[verifier::loop_isolation(false)]
    while j < cols
        invariant
            j <= cols,
            r@.len() == j,
            forall|q: int| 0 <= q < j ==> #[trigger] r@[q]@ == zero_pt(dim as nat),
        decreases cols - j,
    {
        r.push(vector::vzero(dim));
        j = j + 1;
    }
    proof {
        assert forall|q: int| 0 <= q < net_of(r).len() implies #[trigger] net_of(r)[q] == Seq::new(
            cols as nat,
            |j2: int| zero_pt(dim as nat),
        )[q] by {
            assert(net_of(r)[q] == r@[q]@);
        }
        assert(net_of(r) =~= Seq::new(cols as nat, |j2: int| zero_pt(dim as nat)));
    }
    r
}

/// Applies the descending row-level Boehm window updates to the control
/// rows `start .. end` for a u insertion at knot index `idx` over the
/// already extended u knot vector.
#[verifier::rlimit(100)]
#[verifier::spinoff_prover]
#[verifier::loop_isolation(false)]
fn rboehm_window(
    net: &mut Vec<Vec<Vec<u64>>>,
    kv: &KnotVec,
    idx: usize,
    k: usize,
    start: usize,
    end: usize,
    cols: usize,
    dim: usize,
)
    requires
        rect_s(net3_of(*old(net)), cols as nat, dim as nat),
        start <= end <= old(net)@.len(),
        end + k + 1 <= kv@.len(),
        idx < kv@.len(),
    ensures
        net3_of(*final(net)) == rboehm_iter(
            net3_of(*old(net)),
            kv@,
            idx as int,
            k as int,
            end as int,
            (end - start) as nat,
        ),
        final(net)@.len() == old(net)@.len(),
        rect_s(net3_of(*final(net)), cols as nat, dim as nat),
{
    let ghost base = net3_of(*net);
    let ghost knew = kv@;
    let kvlen = kv.len();
    let mut cnt: usize = 0;
    while cnt < end - start
        invariant
            0 <= cnt <= end - start,
            net@.len() == base.len(),
            net3_of(*net) == rboehm_iter(base, knew, idx as int, k as int, end as int, cnt as nat),
            rect_s(net3_of(*net), cols as nat, dim as nat),
        decreases end - start - cnt,
    {
        let i0 = end - 1 - cnt;
        proof {
            assert(i0 + k + 1 < kvlen);
            lemma_rboehm_iter_shape(base, knew, idx as int, k as int, end as int, cnt as nat,
                cols as nat, dim as nat);
            assert(net3_of(*net)[i0 as int] == net_of(net@[i0 as int]));
            if i0 > 0 {
                assert(net3_of(*net)[i0 - 1] == net_of(net@[i0 - 1]));
            }
        }
        let delta = scalar::fsub(kv.knot(i0 + k + 1), kv.knot(i0));
        let a = scalar::fmul(
            tolerance::inv_or_zero(delta),
            scalar::fsub(kv.knot(idx), kv.knot(i0)),
        );
        let one_minus = scalar::fsub(ONE_BITS, a);
        let drow: Vec<Vec<u64>> = if i0 == 0 {
            vector::copy_net(&net[0])
        } else {
            proof {
                assert forall|q: int| 0 <= q < net@[i0 as int]@.len() implies (
                #[trigger] net@[i0 as int]@[q]@).len() == net@[i0 - 1]@[q]@.len() by {
                    assert(net3_of(*net)[i0 as int][q] == net@[i0 as int]@[q]@);
                    assert(net3_of(*net)[i0 - 1][q] == net@[i0 - 1]@[q]@);
                }
            }
            vector::rsub(&net[i0], &net[i0 - 1])
        };
        proof {
            assert(net_of(drow) == rdelta_s(net3_of(*net), i0 as int));
            assert(a == boehm_a(knew, idx as int, k as int, i0 as int));
        }
        let p = vector::rsmul(one_minus, &drow);
        proof {
            assert forall|q: int| 0 <= q < net@[i0 as int]@.len() implies (
            #[trigger] net@[i0 as int]@[q]@).len() == p@[q]@.len() by {
                assert(net3_of(*net)[i0 as int][q] == net@[i0 as int]@[q]@);
                assert(net_of(p)[q] == p@[q]@);
                assert(net_of(p)[q] == rsmul_s(one_minus, rdelta_s(net3_of(*net), i0 as int))[q]);
            }
        }
        let upd = vector::rsub(&net[i0], &p);
        let ghost before = net3_of(*net);
        net.set(i0, upd);
        proof {
            assert forall|j: int| 0 <= j < net3_of(*net).len() implies #[trigger] net3_of(*net)[j]
                == rboehm_step(before, knew, idx as int, k as int, i0 as int)[j] by {
                assert(net3_of(*net)[j] == net_of(net@[j]));
            }
            assert(net3_of(*net) =~= rboehm_step(before, knew, idx as int, k as int, i0 as int));
            assert(end - (cnt + 1) == i0 as int);
        }
        cnt = cnt + 1;
    }
    proof {
        lemma_rboehm_iter_shape(base, knew, idx as int, k as int, end as int,
            (end - start) as nat, cols as nat, dim as nat);
    }
}

/// The `m`-th reconstructed control row of a u removal.
pub open spec fn rrm_cand(
    net: Seq<Seq<Seq<u64>>>,
    kn: Seq<u64>,
    idx: int,
    k: int,
    m: nat,
) -> Seq<Seq<u64>>
    decreases m,
{
    if m == 0 {
        net[idx - k - 1]
    } else {
        let i = idx - k + m - 1;
        let a = rm_a(kn, idx, k, i);
        rsub_s(
            rdiv_s(net[i], a),
            rdiv_s(rsmul_s(sub_bits(ONE_BITS, a), rrm_cand(net, kn, idx, k, (m - 1) as nat)), a),
        )
    }
}

/// The control rows after writing the reconstructed rows back over the
/// window.
pub open spec fn rrm_write(
    net: Seq<Seq<Seq<u64>>>,
    kn: Seq<u64>,
    idx: int,
    k: int,
    m: nat,
) -> Seq<Seq<Seq<u64>>>
    decreases m,
{
    if m == 0 {
        net
    } else {
        rrm_write(net, kn, idx, k, (m - 1) as nat).update(
            idx - k + m - 1,
            rrm_cand(net, kn, idx, k, m),
        )
    }
}

/// The reconstructed rows keep the shape of the net's rows.
pub proof fn lemma_rrm_cand_shape(
    net: Seq<Seq<Seq<u64>>>,
    kn: Seq<u64>,
    idx: int,
    k: int,
    m: nat,
    cols: nat,
    dim: nat,
)
    requires
        rect_s(net, cols, dim),
        k + 1 <= idx < net.len(),
        m <= k,
    ensures
        rrm_cand(net, kn, idx, k, m).len() == cols,
        forall|j: int| 0 <= j < cols ==> (#[trigger] rrm_cand(net, kn, idx, k, m)[j]).len()
            == dim,
    decreases m,
{
    if m > 0 {
        lemma_rrm_cand_shape(net, kn, idx, k, (m - 1) as nat, cols, dim);
    }
}

/// The write-back keeps the shape of the net.
pub proof fn lemma_rrm_write_shape(
    net: Seq<Seq<Seq<u64>>>,
    kn: Seq<u64>,
    idx: int,
    k: int,
    m: nat,
    cols: nat,
    dim: nat,
)
    requires
        rect_s(net, cols, dim),
        k + 1 <= idx < net.len(),
        m <= k,
    ensures
        rrm_write(net, kn, idx, k, m).len() == net.len(),
        rect_s(rrm_write(net, kn, idx, k, m), cols, dim),
        forall|j: int| 0 <= j < net.len() && !(idx - k <= j < idx - k + m)
            ==> #[trigger] rrm_write(net, kn, idx, k, m)[j] == net[j],
    decreases m,
{
    if m > 0 {
        lemma_rrm_write_shape(net, kn, idx, k, (m - 1) as nat, cols, dim);
        lemma_rrm_cand_shape(net, kn, idx, k, m, cols, dim);
    }
}


/// Whether a u removal at `idx` is accepted for the given u knots and
/// control net.
pub open spec fn rm_ok_u_at(ukn: Seq<u64>, net: Seq<Seq<Seq<u64>>>, idx: int) -> bool {
    let k = ukn.len() - net.len() - 1;
    let cnt = rm_count_from(ukn, idx, k, 0);
    k + 1 <= idx < net.len() && row_near_s(net[idx], rrm_cand(net, ukn, idx, k, cnt))
}

/// The control net after an accepted u removal at `idx`.
pub open spec fn rm_removed_u(ukn: Seq<u64>, net: Seq<Seq<Seq<u64>>>, idx: int) -> Seq<
    Seq<Seq<u64>>,
> {
    let k = ukn.len() - net.len() - 1;
    rrm_write(net, ukn, idx, k, rm_count_from(ukn, idx, k, 0)).remove(idx)
}

/// Whether a v removal at `idx` is accepted for the given v knots and
/// control net.
pub open spec fn rm_ok_v_at(vkn: Seq<u64>, net: Seq<Seq<Seq<u64>>>, idx: int) -> bool {
    let k = vkn.len() - net[0].len() - 1;
    let cnt = rm_count_from(vkn, idx, k, 0);
    k + 1 <= idx < net[0].len() && forall|i: int| 0 <= i < net.len() ==> pt_near_s(
        #[trigger] net[i][idx],
        rm_cand(net[i], vkn, idx, k, cnt),
    )
}

/// The control net after an accepted v removal at `idx`.
pub open spec fn rm_removed_v(vkn: Seq<u64>, net: Seq<Seq<Seq<u64>>>, idx: int) -> Seq<
    Seq<Seq<u64>>,
> {
    let k = vkn.len() - net[0].len() - 1;
    Seq::new(
        net.len(),
        |i: int| rm_write(net[i], vkn, idx, k, rm_count_from(vkn, idx, k, 0)).remove(idx),
    )
}

/// The second surface state arises from the first by `n` accepted knot
/// removals on either axis.
pub open spec fn surf_rm_chain(
    u1: Seq<u64>,
    v1: Seq<u64>,
    n1: Seq<Seq<Seq<u64>>>,
    u2: Seq<u64>,
    v2: Seq<u64>,
    n2: Seq<Seq<Seq<u64>>>,
    steps: nat,
) -> bool
    decreases steps,
{
    if steps == 0 {
        u1 == u2 && v1 == v2 && n1 == n2
    } else {
        (exists|idx: int| #[trigger] rm_ok_u_at(u1, n1, idx) && surf_rm_chain(
            u1.remove(idx),
            v1,
            rm_removed_u(u1, n1, idx),
            u2,
            v2,
            n2,
            (steps - 1) as nat,
        )) || (exists|idx: int| #[trigger] rm_ok_v_at(v1, n1, idx) && surf_rm_chain(
            u1,
            v1.remove(idx),
            rm_removed_v(v1, n1, idx),
            u2,
            v2,
            n2,
            (steps - 1) as nat,
        ))
    }
}

/// A surface removal chain extends by one accepted u removal at its
/// end.
pub proof fn lemma_surf_chain_snoc_u(
    u1: Seq<u64>,
    v1: Seq<u64>,
    n1: Seq<Seq<Seq<u64>>>,
    u2: Seq<u64>,
    v2: Seq<u64>,
    n2: Seq<Seq<Seq<u64>>>,
    steps: nat,
    idx: int,
)
    requires
        surf_rm_chain(u1, v1, n1, u2, v2, n2, steps),
        rm_ok_u_at(u2, n2, idx),
    ensures
        surf_rm_chain(
            u1,
            v1,
            n1,
            u2.remove(idx),
            v2,
            rm_removed_u(u2, n2, idx),
            (steps + 1) as nat,
        ),
    decreases steps,
{
    if steps == 0 {
        assert(rm_ok_u_at(u1, n1, idx) && surf_rm_chain(
            u1.remove(idx),
            v1,
            rm_removed_u(u1, n1, idx),
            u2.remove(idx),
            v2,
            rm_removed_u(u2, n2, idx),
            0,
        ));
    } else if exists|w: int| #[trigger] rm_ok_u_at(u1, n1, w) && surf_rm_chain(
        u1.remove(w),
        v1,
        rm_removed_u(u1, n1, w),
        u2,
        v2,
        n2,
        (steps - 1) as nat,
    ) {
        let w = choose|w: int| #[trigger] rm_ok_u_at(u1, n1, w) && surf_rm_chain(
            u1.remove(w),
            v1,
            rm_removed_u(u1, n1, w),
            u2,
            v2,
            n2,
            (steps - 1) as nat,
        );
        lemma_surf_chain_snoc_u(
            u1.remove(w),
            v1,
            rm_removed_u(u1, n1, w),
            u2,
            v2,
            n2,
            (steps - 1) as nat,
            idx,
        );
        assert(rm_ok_u_at(u1, n1, w) && surf_rm_chain(
            u1.remove(w),
            v1,
            rm_removed_u(u1, n1, w),
            u2.remove(idx),
            v2,
            rm_removed_u(u2, n2, idx),
            steps,
        ));
    } else {
        let w = choose|w: int| #[trigger] rm_ok_v_at(v1, n1, w) && surf_rm_chain(
            u1,
            v1.remove(w),
            rm_removed_v(v1, n1, w),
            u2,
            v2,
            n2,
            (steps - 1) as nat,
        );
        lemma_surf_chain_snoc_u(
            u1,
            v1.remove(w),
            rm_removed_v(v1, n1, w),
            u2,
            v2,
            n2,
            (steps - 1) as nat,
            idx,
        );
        assert(rm_ok_v_at(v1, n1, w) && surf_rm_chain(
            u1,
            v1.remove(w),
            rm_removed_v(v1, n1, w),
            u2.remove(idx),
            v2,
            rm_removed_u(u2, n2, idx),
            steps,
        ));
    }
}

/// A surface removal chain extends by one accepted v removal at its
/// end.
pub proof fn lemma_surf_chain_snoc_v(
    u1: Seq<u64>,
    v1: Seq<u64>,
    n1: Seq<Seq<Seq<u64>>>,
    u2: Seq<u64>,
    v2: Seq<u64>,
    n2: Seq<Seq<Seq<u64>>>,
    steps: nat,
    idx: int,
)
    requires
        surf_rm_chain(u1, v1, n1, u2, v2, n2, steps),
        rm_ok_v_at(v2, n2, idx),
    ensures
        surf_rm_chain(
            u1,
            v1,
            n1,
            u2,
            v2.remove(idx),
            rm_removed_v(v2, n2, idx),
            (steps + 1) as nat,
        ),
    decreases steps,
{
    if steps == 0 {
        assert(rm_ok_v_at(v1, n1, idx) && surf_rm_chain(
            u1,
            v1.remove(idx),
            rm_removed_v(v1, n1, idx),
            u2,
            v2.remove(idx),
            rm_removed_v(v2, n2, idx),
            0,
        ));
    } else if exists|w: int| #[trigger] rm_ok_u_at(u1, n1, w) && surf_rm_chain(
        u1.remove(w),
        v1,
        rm_removed_u(u1, n1, w),
        u2,
        v2,
        n2,
        (steps - 1) as nat,
    ) {
        let w = choose|w: int| #[trigger] rm_ok_u_at(u1, n1, w) && surf_rm_chain(
            u1.remove(w),
            v1,
            rm_removed_u(u1, n1, w),
            u2,
            v2,
            n2,
            (steps - 1) as nat,
        );
        lemma_surf_chain_snoc_v(
            u1.remove(w),
            v1,
            rm_removed_u(u1, n1, w),
            u2,
            v2,
            n2,
            (steps - 1) as nat,
            idx,
        );
        assert(rm_ok_u_at(u1, n1, w) && surf_rm_chain(
            u1.remove(w),
            v1,
            rm_removed_u(u1, n1, w),
            u2,
            v2.remove(idx),
            rm_removed_v(v2, n2, idx),
            steps,
        ));
    } else {
        let w = choose|w: int| #[trigger] rm_ok_v_at(v1, n1, w) && surf_rm_chain(
            u1,
            v1.remove(w),
            rm_removed_v(v1, n1, w),
            u2,
            v2,
            n2,
            (steps - 1) as nat,
        );
        lemma_surf_chain_snoc_v(
            u1,
            v1.remove(w),
            rm_removed_v(v1, n1, w),
            u2,
            v2,
            n2,
            (steps - 1) as nat,
            idx,
        );
        assert(rm_ok_v_at(v1, n1, w) && surf_rm_chain(
            u1,
            v1.remove(w),
            rm_removed_v(v1, n1, w),
            u2,
            v2.remove(idx),
            rm_removed_v(v2, n2, idx),
            steps,
        ));
    }
}

impl BSplineSurface {
    /// Whether the attempted u removal at `idx` succeeds: the index
    /// lies outside the clamped blocks and the reconstructed control
    /// row agrees with the stored one up to the linear tolerance.
    pub open spec fn rm_ok_u(&self, idx: int) -> bool {
        rm_ok_u_at(self.uknots_s(), self.net_s(), idx)
    }

    /// The control net after a successful u removal at `idx`.
    pub open spec fn rm_result_u(&self, idx: int) -> Seq<Seq<Seq<u64>>> {
        rm_removed_u(self.uknots_s(), self.net_s(), idx)
    }

    /// Whether the attempted v removal at `idx` succeeds: the index
    /// lies outside the clamped blocks and, in every control row, the
    /// reconstructed point agrees with the stored one up to the linear
    /// tolerance.
    pub open spec fn rm_ok_v(&self, idx: int) -> bool {
        rm_ok_v_at(self.vknots_s(), self.net_s(), idx)
    }

    /// The control net after a successful v removal at `idx`.
    pub open spec fn rm_result_v(&self, idx: int) -> Seq<Seq<Seq<u64>>> {
        rm_removed_v(self.vknots_s(), self.net_s(), idx)
    }

    /// Attempts to undo a u knot insertion at index `idx` by inverting
    /// the Boehm recurrence on whole control rows; fails with
    /// `CannotRemoveKnot` exactly when the index lies in a clamped block
    /// or the reconstructed row disagrees with the stored one.
    #[verifier::rlimit(100)]
    #[verifier::spinoff_prover]
    #[verifier::loop_isolation(false)]
    pub fn try_remove_uknot(&mut self, idx: usize) -> (r: Result<(), Error>)
        requires
            old(self).wf(),
        ensures
            r is Ok <==> old(self).rm_ok_u(idx as int),
            r is Err ==> r == Result::<(), Error>::Err(Error::CannotRemoveKnot(idx))
                && *final(self) == *old(self),
            r is Ok ==> {
                &&& final(self).uknots_s() == old(self).uknots_s().remove(idx as int)
                &&& final(self).vknots_s() == old(self).vknots_s()
                &&& final(self).net_s() == old(self).rm_result_u(idx as int)
                &&& final(self).wf()
                &&& final(self).dim_s() == old(self).dim_s()
                &&& final(self).cols_s() == old(self).cols_s()
                &&& final(self).udegree_s() == old(self).udegree_s()
                &&& final(self).vdegree_s() == old(self).vdegree_s()
            },
    {
        let k = self.udegree();
        let n = self.control_points.len();
        let cols = self.cols();
        let dim = self.dim();
        let kvlen = self.knot_vecs.0.len();
        if idx < k + 1 || idx >= n {
            proof {
                assert(!rm_ok_u_at(old(self).uknots_s(), old(self).net_s(), idx as int));
            }
            return Err(Error::CannotRemoveKnot(idx));
        }
        let ghost onet = self.net_s();
        let ghost kn = self.uknots_s();

        // Reconstruct the candidate rows from the front of the window.
        let cands = rrm_candidates(&self.control_points, &self.knot_vecs.0, idx, k, cols, dim);
        let m = cands.len() - 1;
        proof {
            lemma_rm_count_le(kn, idx as int, k as int, 0);
        }

        // The reconstruction must meet the stored control row.
        proof {
            assert(self.net_s()[idx as int] == net_of(self.control_points@[idx as int]));
            lemma_rrm_cand_shape(onet, kn, idx as int, k as int, m as nat, old(self).cols_s(),
                old(self).dim_s());
            assert forall|q: int| 0 <= q < self.control_points@[idx as int]@.len() implies (
            #[trigger] self.control_points@[idx as int]@[q]@).len() == cands@[m as int]@[q]@.len()
                by {
                assert(self.net_s()[idx as int][q] == self.control_points@[idx as int]@[q]@);
                assert(net_of(cands@[m as int])[q] == cands@[m as int]@[q]@);
            }
        }
        if !vector::row_near(&self.control_points[idx], &cands[m]) {
            proof {
                assert(!rm_ok_u_at(kn, onet, idx as int));
            }
            return Err(Error::CannotRemoveKnot(idx));
        }
        proof {
            assert(rm_ok_u_at(kn, onet, idx as int));
        }

        // Write the candidate rows back over the window rows and drop
        // the removed row and knot.
        proof {
            lemma_rm_count_le(kn, idx as int, k as int, 0);
        }
        rrm_apply(&mut self.control_points, &cands, &self.knot_vecs.0, idx, k, cols, dim);
        self.knot_vecs.0.remove(idx);
        Ok(())
    }

    /// The silent u removal variant.
    pub fn remove_uknot(&mut self, idx: usize) -> (r: bool)
        requires
            old(self).wf(),
        ensures
            r == old(self).rm_ok_u(idx as int),
            !r ==> *final(self) == *old(self),
            r ==> final(self).uknots_s() == old(self).uknots_s().remove(idx as int)
                && final(self).net_s() == old(self).rm_result_u(idx as int)
                && final(self).vknots_s() == old(self).vknots_s(),
            final(self).wf(),
            final(self).dim_s() == old(self).dim_s(),
            final(self).udegree_s() == old(self).udegree_s(),
            final(self).vdegree_s() == old(self).vdegree_s(),
            final(self).cols_s() == old(self).cols_s(),
    {
        match self.try_remove_uknot(idx) {
            Ok(_) => true,
            Err(_) => false,
        }
    }

    /// Attempts to undo a v knot insertion at index `idx` by inverting
    /// the Boehm recurrence within every control row; fails with
    /// `CannotRemoveKnot` exactly when the index lies in a clamped block
    /// or a reconstructed point disagrees with the stored one.
    #[verifier::rlimit(100)]
    #[verifier::spinoff_prover]
    #[verifier::loop_isolation(false)]
    pub fn try_remove_vknot(&mut self, idx: usize) -> (r: Result<(), Error>)
        requires
            old(self).wf(),
        ensures
            r is Ok <==> old(self).rm_ok_v(idx as int),
            r is Err ==> r == Result::<(), Error>::Err(Error::CannotRemoveKnot(idx))
                && *final(self) == *old(self),
            r is Ok ==> {
                &&& final(self).vknots_s() == old(self).vknots_s().remove(idx as int)
                &&& final(self).uknots_s() == old(self).uknots_s()
                &&& final(self).net_s() == old(self).rm_result_v(idx as int)
                &&& final(self).wf()
                &&& final(self).dim_s() == old(self).dim_s()
                &&& final(self).rows_s() == old(self).rows_s()
                &&& final(self).udegree_s() == old(self).udegree_s()
                &&& final(self).vdegree_s() == old(self).vdegree_s()
            },
    {
        let k = self.vdegree();
        let rows = self.control_points.len();
        let cols = self.cols();
        let dim = self.dim();
        let vklen = self.knot_vecs.1.len();
        proof {
            assert(k + 1 <= vklen);
        }
        if idx < k + 1 || idx >= cols {
            proof {
                assert(!rm_ok_v_at(old(self).vknots_s(), old(self).net_s(), idx as int));
            }
            return Err(Error::CannotRemoveKnot(idx));
        }
        let ghost onet = self.net_s();
        let ghost kn = self.vknots_s();
        let ghost cnt = rm_count_from(kn, idx as int, k as int, 0);

        // First pass: every row's reconstruction must meet its stored
        // point; nothing is modified yet.
        let mut i: usize = 0;
        while i < rows
            invariant
                i <= rows,
                forall|j: int| 0 <= j < i ==> pt_near_s(
                    #[trigger] onet[j][idx as int],
                    rm_cand(onet[j], kn, idx as int, k as int, cnt),
                ),
                self == old(self),
            decreases rows - i,
        {
            proof {
                assert(self.net_s()[i as int] == net_of(self.control_points@[i as int]));
            }
            let cands = rm_candidates(&self.control_points[i], &self.knot_vecs.1, idx, k, dim);
            let mcnt = cands.len() - 1;
            proof {
                assert(self.net_s()[i as int][idx as int]
                    == self.control_points@[i as int]@[idx as int]@);
            }
            if !vector::pt_near(&self.control_points[i][idx], &cands[mcnt]) {
                proof {
                    assert(!rm_ok_v_at(kn, onet, idx as int));
                }
                return Err(Error::CannotRemoveKnot(idx));
            }
            i = i + 1;
        }
        proof {
            assert(rm_ok_v_at(kn, onet, idx as int));
        }

        // Second pass: rebuild every row.
        let ghost target = old(self).rm_result_v(idx as int);
        let mut i2: usize = 0;
        while i2 < rows
            invariant
                i2 <= rows,
                rows == self.control_points@.len(),
                self.uknots_s() == old(self).uknots_s(),
                self.vknots_s() == kn,
                forall|j: int| 0 <= j < i2 ==> #[trigger] net_of(self.control_points@[j])
                    == target[j],
                forall|j: int| i2 <= j < rows ==> #[trigger] self.control_points@[j] == old(
                    self,
                ).control_points@[j],
            decreases rows - i2,
        {
            proof {
                assert(onet[i2 as int] == net_of(old(self).control_points@[i2 as int]));
                lemma_rm_count_le(kn, idx as int, k as int, 0);
            }
            let mut row = self.control_points.remove(i2);
            let cands = rm_candidates(&row, &self.knot_vecs.1, idx, k, dim);
            rm_apply(&mut row, &cands, &self.knot_vecs.1, idx, k, dim);
            self.control_points.insert(i2, row);
            proof {
                assert forall|j: int| 0 <= j < i2 + 1 implies #[trigger] net_of(
                    self.control_points@[j],
                ) == target[j] by {}
                assert forall|j: int| i2 + 1 <= j < rows implies #[trigger] self.control_points@[
                j] == old(self).control_points@[j] by {}
            }
            i2 = i2 + 1;
        }
        self.knot_vecs.1.remove(idx);
        proof {
            assert forall|j: int| 0 <= j < self.net_s().len() implies #[trigger] self.net_s()[j]
                == target[j] by {
                assert(self.net_s()[j] == net_of(self.control_points@[j]));
            }
            assert(self.net_s() =~= target);
            lemma_rm_count_le(kn, idx as int, k as int, 0);
            assert forall|p: int| 0 <= p < self.net_s().len() implies (
            #[trigger] self.net_s()[p]).len() == old(self).cols_s() - 1 by {
                assert(self.net_s()[p] == target[p]);
                crate::bspcurve::lemma_rm_write_shape(onet[p], kn, idx as int, k as int, cnt,
                    old(self).dim_s());
                rm_write(onet[p], kn, idx as int, k as int, cnt).remove_ensures(idx as int);
            }
            assert forall|p: int, q: int| 0 <= p < self.net_s().len() && 0 <= q < old(
                self,
            ).cols_s() - 1 implies (#[trigger] self.net_s()[p][q]).len() == old(self).dim_s() by {
                assert(self.net_s()[p] == target[p]);
                crate::bspcurve::lemma_rm_write_shape(onet[p], kn, idx as int, k as int, cnt,
                    old(self).dim_s());
                rm_write(onet[p], kn, idx as int, k as int, cnt).remove_ensures(idx as int);
            }
        }
        Ok(())
    }

    /// The silent v removal variant.
    pub fn remove_vknot(&mut self, idx: usize) -> (r: bool)
        requires
            old(self).wf(),
        ensures
            r == old(self).rm_ok_v(idx as int),
            !r ==> *final(self) == *old(self),
            r ==> final(self).vknots_s() == old(self).vknots_s().remove(idx as int)
                && final(self).net_s() == old(self).rm_result_v(idx as int)
                && final(self).uknots_s() == old(self).uknots_s(),
            final(self).wf(),
            final(self).dim_s() == old(self).dim_s(),
            final(self).udegree_s() == old(self).udegree_s(),
            final(self).vdegree_s() == old(self).vdegree_s(),
            final(self).rows_s() == old(self).rows_s(),
    {
        match self.try_remove_vknot(idx) {
            Ok(_) => true,
            Err(_) => false,
        }
    }

    /// Repeatedly attempts to remove every knot of both axes from the
    /// back until a full pass removes nothing: the result arises from
    /// the input by a sequence of accepted removals, and no further
    /// single removal on either axis can succeed on it.
    #[verifier::rlimit(100)]
    #[verifier::spinoff_prover]
    #[verifier::loop_isolation(false)]
    pub fn optimize(&mut self)
        requires
            old(self).wf(),
        ensures
            final(self).wf(),
            final(self).dim_s() == old(self).dim_s(),
            final(self).udegree_s() == old(self).udegree_s(),
            final(self).vdegree_s() == old(self).vdegree_s(),
            forall|i: int| !#[trigger] final(self).rm_ok_u(i),
            forall|i: int| !#[trigger] final(self).rm_ok_v(i),
            exists|n: nat| surf_rm_chain(
                old(self).uknots_s(),
                old(self).vknots_s(),
                old(self).net_s(),
                final(self).uknots_s(),
                final(self).vknots_s(),
                final(self).net_s(),
                n,
            ),
            (forall|i: int| !#[trigger] old(self).rm_ok_u(i)) && (forall|i: int|
                !#[trigger] old(self).rm_ok_v(i)) ==> *final(self) == *old(self),
    {
        let ghost mut steps: nat = 0;
        let mut again = true;
        while again
            invariant
                self.wf(),
                self.dim_s() == old(self).dim_s(),
                self.udegree_s() == old(self).udegree_s(),
                self.vdegree_s() == old(self).vdegree_s(),
                surf_rm_chain(
                    old(self).uknots_s(),
                    old(self).vknots_s(),
                    old(self).net_s(),
                    self.uknots_s(),
                    self.vknots_s(),
                    self.net_s(),
                    steps,
                ),
                !again ==> (forall|i: int| !#[trigger] self.rm_ok_u(i)) && (forall|i: int|
                    !#[trigger] self.rm_ok_v(i)),
                (forall|i: int| !#[trigger] old(self).rm_ok_u(i)) && (forall|i: int|
                    !#[trigger] old(self).rm_ok_v(i)) ==> *self == *old(self),
            decreases 2 * (self.uknots_s().len() + self.vknots_s().len()) + (if again {
                1int
            } else {
                0int
            }),
        {
            let ghost snap = *self;
            let n0 = self.knot_vecs.0.len();
            let n1 = self.knot_vecs.1.len();
            let mut flag = true;
            let mut c: usize = 0;
            while c < n0
                invariant
                    c <= n0,
                    self.wf(),
                    self.dim_s() == old(self).dim_s(),
                    self.udegree_s() == old(self).udegree_s(),
                    self.vdegree_s() == old(self).vdegree_s(),
                    self.uknots_s().len() <= n0,
                    self.vknots_s().len() == n1,
                    flag ==> self.uknots_s().len() == n0,
                    !flag ==> self.uknots_s().len() < n0,
                    surf_rm_chain(
                        old(self).uknots_s(),
                        old(self).vknots_s(),
                        old(self).net_s(),
                        self.uknots_s(),
                        self.vknots_s(),
                        self.net_s(),
                        steps,
                    ),
                    flag ==> *self == snap,
                    flag ==> forall|cc: int| 0 <= cc < c ==> !#[trigger] snap.rm_ok_u(n0 - 1
                        - cc),
                    (forall|i: int| !#[trigger] old(self).rm_ok_u(i)) && (forall|i: int|
                        !#[trigger] old(self).rm_ok_v(i)) ==> *self == *old(self) && flag,
                decreases n0 - c,
            {
                let ghost pre = *self;
                let removed = self.remove_uknot(n0 - 1 - c);
                proof {
                    if removed {
                        lemma_surf_chain_snoc_u(
                            old(self).uknots_s(),
                            old(self).vknots_s(),
                            old(self).net_s(),
                            pre.uknots_s(),
                            pre.vknots_s(),
                            pre.net_s(),
                            steps,
                            n0 - 1 - c,
                        );
                        steps = steps + 1;
                    }
                }
                flag = flag && !removed;
                c = c + 1;
            }
            let mut c2: usize = 0;
            while c2 < n1
                invariant
                    c2 <= n1,
                    self.wf(),
                    self.dim_s() == old(self).dim_s(),
                    self.udegree_s() == old(self).udegree_s(),
                    self.vdegree_s() == old(self).vdegree_s(),
                    self.uknots_s().len() <= n0,
                    self.vknots_s().len() <= n1,
                    flag ==> self.uknots_s().len() == n0 && self.vknots_s().len() == n1,
                    !flag ==> self.uknots_s().len() + self.vknots_s().len() < n0 + n1,
                    surf_rm_chain(
                        old(self).uknots_s(),
                        old(self).vknots_s(),
                        old(self).net_s(),
                        self.uknots_s(),
                        self.vknots_s(),
                        self.net_s(),
                        steps,
                    ),
                    flag ==> *self == snap,
                    flag ==> forall|cc: int| 0 <= cc < n0 ==> !#[trigger] snap.rm_ok_u(n0 - 1
                        - cc),
                    flag ==> forall|cc: int| 0 <= cc < c2 ==> !#[trigger] snap.rm_ok_v(n1 - 1
                        - cc),
                    (forall|i: int| !#[trigger] old(self).rm_ok_u(i)) && (forall|i: int|
                        !#[trigger] old(self).rm_ok_v(i)) ==> *self == *old(self) && flag,
                decreases n1 - c2,
            {
                let ghost pre = *self;
                let removed = self.remove_vknot(n1 - 1 - c2);
                proof {
                    if removed {
                        lemma_surf_chain_snoc_v(
                            old(self).uknots_s(),
                            old(self).vknots_s(),
                            old(self).net_s(),
                            pre.uknots_s(),
                            pre.vknots_s(),
                            pre.net_s(),
                            steps,
                            n1 - 1 - c2,
                        );
                        steps = steps + 1;
                    }
                }
                flag = flag && !removed;
                c2 = c2 + 1;
            }
            proof {
                if flag {
                    assert forall|i: int| !#[trigger] self.rm_ok_u(i) by {
                        if 0 <= i < n0 {
                            assert(!snap.rm_ok_u(n0 - 1 - (n0 - 1 - i)));
                        } else {
                            assert(self.uknots_s().len() - self.net_s().len() - 1 >= 0);
                            assert(self.net_s().len() < self.uknots_s().len());
                        }
                    }
                    assert forall|i: int| !#[trigger] self.rm_ok_v(i) by {
                        if 0 <= i < n1 {
                            assert(!snap.rm_ok_v(n1 - 1 - (n1 - 1 - i)));
                        } else {
                            assert(self.vknots_s().len() - self.net_s()[0].len() - 1 >= 0);
                            assert(self.net_s()[0].len() < self.vknots_s().len());
                        }
                    }
                }
            }
            again = !flag;
        }
    }
}

/// Builds the candidate rows of a u removal: candidate zero is the row
/// in front of the window, each next candidate inverts one Boehm
/// combination row-wise, and the construction stops at a degenerate
/// window coefficient.
#[verifier::rlimit(100)]
#[verifier::spinoff_prover]
#[verifier::loop_isolation(false)]
fn rrm_candidates(
    net: &Vec<Vec<Vec<u64>>>,
    kv: &KnotVec,
    idx: usize,
    k: usize,
    cols: usize,
    dim: usize,
) -> (r: Vec<Vec<Vec<u64>>>)
    requires
        rect_s(net3_of(*net), cols as nat, dim as nat),
        k + 1 <= idx < net@.len(),
        kv@.len() == net@.len() + k + 1,
    ensures
        r@.len() == rm_count_from(kv@, idx as int, k as int, 0) + 1,
        forall|q: int| 0 <= q < r@.len() ==> #[trigger] net_of(r@[q]) == rrm_cand(
            net3_of(*net),
            kv@,
            idx as int,
            k as int,
            q as nat,
        ),
        forall|q: int| 0 <= q < r@.len() ==> r@[q]@.len() == cols,
{
    let kvlen = kv.len();
    let ghost onet = net3_of(*net);
    let ghost kn = kv@;
    let mut cands: Vec<Vec<Vec<u64>>> = Vec::new();
    proof {
        assert(net3_of(*net)[idx - k - 1] == net_of(net@[idx - k - 1]));
    }
    cands.push(vector::copy_net(&net[idx - k - 1]));
    let mut m: usize = 0;
    let mut stopped = false;
    while m < k && !stopped
        invariant
            0 <= m <= k,
            cands@.len() == m + 1,
            forall|q: int| 0 <= q <= m ==> #[trigger] net_of(cands@[q]) == rrm_cand(
                onet,
                kn,
                idx as int,
                k as int,
                q as nat,
            ),
            forall|q: int| 0 <= q <= m ==> cands@[q]@.len() == cols,
            !stopped ==> rm_count_from(kn, idx as int, k as int, 0) == rm_count_from(
                kn,
                idx as int,
                k as int,
                m as nat,
            ),
            stopped ==> rm_count_from(kn, idx as int, k as int, 0) == m,
        decreases k - m + (if stopped { 0int } else { 1int }),
    {
        let i = idx - k + m;
        proof {
            assert(i + k + 1 < kvlen);
            lemma_rrm_cand_shape(onet, kn, idx as int, k as int, m as nat, cols as nat,
                dim as nat);
        }
        let a = scalar::fmul(
            tolerance::inv_or_zero(scalar::fsub(kv.knot(i + k + 1), kv.knot(i))),
            scalar::fsub(kv.knot(idx), kv.knot(i)),
        );
        proof {
            assert(a == rm_a(kn, idx as int, k as int, i as int));
        }
        if tolerance::so_small(a) {
            stopped = true;
        } else {
            let one_minus = scalar::fsub(ONE_BITS, a);
            proof {
                assert(net3_of(*net)[i as int] == net_of(net@[i as int]));
            }
            let t0 = vector::rdiv(&net[i], a);
            let t1 = vector::rdiv(&vector::rsmul(one_minus, &cands[m]), a);
            proof {
                assert forall|q: int| 0 <= q < t0@.len() implies (#[trigger] t0@[q]@).len()
                    == t1@[q]@.len() by {
                    assert(net_of(t0)[q] == t0@[q]@);
                    assert(net_of(t1)[q] == t1@[q]@);
                    assert(net_of(t0)[q] == rdiv_s(onet[i as int], a)[q]);
                    assert(net_of(t1)[q] == rdiv_s(
                        rsmul_s(one_minus, rrm_cand(onet, kn, idx as int, k as int, m as nat)),
                        a,
                    )[q]);
                    lemma_rrm_cand_shape(onet, kn, idx as int, k as int, m as nat, cols as nat,
                        dim as nat);
                }
            }
            let newc = vector::rsub(&t0, &t1);
            proof {
                assert(net_of(newc) == rrm_cand(onet, kn, idx as int, k as int, (m + 1) as nat));
            }
            cands.push(newc);
            m = m + 1;
        }
    }
    proof {
        assert(rm_count_from(kn, idx as int, k as int, 0) == m);
    }
    cands
}

impl BSplineSurface {
    /// Whether all control points are near the first one.
    #[verifier::loop_isolation(false)]
    pub fn is_const(&self) -> (r: bool)
        requires
            self.wf(),
        ensures
            r == forall|i: int, j: int| 0 <= i < self.rows_s() && 0 <= j < self.cols_s()
                ==> pt_near_s(#[trigger] self.net_s()[i][j], self.net_s()[0][0]),
    {
        let rows = self.control_points.len();
        let cols = self.cols();
        let mut i: usize = 0;
        while i < rows
            invariant
                i <= rows,
                forall|p: int, q: int| 0 <= p < i && 0 <= q < self.cols_s() ==> pt_near_s(
                    #[trigger] self.net_s()[p][q],
                    self.net_s()[0][0],
                ),
            decreases rows - i,
        {
            let mut j: usize = 0;
            while j < cols
                invariant
                    j <= cols,
                    i < rows,
                    forall|p: int, q: int| 0 <= p < i && 0 <= q < self.cols_s() ==> pt_near_s(
                        #[trigger] self.net_s()[p][q],
                        self.net_s()[0][0],
                    ),
                    forall|q: int| 0 <= q < j ==> pt_near_s(
                        #[trigger] self.net_s()[i as int][q],
                        self.net_s()[0][0],
                    ),
                decreases cols - j,
            {
                proof {
                    assert(self.net_s()[i as int] == net_of(self.control_points@[i as int]));
                    assert(self.net_s()[i as int][j as int]
                        == self.control_points@[i as int]@[j as int]@);
                    assert(self.net_s()[0] == net_of(self.control_points@[0]));
                    assert(self.net_s()[0][0] == self.control_points@[0]@[0]@);
                }
                if !vector::pt_near(&self.control_points[i][j], &self.control_points[0][0]) {
                    return false;
                }
                j = j + 1;
            }
            i = i + 1;
        }
        true
    }

    /// Whether the rational projections of all control points are near
    /// the projection of the first one.
    #[verifier::loop_isolation(false)]
    pub fn is_rational_const(&self) -> (r: bool)
        requires
            self.wf(),
            self.dim_s() >= 2,
        ensures
            r == forall|i: int, j: int| 0 <= i < self.rows_s() && 0 <= j < self.cols_s()
                ==> pt_near_s(
                rat_proj_s(#[trigger] self.net_s()[i][j]),
                rat_proj_s(self.net_s()[0][0]),
            ),
    {
        proof {
            assert(self.net_s()[0] == net_of(self.control_points@[0]));
            assert(self.net_s()[0][0] == self.control_points@[0]@[0]@);
        }
        let first = vector::rational_projection(&self.control_points[0][0]);
        let rows = self.control_points.len();
        let cols = self.cols();
        let mut i: usize = 0;
        while i < rows
            invariant
                i <= rows,
                first@ == rat_proj_s(self.net_s()[0][0]),
                forall|p: int, q: int| 0 <= p < i && 0 <= q < self.cols_s() ==> pt_near_s(
                    rat_proj_s(#[trigger] self.net_s()[p][q]),
                    rat_proj_s(self.net_s()[0][0]),
                ),
            decreases rows - i,
        {
            let mut j: usize = 0;
            while j < cols
                invariant
                    j <= cols,
                    i < rows,
                    first@ == rat_proj_s(self.net_s()[0][0]),
                    forall|p: int, q: int| 0 <= p < i && 0 <= q < self.cols_s() ==> pt_near_s(
                        rat_proj_s(#[trigger] self.net_s()[p][q]),
                        rat_proj_s(self.net_s()[0][0]),
                    ),
                    forall|q: int| 0 <= q < j ==> pt_near_s(
                        rat_proj_s(#[trigger] self.net_s()[i as int][q]),
                        rat_proj_s(self.net_s()[0][0]),
                    ),
                decreases cols - j,
            {
                proof {
                    assert(self.net_s()[i as int] == net_of(self.control_points@[i as int]));
                    assert(self.net_s()[i as int][j as int]
                        == self.control_points@[i as int]@[j as int]@);
                }
                let p = vector::rational_projection(&self.control_points[i][j]);
                if !vector::pt_near(&p, &first) {
                    return false;
                }
                j = j + 1;
            }
            i = i + 1;
        }
        true
    }

    /// Rescales both knot vectors to the unit interval; the control net
    /// is untouched.  Each axis is rescaled exactly when its range is
    /// above the linear tolerance and rounding keeps the rescaled
    /// sequence well-formed; the return value says whether both axes
    /// were rescaled.  For finite knots with a positive rounded range
    /// the first and last knot of each rescaled vector are exactly zero
    /// and one.
    pub fn knot_normalize(&mut self) -> (r: bool)
        requires
            old(self).wf(),
        ensures
            final(self).net_s() == old(self).net_s(),
            final(self).wf(),
            final(self).dim_s() == old(self).dim_s(),
            final(self).rows_s() == old(self).rows_s(),
            final(self).cols_s() == old(self).cols_s(),
            r == (norm_ok(old(self).uknots_s()) && norm_ok(old(self).vknots_s())),
            final(self).uknots_s() == if norm_ok(old(self).uknots_s()) {
                KnotVec::normalized_s(old(self).uknots_s())
            } else {
                old(self).uknots_s()
            },
            final(self).vknots_s() == if norm_ok(old(self).vknots_s()) {
                KnotVec::normalized_s(old(self).vknots_s())
            } else {
                old(self).vknots_s()
            },
            r && is_finite_bits(old(self).uknots_s()[0]) && !is_nan_bits(
                sub_bits(
                    old(self).uknots_s()[old(self).uknots_s().len() - 1],
                    old(self).uknots_s()[0],
                ),
            ) && key_of(sub_bits(
                old(self).uknots_s()[old(self).uknots_s().len() - 1],
                old(self).uknots_s()[0],
            )) > 0 ==> final(self).uknots_s()[0] == 0u64,
            r && is_finite_bits(
                sub_bits(
                    old(self).uknots_s()[old(self).uknots_s().len() - 1],
                    old(self).uknots_s()[0],
                ),
            ) && key_of(sub_bits(
                old(self).uknots_s()[old(self).uknots_s().len() - 1],
                old(self).uknots_s()[0],
            )) != 0 ==> final(self).uknots_s()[final(self).uknots_s().len() - 1] == ONE_BITS,
            r && is_finite_bits(old(self).vknots_s()[0]) && !is_nan_bits(
                sub_bits(
                    old(self).vknots_s()[old(self).vknots_s().len() - 1],
                    old(self).vknots_s()[0],
                ),
            ) && key_of(sub_bits(
                old(self).vknots_s()[old(self).vknots_s().len() - 1],
                old(self).vknots_s()[0],
            )) > 0 ==> final(self).vknots_s()[0] == 0u64,
            r && is_finite_bits(
                sub_bits(
                    old(self).vknots_s()[old(self).vknots_s().len() - 1],
                    old(self).vknots_s()[0],
                ),
            ) && key_of(sub_bits(
                old(self).vknots_s()[old(self).vknots_s().len() - 1],
                old(self).vknots_s()[0],
            )) != 0 ==> final(self).vknots_s()[final(self).vknots_s().len() - 1] == ONE_BITS,
    {
        let r0 = match self.knot_vecs.0.try_normalize() {
            Ok(installed) => installed,
            Err(_) => false,
        };
        let r1 = match self.knot_vecs.1.try_normalize() {
            Ok(installed) => installed,
            Err(_) => false,
        };
        r0 && r1
    }

    /// Shifts the u knot vector by `x`; unchanged when rounding broke
    /// the order.
    pub fn uknot_translate(&mut self, x: u64) -> (r: bool)
        requires
            old(self).wf(),
        ensures
            final(self).net_s() == old(self).net_s(),
            final(self).vknots_s() == old(self).vknots_s(),
            r == knots_wf(KnotVec::translated_s(old(self).uknots_s(), x)),
            r ==> final(self).uknots_s() == KnotVec::translated_s(old(self).uknots_s(), x),
            !r ==> final(self).uknots_s() == old(self).uknots_s(),
            final(self).wf(),
            final(self).dim_s() == old(self).dim_s(),
            final(self).udegree_s() == old(self).udegree_s(),
            final(self).vdegree_s() == old(self).vdegree_s(),
    {
        self.knot_vecs.0.translate(x)
    }

    /// Shifts the v knot vector by `x`; unchanged when rounding broke
    /// the order.
    pub fn vknot_translate(&mut self, x: u64) -> (r: bool)
        requires
            old(self).wf(),
        ensures
            final(self).net_s() == old(self).net_s(),
            final(self).uknots_s() == old(self).uknots_s(),
            r == knots_wf(KnotVec::translated_s(old(self).vknots_s(), x)),
            r ==> final(self).vknots_s() == KnotVec::translated_s(old(self).vknots_s(), x),
            !r ==> final(self).vknots_s() == old(self).vknots_s(),
            final(self).wf(),
            final(self).dim_s() == old(self).dim_s(),
            final(self).udegree_s() == old(self).udegree_s(),
            final(self).vdegree_s() == old(self).vdegree_s(),
    {
        self.knot_vecs.1.translate(x)
    }

    /// Extracts the four boundary curves, in the traversal order: the
    /// first control column over the u knots, the last control row over
    /// the v knots, the last control column over the u knots, and the
    /// first control row over the v knots.
    #[verifier::rlimit(100)]
    #[verifier::spinoff_prover]
    #[verifier::loop_isolation(false)]
    pub fn splitted_boundary(&self) -> (r: (BSplineCurve, BSplineCurve, BSplineCurve,
        BSplineCurve))
        requires
            self.wf(),
        ensures
            r.0.knots_s() == self.uknots_s(),
            r.0.pts_s() == Seq::new(self.rows_s(), |i: int| self.net_s()[i][0]),
            r.1.knots_s() == self.vknots_s(),
            r.1.pts_s() == self.net_s()[self.rows_s() - 1],
            r.2.knots_s() == self.uknots_s(),
            r.2.pts_s() == Seq::new(
                self.rows_s(),
                |i: int| self.net_s()[i][self.cols_s() - 1],
            ),
            r.3.knots_s() == self.vknots_s(),
            r.3.pts_s() == self.net_s()[0],
            r.0.wf() && r.1.wf() && r.2.wf() && r.3.wf(),
            r.0.dim_s() == self.dim_s() && r.1.dim_s() == self.dim_s() && r.2.dim_s()
                == self.dim_s() && r.3.dim_s() == self.dim_s(),
    {
        let rows = self.control_points.len();
        let cols = self.cols();
        let mut col0: Vec<Vec<u64>> = Vec::new();
        let mut coln: Vec<Vec<u64>> = Vec::new();
        let mut i: usize = 0;
        while i < rows
            invariant
                i <= rows,
                col0@.len() == i,
                coln@.len() == i,
                forall|p: int| 0 <= p < i ==> #[trigger] col0@[p]@ == self.net_s()[p][0],
                forall|p: int| 0 <= p < i ==> #[trigger] coln@[p]@ == self.net_s()[p][
                self.cols_s() - 1],
            decreases rows - i,
        {
            proof {
                assert(self.net_s()[i as int] == net_of(self.control_points@[i as int]));
                assert(self.net_s()[i as int][0] == self.control_points@[i as int]@[0]@);
                assert(self.net_s()[i as int][cols - 1]
                    == self.control_points@[i as int]@[cols - 1]@);
            }
            col0.push(vector::copy_pt(&self.control_points[i][0]));
            coln.push(vector::copy_pt(&self.control_points[i][cols - 1]));
            i = i + 1;
        }
        proof {
            assert(self.net_s()[rows - 1] == net_of(self.control_points@[rows - 1]));
            assert(self.net_s()[0] == net_of(self.control_points@[0]));
        }
        let rown = vector::copy_net(&self.control_points[rows - 1]);
        let row0 = vector::copy_net(&self.control_points[0]);
        proof {
            assert(net_of(col0) =~= Seq::new(self.rows_s(), |p: int| self.net_s()[p][0]));
            assert(net_of(coln) =~= Seq::new(
                self.rows_s(),
                |p: int| self.net_s()[p][self.cols_s() - 1],
            ));
            assert forall|p: int| 0 <= p < net_of(col0).len() implies #[trigger] net_of(col0)[
            p].len() == self.dim_s() by {}
            assert forall|p: int| 0 <= p < net_of(coln).len() implies #[trigger] net_of(coln)[
            p].len() == self.dim_s() by {}
            assert forall|p: int| 0 <= p < net_of(row0).len() implies #[trigger] net_of(row0)[
            p].len() == self.dim_s() by {}
            assert forall|p: int| 0 <= p < net_of(rown).len() implies #[trigger] net_of(rown)[
            p].len() == self.dim_s() by {}
        }
        let c0 = BSplineCurve::new_unchecked(self.knot_vecs.0.duplicate(), col0);
        let c1 = BSplineCurve::new_unchecked(self.knot_vecs.1.duplicate(), rown);
        let c2 = BSplineCurve::new_unchecked(self.knot_vecs.0.duplicate(), coln);
        let c3 = BSplineCurve::new_unchecked(self.knot_vecs.1.duplicate(), row0);
        (c0, c1, c2, c3)
    }

    /// The first boundary edge over the u knots: the first control
    /// column.
    pub open spec fn edge0_pts(&self) -> Seq<Seq<u64>> {
        Seq::new(self.rows_s(), |i: int| self.net_s()[i][0])
    }

    /// The last control column, the edge opposite the first one.
    pub open spec fn edge2_pts(&self) -> Seq<Seq<u64>> {
        Seq::new(self.rows_s(), |i: int| self.net_s()[i][self.cols_s() - 1])
    }

    /// The boundary knot vector built by the concatenation chain: each
    /// successive edge's knots are translated to follow the previous
    /// range, the far edges are reflected, and each concatenation is
    /// installed exactly when its junction points are near and the
    /// combined knots stay well-formed.
    pub open spec fn boundary_kn_s(&self) -> Seq<u64> {
        let uk = self.uknots_s();
        let vk = self.vknots_s();
        let k = self.udegree_s();
        let r0 = sub_bits(uk[uk.len() - 1], uk[0]);
        let r1 = sub_bits(vk[vk.len() - 1], vk[0]);
        let b1k = bspcurve::translate_step(vk, r0);
        let b2k = bspcurve::translate_step(bspcurve::inv_kn_step(uk), add_bits(r0, r1));
        let b3k = bspcurve::translate_step(
            bspcurve::inv_kn_step(vk),
            add_bits(mul_bits(r0, TWO_BITS), r1),
        );
        let b1p = self.net_s()[self.rows_s() - 1];
        let b2p = bspcurve::inv_pts_step(uk, self.edge2_pts());
        let b3p = bspcurve::inv_pts_step(vk, self.net_s()[0]);
        let s1k = bspcurve::concat_kn_step(uk, self.edge0_pts(), b1k, b1p, k);
        let s1p = bspcurve::concat_pts_step(uk, self.edge0_pts(), b1k, b1p, k);
        let s2k = bspcurve::concat_kn_step(s1k, s1p, b2k, b2p, k);
        let s2p = bspcurve::concat_pts_step(s1k, s1p, b2k, b2p, k);
        bspcurve::concat_kn_step(s2k, s2p, b3k, b3p, k)
    }

    /// The boundary control points built by the concatenation chain.
    pub open spec fn boundary_pts_s(&self) -> Seq<Seq<u64>> {
        let uk = self.uknots_s();
        let vk = self.vknots_s();
        let k = self.udegree_s();
        let r0 = sub_bits(uk[uk.len() - 1], uk[0]);
        let r1 = sub_bits(vk[vk.len() - 1], vk[0]);
        let b1k = bspcurve::translate_step(vk, r0);
        let b2k = bspcurve::translate_step(bspcurve::inv_kn_step(uk), add_bits(r0, r1));
        let b3k = bspcurve::translate_step(
            bspcurve::inv_kn_step(vk),
            add_bits(mul_bits(r0, TWO_BITS), r1),
        );
        let b1p = self.net_s()[self.rows_s() - 1];
        let b2p = bspcurve::inv_pts_step(uk, self.edge2_pts());
        let b3p = bspcurve::inv_pts_step(vk, self.net_s()[0]);
        let s1k = bspcurve::concat_kn_step(uk, self.edge0_pts(), b1k, b1p, k);
        let s1p = bspcurve::concat_pts_step(uk, self.edge0_pts(), b1k, b1p, k);
        let s2k = bspcurve::concat_kn_step(s1k, s1p, b2k, b2p, k);
        let s2p = bspcurve::concat_pts_step(s1k, s1p, b2k, b2p, k);
        bspcurve::concat_pts_step(s2k, s2p, b3k, b3p, k)
    }

    /// Extracts the boundary as one closed curve: the four edges are
    /// concatenated in traversal order, the knot vector of each edge
    /// translated to follow the previous one and the far edges
    /// inverted.  When the two degrees coincide, the result is pinned
    /// to the concatenation chain; edges of unequal degree are first
    /// co-refined by degree elevation.
    #[verifier::rlimit(100)]
    #[verifier::spinoff_prover]
    pub fn boundary(&self) -> (r: BSplineCurve)
        requires
            self.wf(),
        ensures
            r.wf(),
            r.dim_s() == self.dim_s(),
            self.udegree_s() == self.vdegree_s() ==> r.knots_s() == self.boundary_kn_s()
                && r.pts_s() == self.boundary_pts_s(),
    {
        let ghost hyp = self.udegree_s() == self.vdegree_s();
        let range0 = self.knot_vecs.0.range_length();
        let range1 = self.knot_vecs.1.range_length();
        let (mut b0, mut b1, mut b2, mut b3) = self.splitted_boundary();
        let _ = b1.knot_translate(range0);
        let _ = b2.invert();
        let _ = b2.knot_translate(scalar::fadd(range0, range1));
        let _ = b3.invert();
        let _ = b3.knot_translate(scalar::fadd(scalar::fmul(range0, TWO_BITS), range1));
        let ghost t1 = b1;
        let ghost t2 = b2;
        let ghost t3 = b3;
        let _ = b0.syncro_degree(&mut b1);
        if b0.degree() == b1.degree() {
            let _ = b0.concat(&b1);
        }
        proof {
            if hyp {
                assert(b1 == t1);
                assert(b0.knots_s() == bspcurve::concat_kn_step(
                    self.uknots_s(),
                    self.edge0_pts(),
                    t1.knots_s(),
                    t1.pts_s(),
                    self.udegree_s(),
                ));
                assert(b0.pts_s() == bspcurve::concat_pts_step(
                    self.uknots_s(),
                    self.edge0_pts(),
                    t1.knots_s(),
                    t1.pts_s(),
                    self.udegree_s(),
                ));
            }
        }
        let ghost s1 = b0;
        let _ = b0.syncro_degree(&mut b2);
        if b0.degree() == b2.degree() {
            let _ = b0.concat(&b2);
        }
        proof {
            if hyp {
                assert(b2 == t2);
                assert(b0.knots_s() == bspcurve::concat_kn_step(
                    s1.knots_s(),
                    s1.pts_s(),
                    t2.knots_s(),
                    t2.pts_s(),
                    self.udegree_s(),
                ));
            }
        }
        let ghost s2 = b0;
        let _ = b0.syncro_degree(&mut b3);
        if b0.degree() == b3.degree() {
            let _ = b0.concat(&b3);
        }
        proof {
            if hyp {
                assert(b3 == t3);
                assert(b0.knots_s() == bspcurve::concat_kn_step(
                    s2.knots_s(),
                    s2.pts_s(),
                    t3.knots_s(),
                    t3.pts_s(),
                    self.udegree_s(),
                ));
                assert(t1.knots_s() == bspcurve::translate_step(
                    self.vknots_s(),
                    sub_bits(
                        self.uknots_s()[self.uknots_s().len() - 1],
                        self.uknots_s()[0],
                    ),
                ));
                assert(b0.knots_s() == self.boundary_kn_s());
                assert(b0.pts_s() == self.boundary_pts_s());
            }
        }
        b0
    }
}

/// The pointwise comparison applied at each parameter sample.
#[derive(Clone, Copy, PartialEq, Eq, Structural)]
pub enum CmpMode {
    /// Components near up to the linear tolerance.
    Near,
    /// Components near up to the quadratic tolerance.
    Near2,
    /// Rational projections near up to the linear tolerance.
    ProjNear,
    /// Rational projections near up to the quadratic tolerance.
    ProjNear2,
}

/// The sample comparison selected by the mode.
pub open spec fn pt_cmp_s(mode: CmpMode, a: Seq<u64>, b: Seq<u64>) -> bool {
    match mode {
        CmpMode::Near => pt_near_s(a, b),
        CmpMode::Near2 => pt_near2_s(a, b),
        CmpMode::ProjNear => pt_near_s(rat_proj_s(a), rat_proj_s(b)),
        CmpMode::ProjNear2 => pt_near2_s(rat_proj_s(a), rat_proj_s(b)),
    }
}

/// The `j0`-th of `div` samples in the knot span ending at index `i0`:
/// `kn[i0 - 1] + (kn[i0] - kn[i0 - 1]) * j0 / div` in rounded
/// arithmetic.
pub open spec fn sample_s(kn: Seq<u64>, i0: int, j0: int, div: int) -> u64 {
    add_bits(
        kn[i0 - 1],
        div_bits(mul_bits(sub_bits(kn[i0], kn[i0 - 1]), int_bits(j0)), int_bits(div)),
    )
}

/// Applies the comparison selected by the mode.
fn pt_cmp(mode: CmpMode, a: &Vec<u64>, b: &Vec<u64>) -> (r: bool)
    requires
        a@.len() == b@.len(),
        a@.len() >= 1,
    ensures
        r == pt_cmp_s(mode, a@, b@),
{
    match mode {
        CmpMode::Near => vector::pt_near(a, b),
        CmpMode::Near2 => vector::pt_near2(a, b),
        CmpMode::ProjNear => {
            let pa = vector::rational_projection(a);
            let pb = vector::rational_projection(b);
            vector::pt_near(&pa, &pb)
        },
        CmpMode::ProjNear2 => {
            let pa = vector::rational_projection(a);
            let pb = vector::rational_projection(b);
            vector::pt_near2(&pa, &pb)
        },
    }
}

impl BSplineSurface {
    /// All v samples at the fixed u parameter compare equal under the
    /// mode: for every non-degenerate v span and every one of `div1`
    /// interior samples.
    pub open spec fn line_ok_s(&self, other: &Self, u: u64, div1: int, mode: CmpMode) -> bool {
        forall|i1: int, j1: int| 1 <= i1 < self.vknots_s().len() && 0 <= j1 < div1
            && !so_small_bits(sub_bits(self.vknots_s()[i1], self.vknots_s()[i1 - 1]))
            ==> #[trigger] pt_cmp_s(
            mode,
            self.subs_at(u, sample_s(self.vknots_s(), i1, j1, div1)),
            other.subs_at(u, sample_s(self.vknots_s(), i1, j1, div1)),
        )
    }

    /// The sampled equality of two surfaces: the knot ranges agree up to
    /// the linear tolerance, and the evaluations agree under the mode at
    /// every sample of every non-degenerate span pair.
    pub open spec fn near_ok_s(&self, other: &Self, div0: int, div1: int, mode: CmpMode) -> bool {
        &&& near_bits(self.uknots_s()[0], other.uknots_s()[0])
        &&& near_bits(
            sub_bits(self.uknots_s()[self.uknots_s().len() - 1], self.uknots_s()[0]),
            sub_bits(other.uknots_s()[other.uknots_s().len() - 1], other.uknots_s()[0]),
        )
        &&& near_bits(self.vknots_s()[0], other.vknots_s()[0])
        &&& near_bits(
            sub_bits(self.vknots_s()[self.vknots_s().len() - 1], self.vknots_s()[0]),
            sub_bits(other.vknots_s()[other.vknots_s().len() - 1], other.vknots_s()[0]),
        )
        &&& forall|i0: int, j0: int| 1 <= i0 < self.uknots_s().len() && 0 <= j0 < div0
            && !so_small_bits(sub_bits(self.uknots_s()[i0], self.uknots_s()[i0 - 1]))
            ==> #[trigger] self.line_ok_s(
            other,
            sample_s(self.uknots_s(), i0, j0, div0),
            div1,
            mode,
        )
    }

    /// Checks all v samples at one u parameter.
    #[verifier::rlimit(100)]
    #[verifier::spinoff_prover]
    #[verifier::loop_isolation(false)]
    fn near_on_line(&self, other: &Self, u: u64, div1: usize, mode: CmpMode) -> (r: bool)
        requires
            self.wf(),
            other.wf(),
            self.dim_s() == other.dim_s(),
        ensures
            r == self.line_ok_s(other, u, div1 as int, mode),
    {
        let n1 = self.knot_vecs.1.len();
        let mut i1: usize = 1;
        while i1 < n1
            invariant
                1 <= i1 <= n1,
                forall|p: int, q: int| 1 <= p < i1 && 0 <= q < div1 && !so_small_bits(
                    sub_bits(self.vknots_s()[p], self.vknots_s()[p - 1]),
                ) ==> #[trigger] pt_cmp_s(
                    mode,
                    self.subs_at(u, sample_s(self.vknots_s(), p, q, div1 as int)),
                    other.subs_at(u, sample_s(self.vknots_s(), p, q, div1 as int)),
                ),
            decreases n1 - i1,
        {
            let delta1 = scalar::fsub(self.knot_vecs.1.knot(i1), self.knot_vecs.1.knot(i1 - 1));
            if !tolerance::so_small(delta1) {
                let df = scalar::from_int(div1);
                let mut j1: usize = 0;
                while j1 < div1
                    invariant
                        0 <= j1 <= div1,
                        1 <= i1 < n1,
                        delta1 == sub_bits(self.vknots_s()[i1 as int], self.vknots_s()[i1 - 1]),
                        !so_small_bits(delta1),
                        df == int_bits(div1 as int),
                        forall|p: int, q: int| 1 <= p < i1 && 0 <= q < div1 && !so_small_bits(
                            sub_bits(self.vknots_s()[p], self.vknots_s()[p - 1]),
                        ) ==> #[trigger] pt_cmp_s(
                            mode,
                            self.subs_at(u, sample_s(self.vknots_s(), p, q, div1 as int)),
                            other.subs_at(u, sample_s(self.vknots_s(), p, q, div1 as int)),
                        ),
                        forall|q: int| 0 <= q < j1 ==> #[trigger] pt_cmp_s(
                            mode,
                            self.subs_at(u, sample_s(self.vknots_s(), i1 as int, q, div1 as int)),
                            other.subs_at(
                                u,
                                sample_s(self.vknots_s(), i1 as int, q, div1 as int),
                            ),
                        ),
                    decreases div1 - j1,
                {
                    let v = scalar::fadd(
                        self.knot_vecs.1.knot(i1 - 1),
                        scalar::fdiv(scalar::fmul(delta1, scalar::from_int(j1)), df),
                    );
                    proof {
                        assert(v == sample_s(self.vknots_s(), i1 as int, j1 as int, div1 as int));
                    }
                    let sv = self.subs(u, v);
                    let ov = other.subs(u, v);
                    if !pt_cmp(mode, &sv, &ov) {
                        return false;
                    }
                    j1 = j1 + 1;
                }
            }
            i1 = i1 + 1;
        }
        true
    }

    /// The shared sampling comparison: `div_coef` interior samples per
    /// degree in each non-degenerate span of each axis.
    #[verifier::rlimit(100)]
    #[verifier::spinoff_prover]
    #[verifier::loop_isolation(false)]
    fn sub_near_as_surface(&self, other: &Self, div_coef: usize, mode: CmpMode) -> (r: bool)
        requires
            self.wf(),
            other.wf(),
            self.dim_s() == other.dim_s(),
            1 <= div_coef <= 2,
            self.udegree_s() <= 100_000_000,
            other.udegree_s() <= 100_000_000,
            self.vdegree_s() <= 100_000_000,
            other.vdegree_s() <= 100_000_000,
        ensures
            r == self.near_ok_s(
                other,
                (if self.udegree_s() > other.udegree_s() {
                    self.udegree_s()
                } else {
                    other.udegree_s()
                }) * div_coef,
                (if self.vdegree_s() > other.vdegree_s() {
                    self.vdegree_s()
                } else {
                    other.vdegree_s()
                }) * div_coef,
                mode,
            ),
    {
        let su = self.udegree();
        let ou = other.udegree();
        let sv = self.vdegree();
        let ov = other.vdegree();
        let md0 = if su > ou { su } else { ou };
        let md1 = if sv > ov { sv } else { ov };
        proof {
            assert(md0 * div_coef <= 100_000_000 * 2) by (nonlinear_arith)
                requires
                    md0 <= 100_000_000,
                    1 <= div_coef <= 2,
            ;
            assert(md1 * div_coef <= 100_000_000 * 2) by (nonlinear_arith)
                requires
                    md1 <= 100_000_000,
                    1 <= div_coef <= 2,
            ;
        }
        let div0 = md0 * div_coef;
        let div1 = md1 * div_coef;

        let n0s = self.knot_vecs.0.len();
        if !tolerance::near(self.knot_vecs.0.knot(0), other.knot_vecs.0.knot(0)) {
            return false;
        }
        if !tolerance::near(self.knot_vecs.0.range_length(), other.knot_vecs.0.range_length()) {
            return false;
        }
        if !tolerance::near(self.knot_vecs.1.knot(0), other.knot_vecs.1.knot(0)) {
            return false;
        }
        if !tolerance::near(self.knot_vecs.1.range_length(), other.knot_vecs.1.range_length()) {
            return false;
        }

        let mut i0: usize = 1;
        while i0 < n0s
            invariant
                1 <= i0 <= n0s,
                div0 == (if self.udegree_s() > other.udegree_s() {
                    self.udegree_s()
                } else {
                    other.udegree_s()
                }) * div_coef,
                div1 == (if self.vdegree_s() > other.vdegree_s() {
                    self.vdegree_s()
                } else {
                    other.vdegree_s()
                }) * div_coef,
                forall|p: int, q: int| 1 <= p < i0 && 0 <= q < div0 && !so_small_bits(
                    sub_bits(self.uknots_s()[p], self.uknots_s()[p - 1]),
                ) ==> #[trigger] self.line_ok_s(
                    other,
                    sample_s(self.uknots_s(), p, q, div0 as int),
                    div1 as int,
                    mode,
                ),
            decreases n0s - i0,
        {
            let delta0 = scalar::fsub(self.knot_vecs.0.knot(i0), self.knot_vecs.0.knot(i0 - 1));
            if !tolerance::so_small(delta0) {
                let df = scalar::from_int(div0);
                let mut j0: usize = 0;
                while j0 < div0
                    invariant
                        0 <= j0 <= div0,
                        1 <= i0 < n0s,
                        delta0 == sub_bits(self.uknots_s()[i0 as int], self.uknots_s()[i0 - 1]),
                        !so_small_bits(delta0),
                        df == int_bits(div0 as int),
                        div0 == (if self.udegree_s() > other.udegree_s() {
                            self.udegree_s()
                        } else {
                            other.udegree_s()
                        }) * div_coef,
                        div1 == (if self.vdegree_s() > other.vdegree_s() {
                            self.vdegree_s()
                        } else {
                            other.vdegree_s()
                        }) * div_coef,
                        forall|p: int, q: int| 1 <= p < i0 && 0 <= q < div0 && !so_small_bits(
                            sub_bits(self.uknots_s()[p], self.uknots_s()[p - 1]),
                        ) ==> #[trigger] self.line_ok_s(
                            other,
                            sample_s(self.uknots_s(), p, q, div0 as int),
                            div1 as int,
                            mode,
                        ),
                        forall|q: int| 0 <= q < j0 ==> #[trigger] self.line_ok_s(
                            other,
                            sample_s(self.uknots_s(), i0 as int, q, div0 as int),
                            div1 as int,
                            mode,
                        ),
                    decreases div0 - j0,
                {
                    let u = scalar::fadd(
                        self.knot_vecs.0.knot(i0 - 1),
                        scalar::fdiv(scalar::fmul(delta0, scalar::from_int(j0)), df),
                    );
                    proof {
                        assert(u == sample_s(self.uknots_s(), i0 as int, j0 as int, div0 as int));
                    }
                    if !self.near_on_line(other, u, div1, mode) {
                        return false;
                    }
                    j0 = j0 + 1;
                }
            }
            i0 = i0 + 1;
        }
        true
    }

    /// Sampled equality of the two surfaces up to the linear tolerance.
    pub fn near_as_surface(&self, other: &Self) -> (r: bool)
        requires
            self.wf(),
            other.wf(),
            self.dim_s() == other.dim_s(),
            self.udegree_s() <= 100_000_000,
            other.udegree_s() <= 100_000_000,
            self.vdegree_s() <= 100_000_000,
            other.vdegree_s() <= 100_000_000,
        ensures
            r == self.near_ok_s(
                other,
                if self.udegree_s() > other.udegree_s() {
                    self.udegree_s()
                } else {
                    other.udegree_s()
                },
                if self.vdegree_s() > other.vdegree_s() {
                    self.vdegree_s()
                } else {
                    other.vdegree_s()
                },
                CmpMode::Near,
            ),
    {
        self.sub_near_as_surface(other, 1, CmpMode::Near)
    }

    /// Sampled equality of the two surfaces up to the quadratic
    /// tolerance.
    pub fn near2_as_surface(&self, other: &Self) -> (r: bool)
        requires
            self.wf(),
            other.wf(),
            self.dim_s() == other.dim_s(),
            self.udegree_s() <= 100_000_000,
            other.udegree_s() <= 100_000_000,
            self.vdegree_s() <= 100_000_000,
            other.vdegree_s() <= 100_000_000,
        ensures
            r == self.near_ok_s(
                other,
                if self.udegree_s() > other.udegree_s() {
                    self.udegree_s()
                } else {
                    other.udegree_s()
                },
                if self.vdegree_s() > other.vdegree_s() {
                    self.vdegree_s()
                } else {
                    other.vdegree_s()
                },
                CmpMode::Near2,
            ),
    {
        self.sub_near_as_surface(other, 1, CmpMode::Near2)
    }

    /// Sampled equality of the rational projections up to the linear
    /// tolerance, with doubled sampling density.
    pub fn near_as_projected_surface(&self, other: &Self) -> (r: bool)
        requires
            self.wf(),
            other.wf(),
            self.dim_s() == other.dim_s(),
            self.udegree_s() <= 100_000_000,
            other.udegree_s() <= 100_000_000,
            self.vdegree_s() <= 100_000_000,
            other.vdegree_s() <= 100_000_000,
        ensures
            r == self.near_ok_s(
                other,
                2 * (if self.udegree_s() > other.udegree_s() {
                    self.udegree_s()
                } else {
                    other.udegree_s()
                }),
                2 * (if self.vdegree_s() > other.vdegree_s() {
                    self.vdegree_s()
                } else {
                    other.vdegree_s()
                }),
                CmpMode::ProjNear,
            ),
    {
        self.sub_near_as_surface(other, 2, CmpMode::ProjNear)
    }

    /// Sampled equality of the rational projections up to the quadratic
    /// tolerance, with doubled sampling density.
    pub fn near2_as_projected_surface(&self, other: &Self) -> (r: bool)
        requires
            self.wf(),
            other.wf(),
            self.dim_s() == other.dim_s(),
            self.udegree_s() <= 100_000_000,
            other.udegree_s() <= 100_000_000,
            self.vdegree_s() <= 100_000_000,
            other.vdegree_s() <= 100_000_000,
        ensures
            r == self.near_ok_s(
                other,
                2 * (if self.udegree_s() > other.udegree_s() {
                    self.udegree_s()
                } else {
                    other.udegree_s()
                }),
                2 * (if self.vdegree_s() > other.vdegree_s() {
                    self.vdegree_s()
                } else {
                    other.vdegree_s()
                }),
                CmpMode::ProjNear2,
            ),
    {
        self.sub_near_as_surface(other, 2, CmpMode::ProjNear2)
    }
}

impl BSplineSurface {
    /// The linear loft of two curves that already share their knot
    /// vector: u knots from the curves, v knots `[0, 0, 1, 1]`, and
    /// control rows `[c0_i, c1_i]`.
    #[verifier::rlimit(100)]
    #[verifier::spinoff_prover]
    #[verifier::loop_isolation(false)]
    pub fn loft(c0: &BSplineCurve, c1: &BSplineCurve) -> (r: BSplineSurface)
        requires
            c0.wf(),
            c1.wf(),
            c0.knots_s() == c1.knots_s(),
            c0.pts_s().len() == c1.pts_s().len(),
            c0.dim_s() == c1.dim_s(),
        ensures
            r.uknots_s() == c0.knots_s(),
            r.vknots_s() == seq![0u64, 0u64, ONE_BITS, ONE_BITS],
            r.net_s() == Seq::new(c0.pts_s().len(), |i: int| seq![c0.pts_s()[i], c1.pts_s()[i]]),
            r.wf(),
            r.dim_s() == c0.dim_s(),
            r.rows_s() == c0.pts_s().len(),
            r.cols_s() == 2,
    {
        let n = c0.ctrl_len();
        let mut net: Vec<Vec<Vec<u64>>> = Vec::new();
        let mut i: usize = 0;
        while i < n
            invariant
                i <= n,
                net@.len() == i,
                forall|j: int| 0 <= j < i ==> #[trigger] net_of(net@[j]) == seq![
                    c0.pts_s()[j],
                    c1.pts_s()[j],
                ],
            decreases n - i,
        {
            let mut row: Vec<Vec<u64>> = Vec::new();
            row.push(vector::copy_pt(c0.control_point(i)));
            row.push(vector::copy_pt(c1.control_point(i)));
            proof {
                assert(net_of(row) =~= seq![c0.pts_s()[i as int], c1.pts_s()[i as int]]);
            }
            net.push(row);
            i = i + 1;
        }
        let vkv = loft_vknots();
        proof {
            let target = Seq::new(c0.pts_s().len(), |j: int| seq![c0.pts_s()[j], c1.pts_s()[j]]);
            assert forall|j: int| 0 <= j < net3_of(net).len() implies #[trigger] net3_of(net)[j]
                == target[j] by {
                assert(net3_of(net)[j] == net_of(net@[j]));
            }
            assert(net3_of(net) =~= target);
            assert forall|p: int, q: int| 0 <= p < net3_of(net).len() && 0 <= q < 2 implies (
            #[trigger] net3_of(net)[p][q]).len() == c0.dim_s() by {
                assert(net3_of(net)[p] == target[p]);
            }
        }
        BSplineSurface { knot_vecs: (c0.knot_vec().duplicate(), vkv), control_points: net }
    }

    /// The linear loft of two arbitrary curves: their degrees and knot
    /// vectors are first synchronized; fails only when a synchronization
    /// step was refused.
    pub fn homotopy(c0: BSplineCurve, c1: BSplineCurve) -> (r: Result<BSplineSurface, Error>)
        requires
            c0.wf(),
            c1.wf(),
            c0.dim_s() == c1.dim_s(),
        ensures
            match r {
                Ok(s) => s.wf() && s.dim_s() == c0.dim_s() && s.cols_s() == 2
                    && s.vknots_s() == seq![0u64, 0u64, ONE_BITS, ONE_BITS]
                    && exists|kn: Seq<u64>, ap: Seq<Seq<u64>>, bp: Seq<Seq<u64>>|
                    #[trigger] loft_shape(s.uknots_s(), s.net_s(), kn, ap, bp),
                Err(e) => e == Error::IrregularControlPoints,
            },
            c0.knots_s() == c1.knots_s() && c0.degree_s() == c1.degree_s() && (forall|i: int|
                !#[trigger] c0.rm_ok(i)) && (forall|i: int| !#[trigger] c1.rm_ok(i))
                && c0.knots_s()[0] == 0u64 && c0.knots_s()[c0.knots_s().len() - 1] == ONE_BITS
                ==> r is Ok && r->Ok_0.uknots_s() == c0.knots_s() && r->Ok_0.net_s()
                == Seq::new(c0.pts_s().len(), |i: int| seq![c0.pts_s()[i], c1.pts_s()[i]]),
    {
        let ghost hyp = c0.knots_s() == c1.knots_s() && c0.degree_s() == c1.degree_s() && (
        forall|i: int| !#[trigger] c0.rm_ok(i)) && (forall|i: int| !#[trigger] c1.rm_ok(i))
            && c0.knots_s()[0] == 0u64 && c0.knots_s()[c0.knots_s().len() - 1] == ONE_BITS;
        let mut a = c0;
        let mut b = c1;
        if !a.syncro_degree(&mut b) {
            return Err(Error::IrregularControlPoints);
        }
        a.optimize();
        b.optimize();
        if !a.syncro_knot(&mut b) {
            proof {
                if hyp {
                    assert(false);
                }
            }
            return Err(Error::IrregularControlPoints);
        }
        if a.degree() != b.degree() {
            proof {
                if hyp {
                    assert(false);
                }
            }
            return Err(Error::IrregularControlPoints);
        }
        let s = Self::loft(&a, &b);
        proof {
            assert(loft_shape(s.uknots_s(), s.net_s(), a.knots_s(), a.pts_s(), b.pts_s()));
            if hyp {
                assert(a.knots_s() == c0.knots_s());
                assert(a.pts_s() == c0.pts_s());
                assert(b.pts_s() == c1.pts_s());
                assert(s.net_s() =~= Seq::new(c0.pts_s().len(), |i: int| seq![
                    c0.pts_s()[i],
                    c1.pts_s()[i],
                ]));
            }
        }
        Ok(s)
    }

    /// The Coons-style fill of four boundary curves traversing the
    /// boundary in order: the third and fourth curves are inverted so
    /// that opposite edges share orientation, opposite pairs are
    /// co-refined, the boundary rows and columns are taken verbatim
    /// from the edges, and each interior control point is the midpoint
    /// of the two linear interpolations between its opposite edges.
    #[verifier::rlimit(100)]
    #[verifier::spinoff_prover]
    #[verifier::loop_isolation(false)]
    pub fn by_boundary(
        curve0: BSplineCurve,
        curve1: BSplineCurve,
        curve2: BSplineCurve,
        curve3: BSplineCurve,
    ) -> (r: Result<BSplineSurface, Error>)
        requires
            curve0.wf(),
            curve1.wf(),
            curve2.wf(),
            curve3.wf(),
            curve0.dim_s() == curve1.dim_s(),
            curve0.dim_s() == curve2.dim_s(),
            curve0.dim_s() == curve3.dim_s(),
        ensures
            r is Ok ==> {
                let s = r->Ok_0;
                &&& s.wf()
                &&& s.dim_s() == curve0.dim_s()
                &&& exists|
                    ukn: Seq<u64>,
                    vkn: Seq<u64>,
                    ap: Seq<Seq<u64>>,
                    bp: Seq<Seq<u64>>,
                    cp: Seq<Seq<u64>>,
                    dp: Seq<Seq<u64>>,
                |
                    #[trigger] coons_shape(
                        s.uknots_s(),
                        s.vknots_s(),
                        s.net_s(),
                        ukn,
                        vkn,
                        ap,
                        bp,
                        cp,
                        dp,
                    )
            },
            by_boundary_synced(curve0, curve1, curve2, curve3) ==> r is Ok
                && r->Ok_0.uknots_s() == curve0.knots_s() && r->Ok_0.vknots_s()
                == curve1.knots_s() && r->Ok_0.net_s() == coons_net_s(
                curve0.pts_s(),
                curve1.pts_s(),
                rev_s(curve2.pts_s()),
                rev_s(curve3.pts_s()),
            ),
    {
        let ghost hyp = by_boundary_synced(curve0, curve1, curve2, curve3);
        let mut c0 = curve0;
        let mut c1 = curve1;
        let mut c2 = curve2;
        let mut c3 = curve3;
        proof {
            if hyp {
                assert forall|q: int| !#[trigger] curve0.rm_ok(q) by {}
                assert forall|q: int| !#[trigger] curve1.rm_ok(q) by {}
            }
        }
        let _ = c2.invert();
        let _ = c3.invert();
        proof {
            if hyp {
                assert(c2.knots_s() == reflected_s(curve2.knots_s()));
                assert(c2.pts_s() == rev_s(curve2.pts_s()));
                assert(c3.knots_s() == reflected_s(curve3.knots_s()));
                assert(c3.pts_s() == rev_s(curve3.pts_s()));
                assert forall|q: int| !#[trigger] c2.rm_ok(q) by {
                    assert(!rm_ok_at(reflected_s(curve2.knots_s()), rev_s(curve2.pts_s()), q));
                }
                assert forall|q: int| !#[trigger] c3.rm_ok(q) by {
                    assert(!rm_ok_at(reflected_s(curve3.knots_s()), rev_s(curve3.pts_s()), q));
                }
            }
        }
        let ghost c2i = c2;
        let ghost c3i = c3;
        if !c0.syncro_degree(&mut c2) {
            proof {
                if hyp {
                    assert(false);
                }
            }
            return Err(Error::IrregularControlPoints);
        }
        c0.optimize();
        c2.optimize();
        proof {
            if hyp {
                assert(c0 == curve0);
                assert(c2 == c2i);
            }
        }
        if !c0.syncro_knot(&mut c2) {
            proof {
                if hyp {
                    assert(false);
                }
            }
            return Err(Error::IrregularControlPoints);
        }
        proof {
            if hyp {
                assert(c0.knots_s() == curve0.knots_s());
                assert(c0.pts_s() == curve0.pts_s());
                assert(c2.knots_s() == c2i.knots_s());
                assert(c2.pts_s() == c2i.pts_s());
            }
        }
        if !c1.syncro_degree(&mut c3) {
            proof {
                if hyp {
                    assert(false);
                }
            }
            return Err(Error::IrregularControlPoints);
        }
        c1.optimize();
        c3.optimize();
        proof {
            if hyp {
                assert(c1 == curve1);
                assert(c3 == c3i);
            }
        }
        if !c1.syncro_knot(&mut c3) {
            proof {
                if hyp {
                    assert(false);
                }
            }
            return Err(Error::IrregularControlPoints);
        }
        proof {
            if hyp {
                assert(c1.knots_s() == curve1.knots_s());
                assert(c1.pts_s() == curve1.pts_s());
                assert(c3.knots_s() == c3i.knots_s());
                assert(c3.pts_s() == c3i.pts_s());
            }
        }
        let n = c0.ctrl_len();
        let m = c3.ctrl_len();
        if c2.ctrl_len() != n || c1.ctrl_len() != m {
            proof {
                if hyp {
                    assert(false);
                }
            }
            return Err(Error::IrregularControlPoints);
        }
        if n < 2 || m < 2 {
            proof {
                if hyp {
                    assert(false);
                }
            }
            return Err(Error::IrregularControlPoints);
        }
        let dim = c0.dim();

        let nf = scalar::from_int(n);
        let mf = scalar::from_int(m);
        let mut net: Vec<Vec<Vec<u64>>> = Vec::new();
        net.push(vector::copy_net(c3.control_points()));
        proof {
            assert forall|q: int| 0 <= q < m implies (#[trigger] net@[0]@[q]@).len() == dim by {
                assert(net_of(net@[0])[q] == net@[0]@[q]@);
            }
        }
        let mut i: usize = 1;
        while i < n - 1
            invariant
                1 <= i <= n - 1,
                net@.len() == i,
                n == c0.pts_s().len(),
                n == c2.pts_s().len(),
                m == c3.pts_s().len(),
                m == c1.pts_s().len(),
                c0.wf() && c1.wf() && c2.wf() && c3.wf(),
                c0.dim_s() == dim && c1.dim_s() == dim && c2.dim_s() == dim && c3.dim_s()
                    == dim,
                forall|p: int| 0 <= p < i ==> net@[p]@.len() == m,
                forall|p: int, q: int| 0 <= p < i && 0 <= q < m ==> (
                #[trigger] net@[p]@[q]@).len() == dim,
                net_of(net@[0]) == c3.pts_s(),
                forall|p: int| 1 <= p < i ==> #[trigger] net_of(net@[p]) == coons_row_s(
                    c0.pts_s(),
                    c1.pts_s(),
                    c2.pts_s(),
                    c3.pts_s(),
                    n as int,
                    m as int,
                    p,
                ),
            decreases n - 1 - i,
        {
            let u = scalar::fdiv(scalar::from_int(i), nf);
            let one_minus_u = scalar::fsub(ONE_BITS, u);
            let pt0 = vector::vadd(
                &vector::smul(u, c0.control_point(i)),
                &vector::smul(one_minus_u, c2.control_point(i)),
            );
            let mut row: Vec<Vec<u64>> = Vec::new();
            row.push(vector::copy_pt(c0.control_point(i)));
            let mut j: usize = 1;
            while j < m - 1
                invariant
                    1 <= j <= m - 1,
                    row@.len() == j,
                    1 <= i < n,
                    n == c0.pts_s().len(),
                    n == c2.pts_s().len(),
                    m == c3.pts_s().len(),
                    m == c1.pts_s().len(),
                    c1.wf() && c3.wf(),
                    c1.dim_s() == dim && c3.dim_s() == dim,
                    pt0@.len() == dim,
                    pt0@ == vadd_s(
                        smul_s(div_bits(int_bits(i as int), int_bits(n as int)), c0.pts_s()[
                        i as int]),
                        smul_s(
                            sub_bits(
                                ONE_BITS,
                                div_bits(int_bits(i as int), int_bits(n as int)),
                            ),
                            c2.pts_s()[i as int],
                        ),
                    ),
                    row@[0]@ == c0.pts_s()[i as int],
                    forall|q: int| 0 <= q < j ==> (#[trigger] row@[q]@).len() == dim,
                    forall|q: int| 1 <= q < j ==> #[trigger] row@[q]@ == coons_mid(
                        c0.pts_s(),
                        c1.pts_s(),
                        c2.pts_s(),
                        c3.pts_s(),
                        n as int,
                        m as int,
                        i as int,
                        q,
                    ),
                decreases m - 1 - j,
            {
                let v = scalar::fdiv(scalar::from_int(j), mf);
                let one_minus_v = scalar::fsub(ONE_BITS, v);
                let pt1 = vector::vadd(
                    &vector::smul(v, c3.control_point(j)),
                    &vector::smul(one_minus_v, c1.control_point(j)),
                );
                row.push(vector::sdiv(&vector::vadd(&pt0, &pt1), TWO_BITS));
                j = j + 1;
            }
            row.push(vector::copy_pt(c2.control_point(i)));
            proof {
                assert forall|q: int| 0 <= q < net_of(row).len() implies #[trigger] net_of(row)[
                q] == coons_row_s(
                    c0.pts_s(),
                    c1.pts_s(),
                    c2.pts_s(),
                    c3.pts_s(),
                    n as int,
                    m as int,
                    i as int,
                )[q] by {
                    assert(net_of(row)[q] == row@[q]@);
                }
                assert(net_of(row) =~= coons_row_s(
                    c0.pts_s(),
                    c1.pts_s(),
                    c2.pts_s(),
                    c3.pts_s(),
                    n as int,
                    m as int,
                    i as int,
                ));
            }
            net.push(row);
            i = i + 1;
        }
        net.push(vector::copy_net(c1.control_points()));
        proof {
            let target = coons_net_s(c0.pts_s(), c1.pts_s(), c2.pts_s(), c3.pts_s());
            assert forall|p: int| 0 <= p < net3_of(net).len() implies #[trigger] net3_of(net)[p]
                == target[p] by {
                assert(net3_of(net)[p] == net_of(net@[p]));
            }
            assert(net3_of(net) =~= target);
        }
        let kv0 = c0.knot_vec().duplicate();
        let kv1 = c3.knot_vec().duplicate();
        let r = Self::try_new((kv0, kv1), net);
        proof {
            if r is Ok {
                let s = r->Ok_0;
                assert(coons_shape(
                    s.uknots_s(),
                    s.vknots_s(),
                    s.net_s(),
                    c0.knots_s(),
                    c3.knots_s(),
                    c0.pts_s(),
                    c1.pts_s(),
                    c2.pts_s(),
                    c3.pts_s(),
                ));
            }
            if hyp {
                assert(r is Ok);
            }
        }
        r
    }
}

/// The surface has the structure of a linear loft: its u knots are the
/// well-formed knot sequence `kn` shared by two equal-length control
/// sequences `ap` and `bp`, and control row `i` is `[ap[i], bp[i]]`.
pub open spec fn loft_shape(
    ukn: Seq<u64>,
    net: Seq<Seq<Seq<u64>>>,
    kn: Seq<u64>,
    ap: Seq<Seq<u64>>,
    bp: Seq<Seq<u64>>,
) -> bool {
    &&& knots_wf(kn)
    &&& ap.len() == bp.len()
    &&& kn.len() > ap.len()
    &&& ukn == kn
    &&& net == Seq::new(ap.len(), |i: int| seq![ap[i], bp[i]])
}

/// The four boundary curves are already co-refined for the fill: the
/// far edges reflect exactly onto the near edges' knot vectors, the
/// paired degrees match, no knot removal is accepted on any of them,
/// the near edges' knot vectors run exactly from zero to one with a
/// range above the linear tolerance, and both control extents are at
/// least two.
pub open spec fn by_boundary_synced(
    c0: BSplineCurve,
    c1: BSplineCurve,
    c2: BSplineCurve,
    c3: BSplineCurve,
) -> bool {
    &&& knots_wf(reflected_s(c2.knots_s()))
    &&& knots_wf(reflected_s(c3.knots_s()))
    &&& reflected_s(c2.knots_s()) == c0.knots_s()
    &&& reflected_s(c3.knots_s()) == c1.knots_s()
    &&& c0.degree_s() == c2.degree_s()
    &&& c1.degree_s() == c3.degree_s()
    &&& forall|i: int| !#[trigger] c0.rm_ok(i)
    &&& forall|i: int| !#[trigger] c1.rm_ok(i)
    &&& forall|i: int| !#[trigger] bspcurve::rm_ok_at(
        reflected_s(c2.knots_s()),
        rev_s(c2.pts_s()),
        i,
    )
    &&& forall|i: int| !#[trigger] bspcurve::rm_ok_at(
        reflected_s(c3.knots_s()),
        rev_s(c3.pts_s()),
        i,
    )
    &&& c0.knots_s()[0] == 0u64
    &&& c0.knots_s()[c0.knots_s().len() - 1] == ONE_BITS
    &&& c1.knots_s()[0] == 0u64
    &&& c1.knots_s()[c1.knots_s().len() - 1] == ONE_BITS
    &&& !so_small_bits(sub_bits(c0.knots_s()[c0.knots_s().len() - 1], c0.knots_s()[0]))
    &&& !so_small_bits(sub_bits(c1.knots_s()[c1.knots_s().len() - 1], c1.knots_s()[0]))
    &&& c0.pts_s().len() >= 2
    &&& c3.pts_s().len() >= 2
}

/// The interior Coons point at `(i, j)`: the midpoint of the two
/// linear interpolations between the opposite edge pairs, with
/// `u = i/n` and `v = j/m` in rounded arithmetic.
pub open spec fn coons_mid(
    ap: Seq<Seq<u64>>,
    bp: Seq<Seq<u64>>,
    cp: Seq<Seq<u64>>,
    dp: Seq<Seq<u64>>,
    n: int,
    m: int,
    i: int,
    j: int,
) -> Seq<u64> {
    let u = div_bits(int_bits(i), int_bits(n));
    let v = div_bits(int_bits(j), int_bits(m));
    let p0 = vadd_s(smul_s(u, ap[i]), smul_s(sub_bits(ONE_BITS, u), cp[i]));
    let p1 = vadd_s(smul_s(v, dp[j]), smul_s(sub_bits(ONE_BITS, v), bp[j]));
    sdiv_s(vadd_s(p0, p1), TWO_BITS)
}

/// An interior row of the Coons fill: the edge points verbatim at the
/// ends, the midpoint blend between them.
pub open spec fn coons_row_s(
    ap: Seq<Seq<u64>>,
    bp: Seq<Seq<u64>>,
    cp: Seq<Seq<u64>>,
    dp: Seq<Seq<u64>>,
    n: int,
    m: int,
    i: int,
) -> Seq<Seq<u64>> {
    Seq::new(
        m as nat,
        |j: int| if j == 0 {
            ap[i]
        } else if j == m - 1 {
            cp[i]
        } else {
            coons_mid(ap, bp, cp, dp, n, m, i, j)
        },
    )
}

/// The full Coons control net over four co-refined edges `ap` (first
/// column), `bp` (last row), `cp` (last column) and `dp` (first row).
pub open spec fn coons_net_s(
    ap: Seq<Seq<u64>>,
    bp: Seq<Seq<u64>>,
    cp: Seq<Seq<u64>>,
    dp: Seq<Seq<u64>>,
) -> Seq<Seq<Seq<u64>>> {
    let n = ap.len() as int;
    let m = dp.len() as int;
    Seq::new(
        n as nat,
        |i: int| if i == 0 {
            dp
        } else if i == n - 1 {
            bp
        } else {
            coons_row_s(ap, bp, cp, dp, n, m, i)
        },
    )
}

/// The surface has the structure of a Coons fill: two well-formed knot
/// vectors longer than the net extents, four co-refined edge control
/// sequences, and the blended net built from them.
pub open spec fn coons_shape(
    s_ukn: Seq<u64>,
    s_vkn: Seq<u64>,
    s_net: Seq<Seq<Seq<u64>>>,
    ukn: Seq<u64>,
    vkn: Seq<u64>,
    ap: Seq<Seq<u64>>,
    bp: Seq<Seq<u64>>,
    cp: Seq<Seq<u64>>,
    dp: Seq<Seq<u64>>,
) -> bool {
    &&& knots_wf(ukn)
    &&& knots_wf(vkn)
    &&& ap.len() == cp.len()
    &&& bp.len() == dp.len()
    &&& ap.len() >= 2
    &&& dp.len() >= 2
    &&& ukn.len() > ap.len()
    &&& vkn.len() > dp.len()
    &&& s_ukn == ukn
    &&& s_vkn == vkn
    &&& s_net == coons_net_s(ap, bp, cp, dp)
}

/// The fixed degree-one v knot vector of a loft: `[0, 0, 1, 1]`.
fn loft_vknots() -> (r: KnotVec)
    ensures
        r@ == seq![0u64, 0u64, ONE_BITS, ONE_BITS],
        r.wf(),
{
    let mut v: Vec<u64> = Vec::new();
    v.push(0u64);
    v.push(0u64);
    v.push(ONE_BITS);
    v.push(ONE_BITS);
    proof {
        assert(v@ =~= seq![0u64, 0u64, ONE_BITS, ONE_BITS]);
        assert(le_bits(0u64, 0u64));
        assert(le_bits(0u64, ONE_BITS));
        assert(le_bits(ONE_BITS, ONE_BITS));
        assert(lt_bits(0u64, ONE_BITS));
        assert forall|q: int| 0 <= q < v@.len() - 1 implies le_bits(#[trigger] v@[q], v@[q + 1])
            by {}
    }
    KnotVec::new_unchecked(v)
}

/// The evaluation of a control net over two knot sequences, with the
/// degrees read off from the lengths.
pub open spec fn eval_net_s(
    ukn: Seq<u64>,
    vkn: Seq<u64>,
    net: Seq<Seq<Seq<u64>>>,
    u: u64,
    v: u64,
) -> Seq<u64> {
    surf_sum_s(
        net,
        basis_s(ukn, (ukn.len() - net.len() - 1) as nat, u),
        basis_s(vkn, (vkn.len() - net[0].len() - 1) as nat, v),
        net[0][0].len(),
        net[0].len() as int,
        net.len() as int,
        0,
    )
}

impl BSplineSurface {
    /// The control net of the u derivative.
    pub open spec fn uderiv_net_s(&self) -> Seq<Seq<Seq<u64>>> {
        if self.udegree_s() > 0 {
            Seq::new(
                (self.rows_s() + 1) as nat,
                |i: int| uderiv_row_s(self.net_s(), self.uknots_s(), self.udegree_s(), i),
            )
        } else {
            zero_net_s(self.rows_s(), self.cols_s(), self.dim_s())
        }
    }

    /// The control net of the v derivative.
    pub open spec fn vderiv_net_s(&self) -> Seq<Seq<Seq<u64>>> {
        if self.vdegree_s() > 0 {
            Seq::new(
                self.rows_s(),
                |i: int| deriv_pts_s(self.net_s()[i], self.vknots_s(), self.vdegree_s()),
            )
        } else {
            zero_net_s(self.rows_s(), self.cols_s(), self.dim_s())
        }
    }

    /// The unit normal of a three-dimensional surface at `(u, v)`: the
    /// cross product of the two derivative evaluations, divided by its
    /// Euclidean norm.
    pub open spec fn normal_at(&self, u: u64, v: u64) -> Seq<u64> {
        let d0 = eval_net_s(self.uknots_s(), self.vknots_s(), self.uderiv_net_s(), u, v);
        let d1 = eval_net_s(self.uknots_s(), self.vknots_s(), self.vderiv_net_s(), u, v);
        let c = cross_s(d0, d1);
        sdiv_s(c, sqrt_bits(dot_s(c, c, 3)))
    }

    /// The unit normal of a rational surface at `(u, v)`: the two
    /// projective derivatives are first turned into Euclidean ones by
    /// the rational quotient rule, then crossed and normalized.
    pub open spec fn rational_normal_at(&self, u: u64, v: u64) -> Seq<u64> {
        let pt = self.subs_at(u, v);
        let d0 = eval_net_s(self.uknots_s(), self.vknots_s(), self.uderiv_net_s(), u, v);
        let d1 = eval_net_s(self.uknots_s(), self.vknots_s(), self.vderiv_net_s(), u, v);
        let c = cross_s(rat_der_s(pt, d0), rat_der_s(pt, d1));
        sdiv_s(c, sqrt_bits(dot_s(c, c, 3)))
    }

    /// The unit normal vector at the parameter `(u, v)`.
    #[verifier::rlimit(100)]
    #[verifier::spinoff_prover]
    pub fn normal_vector(&self, u: u64, v: u64) -> (r: Vec<u64>)
        requires
            self.wf(),
            self.dim_s() == 3,
        ensures
            r@ == self.normal_at(u, v),
            r@.len() == 3,
    {
        let du = self.uderivation();
        let dv = self.vderivation();
        let d0 = du.subs(u, v);
        let d1 = dv.subs(u, v);
        proof {
            assert(du.net_s() == self.uderiv_net_s());
            assert(dv.net_s() == self.vderiv_net_s());
            assert(d0@ == eval_net_s(
                self.uknots_s(),
                self.vknots_s(),
                self.uderiv_net_s(),
                u,
                v,
            ));
            assert(d1@ == eval_net_s(
                self.uknots_s(),
                self.vknots_s(),
                self.vderiv_net_s(),
                u,
                v,
            ));
        }
        let c = vector::vcross(&d0, &d1);
        let nm = vector::vnorm(&c);
        vector::sdiv(&c, nm)
    }

    /// The unit normal vectors at each parameter pair.
    #[verifier::loop_isolation(false)]
    pub fn normal_vectors(&self, params: &Vec<(u64, u64)>) -> (r: Vec<Vec<u64>>)
        requires
            self.wf(),
            self.dim_s() == 3,
        ensures
            r@.len() == params@.len(),
            forall|i: int| 0 <= i < r@.len() ==> #[trigger] r@[i]@ == self.normal_at(
                params@[i].0,
                params@[i].1,
            ),
    {
        let n = params.len();
        let mut r: Vec<Vec<u64>> = Vec::new();
        let mut i: usize = 0;
        while i < n
            invariant
                i <= n,
                r@.len() == i,
                forall|j: int| 0 <= j < i ==> #[trigger] r@[j]@ == self.normal_at(
                    params@[j].0,
                    params@[j].1,
                ),
            decreases n - i,
        {
            let (u, v) = params[i];
            r.push(self.normal_vector(u, v));
            i = i + 1;
        }
        r
    }

    /// The unit normal vector of a rational surface at `(u, v)`.
    #[verifier::rlimit(100)]
    #[verifier::spinoff_prover]
    pub fn rational_normal_vector(&self, u: u64, v: u64) -> (r: Vec<u64>)
        requires
            self.wf(),
            self.dim_s() == 4,
        ensures
            r@ == self.rational_normal_at(u, v),
            r@.len() == 3,
    {
        let pt = self.subs(u, v);
        let du = self.uderivation();
        let dv = self.vderivation();
        let d0 = du.subs(u, v);
        let d1 = dv.subs(u, v);
        proof {
            assert(du.net_s() == self.uderiv_net_s());
            assert(dv.net_s() == self.vderiv_net_s());
            assert(d0@ == eval_net_s(
                self.uknots_s(),
                self.vknots_s(),
                self.uderiv_net_s(),
                u,
                v,
            ));
            assert(d1@ == eval_net_s(
                self.uknots_s(),
                self.vknots_s(),
                self.vderiv_net_s(),
                u,
                v,
            ));
        }
        let v0 = vector::rational_derivation(&pt, &d0);
        let v1 = vector::rational_derivation(&pt, &d1);
        let c = vector::vcross(&v0, &v1);
        let nm = vector::vnorm(&c);
        vector::sdiv(&c, nm)
    }

    /// The unit normal vectors of a rational surface at each parameter
    /// pair.
    #[verifier::loop_isolation(false)]
    pub fn rational_normal_vectors(&self, params: &Vec<(u64, u64)>) -> (r: Vec<Vec<u64>>)
        requires
            self.wf(),
            self.dim_s() == 4,
        ensures
            r@.len() == params@.len(),
            forall|i: int| 0 <= i < r@.len() ==> #[trigger] r@[i]@ == self.rational_normal_at(
                params@[i].0,
                params@[i].1,
            ),
    {
        let n = params.len();
        let mut r: Vec<Vec<u64>> = Vec::new();
        let mut i: usize = 0;
        while i < n
            invariant
                i <= n,
                r@.len() == i,
                forall|j: int| 0 <= j < i ==> #[trigger] r@[j]@ == self.rational_normal_at(
                    params@[j].0,
                    params@[j].1,
                ),
            decreases n - i,
        {
            let (u, v) = params[i];
            r.push(self.rational_normal_vector(u, v));
            i = i + 1;
        }
        r
    }

    /// A cursor over the control points of one column, walking the
    /// rows: the points `P[0][column_idx], P[1][column_idx], ...`.
    pub fn ctrl_pts_row_iter(&self, column_idx: usize) -> (r: CPRowIter)
        requires
            self.wf(),
            column_idx < self.cols_s(),
        ensures
            r.iter_wf(),
            r.remaining_s() == Seq::new(self.rows_s(), |i: int| self.net_s()[i][
            column_idx as int]),
    {
        let rows = self.control_points.len();
        let mut items: Vec<Vec<u64>> = Vec::new();
        let mut i: usize = 0;
        #[verifier::loop_isolation(false)]
        while i < rows
            invariant
                i <= rows,
                items@.len() == i,
                forall|p: int| 0 <= p < i ==> #[trigger] items@[p]@ == self.net_s()[p][
                column_idx as int],
            decreases rows - i,
        {
            proof {
                assert(self.net_s()[i as int] == net_of(self.control_points@[i as int]));
                assert(self.net_s()[i as int][column_idx as int]
                    == self.control_points@[i as int]@[column_idx as int]@);
            }
            items.push(vector::copy_pt(&self.control_points[i][column_idx]));
            i = i + 1;
        }
        let back = items.len();
        proof {
            assert(net_of(items) =~= Seq::new(self.rows_s(), |p: int| self.net_s()[p][
            column_idx as int]));
        }
        CPRowIter { items, front: 0, back }
    }

    /// A cursor over the control points of one row, walking the
    /// columns: the points `P[row_idx][0], P[row_idx][1], ...`.
    pub fn ctrl_pts_column_iter(&self, row_idx: usize) -> (r: CPColumnIter)
        requires
            self.wf(),
            row_idx < self.rows_s(),
        ensures
            r.iter_wf(),
            r.remaining_s() == self.net_s()[row_idx as int],
    {
        proof {
            assert(self.net_s()[row_idx as int] == net_of(self.control_points@[row_idx as int]));
        }
        let items = vector::copy_net(&self.control_points[row_idx]);
        let back = items.len();
        CPColumnIter { items, front: 0, back }
    }
}

/// A cursor over the control points of one column of a surface.
pub struct CPRowIter {
    items: Vec<Vec<u64>>,
    front: usize,
    back: usize,
}

impl CPRowIter {
    /// The points not yet handed out.
    pub closed spec fn remaining_s(&self) -> Seq<Seq<u64>> {
        net_of(self.items).subrange(self.front as int, self.back as int)
    }

    /// A cursor invariant: the window lies inside the items.
    pub closed spec fn iter_wf(&self) -> bool {
        self.front <= self.back <= self.items@.len()
    }

    /// The next point from the front, if any.
    pub fn next(&mut self) -> (r: Option<Vec<u64>>)
        requires
            old(self).iter_wf(),
        ensures
            final(self).iter_wf(),
            old(self).remaining_s().len() == 0 ==> r is None && final(self).remaining_s()
                == old(self).remaining_s(),
            old(self).remaining_s().len() > 0 ==> r is Some && r->Some_0@ == old(
                self,
            ).remaining_s()[0] && final(self).remaining_s() == old(self).remaining_s().subrange(
                1,
                old(self).remaining_s().len() as int,
            ),
    {
        if self.front < self.back {
            let r = vector::copy_pt(&self.items[self.front]);
            let ghost orem = self.remaining_s();
            self.front = self.front + 1;
            proof {
                assert(net_of(self.items)[old(self).front as int] == self.items@[old(
                    self,
                ).front as int]@);
                assert(self.remaining_s() =~= orem.subrange(1, orem.len() as int));
                assert(r@ == orem[0]);
            }
            Some(r)
        } else {
            None
        }
    }

    /// The next point from the back, if any.
    pub fn next_back(&mut self) -> (r: Option<Vec<u64>>)
        requires
            old(self).iter_wf(),
        ensures
            final(self).iter_wf(),
            old(self).remaining_s().len() == 0 ==> r is None && final(self).remaining_s()
                == old(self).remaining_s(),
            old(self).remaining_s().len() > 0 ==> r is Some && r->Some_0@ == old(
                self,
            ).remaining_s()[old(self).remaining_s().len() - 1] && final(self).remaining_s()
                == old(self).remaining_s().subrange(0, old(self).remaining_s().len() - 1),
    {
        if self.front < self.back {
            let r = vector::copy_pt(&self.items[self.back - 1]);
            let ghost orem = self.remaining_s();
            self.back = self.back - 1;
            proof {
                assert(net_of(self.items)[self.back as int] == self.items@[self.back as int]@);
                assert(self.remaining_s() =~= orem.subrange(0, orem.len() - 1));
                assert(r@ == orem[orem.len() - 1]);
            }
            Some(r)
        } else {
            None
        }
    }

    /// The number of points not yet handed out, exactly.
    pub fn len(&self) -> (r: usize)
        requires
            self.iter_wf(),
        ensures
            r == self.remaining_s().len(),
    {
        self.back - self.front
    }

    /// The lower and upper size bounds; both are the exact length.
    pub fn size_hint(&self) -> (r: (usize, Option<usize>))
        requires
            self.iter_wf(),
        ensures
            r.0 == self.remaining_s().len(),
            r.1 == Some(r.0),
    {
        let l = self.back - self.front;
        (l, Some(l))
    }

    /// The number of points not yet handed out, consuming the cursor.
    pub fn count(self) -> (r: usize)
        requires
            self.iter_wf(),
        ensures
            r == self.remaining_s().len(),
    {
        self.back - self.front
    }
}

/// A cursor over the control points of one row of a surface.
pub struct CPColumnIter {
    items: Vec<Vec<u64>>,
    front: usize,
    back: usize,
}

impl CPColumnIter {
    /// The points not yet handed out.
    pub closed spec fn remaining_s(&self) -> Seq<Seq<u64>> {
        net_of(self.items).subrange(self.front as int, self.back as int)
    }

    /// A cursor invariant: the window lies inside the items.
    pub closed spec fn iter_wf(&self) -> bool {
        self.front <= self.back <= self.items@.len()
    }

    /// The next point from the front, if any.
    pub fn next(&mut self) -> (r: Option<Vec<u64>>)
        requires
            old(self).iter_wf(),
        ensures
            final(self).iter_wf(),
            old(self).remaining_s().len() == 0 ==> r is None && final(self).remaining_s()
                == old(self).remaining_s(),
            old(self).remaining_s().len() > 0 ==> r is Some && r->Some_0@ == old(
                self,
            ).remaining_s()[0] && final(self).remaining_s() == old(self).remaining_s().subrange(
                1,
                old(self).remaining_s().len() as int,
            ),
    {
        if self.front < self.back {
            let r = vector::copy_pt(&self.items[self.front]);
            let ghost orem = self.remaining_s();
            self.front = self.front + 1;
            proof {
                assert(net_of(self.items)[old(self).front as int] == self.items@[old(
                    self,
                ).front as int]@);
                assert(self.remaining_s() =~= orem.subrange(1, orem.len() as int));
                assert(r@ == orem[0]);
            }
            Some(r)
        } else {
            None
        }
    }

    /// The number of points not yet handed out, exactly.
    pub fn len(&self) -> (r: usize)
        requires
            self.iter_wf(),
        ensures
            r == self.remaining_s().len(),
    {
        self.back - self.front
    }
}

/// Law: swapping the axes is an involution.  `swap_axes` exchanges the
/// knot vectors and transposes the control net, so by this lemma two
/// swaps restore the original surface structurally.
pub proof fn lemma_swap_axes_involution(s: BSplineSurface)
    requires
        s.wf(),
    ensures
        transpose_s(transpose_s(s.net_s(), s.cols_s()), s.rows_s()) == s.net_s(),
{
    lemma_transpose_involutive(s.net_s(), s.cols_s(), s.dim_s());
}

impl BSplineSurface {
    /// Scales every control point by `c`; the knot vectors are kept,
    /// which is the affine invariance of the representation.
    #[verifier::loop_isolation(false)]
    pub fn scale(&mut self, c: u64)
        requires
            old(self).wf(),
        ensures
            final(self).uknots_s() == old(self).uknots_s(),
            final(self).vknots_s() == old(self).vknots_s(),
            final(self).net_s() == Seq::new(
                old(self).rows_s(),
                |i: int| rsmul_s(c, old(self).net_s()[i]),
            ),
            final(self).wf(),
            final(self).dim_s() == old(self).dim_s(),
            final(self).rows_s() == old(self).rows_s(),
            final(self).cols_s() == old(self).cols_s(),
    {
        let n = self.control_points.len();
        let mut i: usize = 0;
        while i < n
            invariant
                i <= n,
                n == self.control_points@.len(),
                self.uknots_s() == old(self).uknots_s(),
                self.vknots_s() == old(self).vknots_s(),
                forall|j: int| 0 <= j < i ==> #[trigger] self.net_s()[j] == rsmul_s(
                    c,
                    old(self).net_s()[j],
                ),
                forall|j: int| i <= j < n ==> #[trigger] self.control_points@[j] == old(
                    self,
                ).control_points@[j],
            decreases n - i,
        {
            proof {
                assert(self.net_s()[i as int] == net_of(self.control_points@[i as int]));
                assert(old(self).net_s()[i as int] == net_of(old(self).control_points@[i as int]));
            }
            let newrow = vector::rsmul(c, &self.control_points[i]);
            let ghost pre = self.net_s();
            let ghost precp = self.control_points@;
            self.control_points.set(i, newrow);
            proof {
                assert forall|j: int| 0 <= j < i + 1 implies #[trigger] self.net_s()[j]
                    == rsmul_s(c, old(self).net_s()[j]) by {
                    assert(self.net_s()[j] == net_of(self.control_points@[j]));
                    if j < i {
                        assert(self.control_points@[j] == precp[j]);
                        assert(pre[j] == net_of(precp[j]));
                    }
                    assert(old(self).net_s()[j] == net_of(old(self).control_points@[j]));
                }
            }
            i = i + 1;
        }
        proof {
            let t = Seq::new(old(self).rows_s(), |i: int| rsmul_s(c, old(self).net_s()[i]));
            assert forall|j: int| 0 <= j < self.net_s().len() implies #[trigger] self.net_s()[j]
                == t[j] by {}
            assert(self.net_s() =~= t);
            assert forall|p: int, q: int| 0 <= p < self.net_s().len() && 0 <= q < old(
                self,
            ).cols_s() implies (#[trigger] self.net_s()[p][q]).len() == old(self).dim_s() by {
                assert(self.net_s()[p] == t[p]);
            }
        }
    }

    /// Applies a square matrix to every control point, as the matrix
    /// acting from the left on a column vector (`mat * p`); a caller
    /// with row-vector data passes the transpose.  The knot vectors are
    /// kept.
    #[verifier::rlimit(100)]
    #[verifier::spinoff_prover]
    #[verifier::loop_isolation(false)]
    pub fn transform(&mut self, mat: &Vec<Vec<u64>>)
        requires
            old(self).wf(),
            mat@.len() == old(self).dim_s(),
            forall|i: int| 0 <= i < mat@.len() ==> (#[trigger] mat@[i]@).len() == old(
                self,
            ).dim_s(),
        ensures
            final(self).uknots_s() == old(self).uknots_s(),
            final(self).vknots_s() == old(self).vknots_s(),
            final(self).net_s() == Seq::new(
                old(self).rows_s(),
                |i: int| Seq::new(
                    old(self).cols_s(),
                    |j: int| vector::matvec_s(net_of(*mat), old(self).net_s()[i][j]),
                ),
            ),
            final(self).wf(),
            final(self).dim_s() == old(self).dim_s(),
            final(self).rows_s() == old(self).rows_s(),
            final(self).cols_s() == old(self).cols_s(),
    {
        let n = self.control_points.len();
        let cols = self.cols();
        let ghost target = Seq::new(
            old(self).rows_s(),
            |i: int| Seq::new(
                old(self).cols_s(),
                |j: int| vector::matvec_s(net_of(*mat), old(self).net_s()[i][j]),
            ),
        );
        let mut i: usize = 0;
        while i < n
            invariant
                i <= n,
                n == self.control_points@.len(),
                self.uknots_s() == old(self).uknots_s(),
                self.vknots_s() == old(self).vknots_s(),
                forall|j: int| 0 <= j < i ==> #[trigger] self.net_s()[j] == target[j],
                forall|j: int| i <= j < n ==> #[trigger] self.control_points@[j] == old(
                    self,
                ).control_points@[j],
            decreases n - i,
        {
            proof {
                assert(self.net_s()[i as int] == net_of(self.control_points@[i as int]));
                assert(old(self).net_s()[i as int] == net_of(old(self).control_points@[i as int]));
            }
            let mut newrow: Vec<Vec<u64>> = Vec::new();
            let mut j: usize = 0;
            while j < cols
                invariant
                    j <= cols,
                    i < n,
                    newrow@.len() == j,
                    self.control_points@[i as int] == old(self).control_points@[i as int],
                    forall|q: int| 0 <= q < j ==> #[trigger] newrow@[q]@ == vector::matvec_s(
                        net_of(*mat),
                        old(self).net_s()[i as int][q],
                    ),
                decreases cols - j,
            {
                proof {
                    assert(old(self).net_s()[i as int] == net_of(
                        old(self).control_points@[i as int],
                    ));
                    assert(old(self).net_s()[i as int][j as int]
                        == old(self).control_points@[i as int]@[j as int]@);
                    assert(old(self).net_s()[i as int][j as int].len() == old(self).dim_s());
                }
                newrow.push(vector::matvec(mat, &self.control_points[i][j]));
                j = j + 1;
            }
            let ghost pre = self.net_s();
            let ghost precp = self.control_points@;
            proof {
                assert(net_of(newrow) =~= target[i as int]);
            }
            self.control_points.set(i, newrow);
            proof {
                assert forall|j2: int| 0 <= j2 < i + 1 implies #[trigger] self.net_s()[j2]
                    == target[j2] by {
                    assert(self.net_s()[j2] == net_of(self.control_points@[j2]));
                    if j2 < i {
                        assert(self.control_points@[j2] == precp[j2]);
                        assert(pre[j2] == net_of(precp[j2]));
                    }
                }
            }
            i = i + 1;
        }
        proof {
            assert forall|j: int| 0 <= j < self.net_s().len() implies #[trigger] self.net_s()[j]
                == target[j] by {}
            assert(self.net_s() =~= target);
            assert forall|p: int, q: int| 0 <= p < self.net_s().len() && 0 <= q < old(
                self,
            ).cols_s() implies (#[trigger] self.net_s()[p][q]).len() == old(self).dim_s() by {
                assert(self.net_s()[p] == target[p]);
            }
        }
    }
}

/// Writes the candidate rows one and later back over the window rows
/// and drops the removed row.
#[verifier::rlimit(100)]
#[verifier::spinoff_prover]
#[verifier::loop_isolation(false)]
fn rrm_apply(
    net: &mut Vec<Vec<Vec<u64>>>,
    cands: &Vec<Vec<Vec<u64>>>,
    kv: &KnotVec,
    idx: usize,
    k: usize,
    cols: usize,
    dim: usize,
)
    requires
        rect_s(net3_of(*old(net)), cols as nat, dim as nat),
        k + 1 <= idx < old(net)@.len(),
        cands@.len() == rm_count_from(kv@, idx as int, k as int, 0) + 1,
        cands@.len() <= k + 1,
        forall|p: int| 0 <= p < cands@.len() ==> #[trigger] net_of(cands@[p]) == rrm_cand(
            net3_of(*old(net)),
            kv@,
            idx as int,
            k as int,
            p as nat,
        ),
    ensures
        net3_of(*final(net)) == rrm_write(
            net3_of(*old(net)),
            kv@,
            idx as int,
            k as int,
            (cands@.len() - 1) as nat,
        ).remove(idx as int),
        final(net)@.len() == old(net)@.len() - 1,
        rect_s(net3_of(*final(net)), cols as nat, dim as nat),
{
    let ghost onet = net3_of(*net);
    let ghost kn = kv@;
    let m = cands.len() - 1;
    let mut q: usize = 1;
    while q <= m
        invariant
            1 <= q <= m + 1,
            m + 1 == cands@.len(),
            m <= k,
            net@.len() == onet.len(),
            k + 1 <= idx < onet.len(),
            net3_of(*net) == rrm_write(onet, kn, idx as int, k as int, (q - 1) as nat),
        decreases m + 1 - q,
    {
        let c = vector::copy_net(&cands[q]);
        net.set(idx - k + q - 1, c);
        proof {
            assert forall|j: int| 0 <= j < net3_of(*net).len() implies #[trigger] net3_of(*net)[j]
                == rrm_write(onet, kn, idx as int, k as int, q as nat)[j] by {
                assert(net3_of(*net)[j] == net_of(net@[j]));
            }
            assert(net3_of(*net) =~= rrm_write(onet, kn, idx as int, k as int, q as nat));
        }
        q = q + 1;
    }
    let ghost written = net3_of(*net);
    net.remove(idx);
    proof {
        written.remove_ensures(idx as int);
        assert forall|j: int| 0 <= j < net3_of(*net).len() implies #[trigger] net3_of(*net)[j]
            == written.remove(idx as int)[j] by {
            assert(net3_of(*net)[j] == net_of(net@[j]));
        }
        assert(net3_of(*net) =~= written.remove(idx as int));
        lemma_rrm_write_shape(onet, kn, idx as int, k as int, m as nat, cols as nat, dim as nat);
        assert forall|j: int| 0 <= j < net3_of(*net).len() implies (
        #[trigger] net3_of(*net)[j]).len() == cols by {
            assert(net3_of(*net)[j] == written.remove(idx as int)[j]);
        }
        assert forall|j: int, j2: int| 0 <= j < net3_of(*net).len() && 0 <= j2 < cols implies (
        #[trigger] net3_of(*net)[j][j2]).len() == dim by {
            assert(net3_of(*net)[j] == written.remove(idx as int)[j]);
        }
    }
}

} // verus!
