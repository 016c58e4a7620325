//! Fixed-length numeric tuples and rational projective arithmetic.
//!
//! A point is a `Vec<u64>` of binary64 bit patterns.  A point of length
//! `N + 1` can be read as a rational projective representation whose
//! projection divides the first `N` components by the last one (the
//! weight).

use vstd::prelude::*;
use crate::scalar::{
    add_bits, sub_bits, mul_bits, div_bits, neg_bits, sqrt_bits,
};
use crate::scalar;
use crate::tolerance::{near_bits, near2_bits};
use crate::tolerance;

verus! {

/// The zero point of dimension `dim`: every component is `+0.0`.
pub open spec fn zero_pt(dim: nat) -> Seq<u64> {
    Seq::new(dim, |i: int| 0u64)
}

/// Component-wise rounded sum.
pub open spec fn vadd_s(a: Seq<u64>, b: Seq<u64>) -> Seq<u64> {
    Seq::new(a.len(), |i: int| add_bits(a[i], b[i]))
}

/// Component-wise rounded difference.
pub open spec fn vsub_s(a: Seq<u64>, b: Seq<u64>) -> Seq<u64> {
    Seq::new(a.len(), |i: int| sub_bits(a[i], b[i]))
}

/// Component-wise negation.
pub open spec fn vneg_s(a: Seq<u64>) -> Seq<u64> {
    Seq::new(a.len(), |i: int| neg_bits(a[i]))
}

/// Every component scaled by `c`.
pub open spec fn smul_s(c: u64, a: Seq<u64>) -> Seq<u64> {
    Seq::new(a.len(), |i: int| mul_bits(c, a[i]))
}

/// Every component divided by `c`.
pub open spec fn sdiv_s(a: Seq<u64>, c: u64) -> Seq<u64> {
    Seq::new(a.len(), |i: int| div_bits(a[i], c))
}

/// The rounded dot product of the first `n` components, summed from the
/// front starting at `+0.0`.
pub open spec fn dot_s(a: Seq<u64>, b: Seq<u64>, n: int) -> u64
    decreases n,
{
    if n <= 0 {
        0u64
    } else {
        add_bits(dot_s(a, b, n - 1), mul_bits(a[n - 1], b[n - 1]))
    }
}

/// The rounded three-dimensional cross product.
pub open spec fn cross_s(a: Seq<u64>, b: Seq<u64>) -> Seq<u64> {
    seq![
        sub_bits(mul_bits(a[1], b[2]), mul_bits(a[2], b[1])),
        sub_bits(mul_bits(a[2], b[0]), mul_bits(a[0], b[2])),
        sub_bits(mul_bits(a[0], b[1]), mul_bits(a[1], b[0])),
    ]
}

/// The rational projection: the first `len - 1` components divided by the
/// last one.
pub open spec fn rat_proj_s(a: Seq<u64>) -> Seq<u64> {
    Seq::new((a.len() - 1) as nat, |i: int| div_bits(a[i], a[a.len() - 1]))
}

/// The rational derivative of a projective point `p` against its
/// projective derivative `d`: `(d_i * p_w - p_i * d_w) / p_w^2` in each
/// Euclidean component, where `w` is the weight index.
pub open spec fn rat_der_s(p: Seq<u64>, d: Seq<u64>) -> Seq<u64> {
    Seq::new(
        (p.len() - 1) as nat,
        |i: int| div_bits(
            sub_bits(
                mul_bits(d[i], p[p.len() - 1]),
                mul_bits(p[i], d[p.len() - 1]),
            ),
            mul_bits(p[p.len() - 1], p[p.len() - 1]),
        ),
    )
}

/// Two points of the same length whose components are pairwise near.
pub open spec fn pt_near_s(a: Seq<u64>, b: Seq<u64>) -> bool {
    a.len() == b.len() && forall|i: int| 0 <= i < a.len() ==> near_bits(a[i], b[i])
}

/// Two points of the same length whose components are pairwise near up to
/// the quadratic tolerance.
pub open spec fn pt_near2_s(a: Seq<u64>, b: Seq<u64>) -> bool {
    a.len() == b.len() && forall|i: int| 0 <= i < a.len() ==> near2_bits(a[i], b[i])
}

/// Builds the zero point of dimension `dim`.
pub fn vzero(dim: usize) -> (r: Vec<u64>)
    ensures
        r@ == zero_pt(dim as nat),
{
    let mut r: Vec<u64> = Vec::new();
    let mut i: usize = 0;
    while i < dim
        invariant
            i <= dim,
            r@.len() == i,
            forall|j: int| 0 <= j < i ==> r@[j] == 0u64,
        decreases dim - i,
    {
        r.push(0u64);
        i = i + 1;
    }
    proof {
        assert(r@ =~= zero_pt(dim as nat));
    }
    r
}

/// Component-wise sum of two points of equal length.
pub fn vadd(a: &Vec<u64>, b: &Vec<u64>) -> (r: Vec<u64>)
    requires
        a@.len() == b@.len(),
    ensures
        r@ == vadd_s(a@, b@),
{
    let n = a.len();
    let mut r: Vec<u64> = Vec::new();
    let mut i: usize = 0;
    while i < n
        invariant
            i <= n,
            n == a@.len(),
            a@.len() == b@.len(),
            r@.len() == i,
            forall|j: int| 0 <= j < i ==> r@[j] == add_bits(a@[j], b@[j]),
        decreases n - i,
    {
        r.push(scalar::fadd(a[i], b[i]));
        i = i + 1;
    }
    proof {
        assert(r@ =~= vadd_s(a@, b@));
    }
    r
}

/// Component-wise difference of two points of equal length.
pub fn vsub(a: &Vec<u64>, b: &Vec<u64>) -> (r: Vec<u64>)
    requires
        a@.len() == b@.len(),
    ensures
        r@ == vsub_s(a@, b@),
{
    let n = a.len();
    let mut r: Vec<u64> = Vec::new();
    let mut i: usize = 0;
    while i < n
        invariant
            i <= n,
            n == a@.len(),
            a@.len() == b@.len(),
            r@.len() == i,
            forall|j: int| 0 <= j < i ==> r@[j] == sub_bits(a@[j], b@[j]),
        decreases n - i,
    {
        r.push(scalar::fsub(a[i], b[i]));
        i = i + 1;
    }
    proof {
        assert(r@ =~= vsub_s(a@, b@));
    }
    r
}

/// Component-wise negation of a point.
pub fn vneg(a: &Vec<u64>) -> (r: Vec<u64>)
    ensures
        r@ == vneg_s(a@),
{
    let n = a.len();
    let mut r: Vec<u64> = Vec::new();
    let mut i: usize = 0;
    while i < n
        invariant
            i <= n,
            n == a@.len(),
            r@.len() == i,
            forall|j: int| 0 <= j < i ==> r@[j] == neg_bits(a@[j]),
        decreases n - i,
    {
        r.push(scalar::neg(a[i]));
        i = i + 1;
    }
    proof {
        assert(r@ =~= vneg_s(a@));
    }
    r
}

/// Every component of `a` scaled by `c`.
pub fn smul(c: u64, a: &Vec<u64>) -> (r: Vec<u64>)
    ensures
        r@ == smul_s(c, a@),
{
    let n = a.len();
    let mut r: Vec<u64> = Vec::new();
    let mut i: usize = 0;
    while i < n
        invariant
            i <= n,
            n == a@.len(),
            r@.len() == i,
            forall|j: int| 0 <= j < i ==> r@[j] == mul_bits(c, a@[j]),
        decreases n - i,
    {
        r.push(scalar::fmul(c, a[i]));
        i = i + 1;
    }
    proof {
        assert(r@ =~= smul_s(c, a@));
    }
    r
}

/// Every component of `a` divided by `c`.
pub fn sdiv(a: &Vec<u64>, c: u64) -> (r: Vec<u64>)
    ensures
        r@ == sdiv_s(a@, c),
{
    let n = a.len();
    let mut r: Vec<u64> = Vec::new();
    let mut i: usize = 0;
    while i < n
        invariant
            i <= n,
            n == a@.len(),
            r@.len() == i,
            forall|j: int| 0 <= j < i ==> r@[j] == div_bits(a@[j], c),
        decreases n - i,
    {
        r.push(scalar::fdiv(a[i], c));
        i = i + 1;
    }
    proof {
        assert(r@ =~= sdiv_s(a@, c));
    }
    r
}

/// The dot product of two points of equal length.
pub fn vdot(a: &Vec<u64>, b: &Vec<u64>) -> (r: u64)
    requires
        a@.len() == b@.len(),
    ensures
        r == dot_s(a@, b@, a@.len() as int),
{
    let n = a.len();
    let mut acc: u64 = 0;
    let mut i: usize = 0;
    while i < n
        invariant
            i <= n,
            n == a@.len(),
            a@.len() == b@.len(),
            acc == dot_s(a@, b@, i as int),
        decreases n - i,
    {
        acc = scalar::fadd(acc, scalar::fmul(a[i], b[i]));
        i = i + 1;
    }
    acc
}

/// The Euclidean norm: the square-root iteration applied to the dot
/// product of `a` with itself.
pub fn vnorm(a: &Vec<u64>) -> (r: u64)
    ensures
        r == sqrt_bits(dot_s(a@, a@, a@.len() as int)),
{
    let d = vdot(a, a);
    scalar::sqrt(d)
}

/// The three-dimensional cross product.
pub fn vcross(a: &Vec<u64>, b: &Vec<u64>) -> (r: Vec<u64>)
    requires
        a@.len() == 3,
        b@.len() == 3,
    ensures
        r@ == cross_s(a@, b@),
{
    let mut r: Vec<u64> = Vec::new();
    r.push(scalar::fsub(scalar::fmul(a[1], b[2]), scalar::fmul(a[2], b[1])));
    r.push(scalar::fsub(scalar::fmul(a[2], b[0]), scalar::fmul(a[0], b[2])));
    r.push(scalar::fsub(scalar::fmul(a[0], b[1]), scalar::fmul(a[1], b[0])));
    proof {
        assert(r@ =~= cross_s(a@, b@));
    }
    r
}

/// The rational projection of a projective point.
pub fn rational_projection(a: &Vec<u64>) -> (r: Vec<u64>)
    requires
        a@.len() >= 1,
    ensures
        r@ == rat_proj_s(a@),
{
    let n = a.len();
    let w = a[n - 1];
    let mut r: Vec<u64> = Vec::new();
    let mut i: usize = 0;
    while i < n - 1
        invariant
            i <= n - 1,
            n == a@.len(),
            n >= 1,
            w == a@[n - 1],
            r@.len() == i,
            forall|j: int| 0 <= j < i ==> r@[j] == div_bits(a@[j], a@[n - 1]),
        decreases n - 1 - i,
    {
        r.push(scalar::fdiv(a[i], w));
        i = i + 1;
    }
    proof {
        assert(r@ =~= rat_proj_s(a@));
    }
    r
}

/// The rational derivative of a projective point `p` against its
/// projective derivative `d`.
pub fn rational_derivation(p: &Vec<u64>, d: &Vec<u64>) -> (r: Vec<u64>)
    requires
        p@.len() >= 1,
        p@.len() == d@.len(),
    ensures
        r@ == rat_der_s(p@, d@),
{
    let n = p.len();
    let w = p[n - 1];
    let dw = d[n - 1];
    let w2 = scalar::fmul(w, w);
    let mut r: Vec<u64> = Vec::new();
    let mut i: usize = 0;
    while i < n - 1
        invariant
            i <= n - 1,
            n == p@.len(),
            n >= 1,
            p@.len() == d@.len(),
            w == p@[n - 1],
            dw == d@[n - 1],
            w2 == mul_bits(p@[n - 1], p@[n - 1]),
            r@.len() == i,
            forall|j: int| 0 <= j < i ==> r@[j] == div_bits(
                sub_bits(
                    mul_bits(d@[j], p@[n - 1]),
                    mul_bits(p@[j], d@[n - 1]),
                ),
                mul_bits(p@[n - 1], p@[n - 1]),
            ),
        decreases n - 1 - i,
    {
        let num = scalar::fsub(scalar::fmul(d[i], w), scalar::fmul(p[i], dw));
        r.push(scalar::fdiv(num, w2));
        i = i + 1;
    }
    proof {
        assert(r@ =~= rat_der_s(p@, d@));
    }
    r
}

/// Tests whether all components of two equal-length points are pairwise
/// near.
pub fn pt_near(a: &Vec<u64>, b: &Vec<u64>) -> (r: bool)
    requires
        a@.len() == b@.len(),
    ensures
        r == pt_near_s(a@, b@),
{
    let n = a.len();
    let mut i: usize = 0;
    while i < n
        invariant
            i <= n,
            n == a@.len(),
            a@.len() == b@.len(),
            forall|j: int| 0 <= j < i ==> near_bits(a@[j], b@[j]),
        decreases n - i,
    {
        if !tolerance::near(a[i], b[i]) {
            return false;
        }
        i = i + 1;
    }
    true
}

/// Tests whether all components of two equal-length points are pairwise
/// near up to the quadratic tolerance.
pub fn pt_near2(a: &Vec<u64>, b: &Vec<u64>) -> (r: bool)
    requires
        a@.len() == b@.len(),
    ensures
        r == pt_near2_s(a@, b@),
{
    let n = a.len();
    let mut i: usize = 0;
    while i < n
        invariant
            i <= n,
            n == a@.len(),
            a@.len() == b@.len(),
            forall|j: int| 0 <= j < i ==> near2_bits(a@[j], b@[j]),
        decreases n - i,
    {
        if !tolerance::near2(a[i], b[i]) {
            return false;
        }
        i = i + 1;
    }
    true
}

/// The sequence-of-sequences view of a control net.
pub open spec fn net_of(v: Vec<Vec<u64>>) -> Seq<Seq<u64>> {
    Seq::new(v@.len(), |i: int| v@[i]@)
}

/// The rows of the view of a net are the views of its rows.
pub proof fn lemma_net_index(v: Vec<Vec<u64>>, i: int)
    requires
        0 <= i < v@.len(),
    ensures
        net_of(v)[i] == v@[i]@,
{
}

/// Every row of `pts` has length `dim`.
pub open spec fn uniform_s(pts: Seq<Seq<u64>>, dim: nat) -> bool {
    forall|i: int| 0 <= i < pts.len() ==> (#[trigger] pts[i]).len() == dim
}

/// An owned copy of a point.
pub fn copy_pt(a: &Vec<u64>) -> (r: Vec<u64>)
    ensures
        r@ == a@,
{
    let n = a.len();
    let mut r: Vec<u64> = Vec::new();
    let mut i: usize = 0;
    while i < n
        invariant
            i <= n,
            n == a@.len(),
            r@.len() == i,
            forall|j: int| 0 <= j < i ==> r@[j] == a@[j],
        decreases n - i,
    {
        r.push(a[i]);
        i = i + 1;
    }
    proof {
        assert(r@ =~= a@);
    }
    r
}

/// An owned copy of a control net row list.
pub fn copy_net(a: &Vec<Vec<u64>>) -> (r: Vec<Vec<u64>>)
    ensures
        net_of(r) == net_of(*a),
        r@.len() == a@.len(),
{
    let n = a.len();
    let mut r: Vec<Vec<u64>> = Vec::new();
    let mut i: usize = 0;
    while i < n
        invariant
            i <= n,
            n == a@.len(),
            r@.len() == i,
            forall|j: int| 0 <= j < i ==> r@[j]@ == a@[j]@,
        decreases n - i,
    {
        r.push(copy_pt(&a[i]));
        i = i + 1;
    }
    proof {
        assert(net_of(r) =~= net_of(*a));
    }
    r
}

/// Row-wise difference of two equal-shape rows of points.
pub open spec fn rsub_s(a: Seq<Seq<u64>>, b: Seq<Seq<u64>>) -> Seq<Seq<u64>> {
    Seq::new(a.len(), |i: int| vsub_s(a[i], b[i]))
}

/// Row-wise negation.
pub open spec fn rneg_s(a: Seq<Seq<u64>>) -> Seq<Seq<u64>> {
    Seq::new(a.len(), |i: int| vneg_s(a[i]))
}

/// Every point of a row scaled by `c`.
pub open spec fn rsmul_s(c: u64, a: Seq<Seq<u64>>) -> Seq<Seq<u64>> {
    Seq::new(a.len(), |i: int| smul_s(c, a[i]))
}

/// Every point of a row divided by `c`.
pub open spec fn rdiv_s(a: Seq<Seq<u64>>, c: u64) -> Seq<Seq<u64>> {
    Seq::new(a.len(), |i: int| sdiv_s(a[i], c))
}

/// All points of two equal-shape rows pairwise near.
pub open spec fn row_near_s(a: Seq<Seq<u64>>, b: Seq<Seq<u64>>) -> bool {
    a.len() == b.len() && forall|i: int| 0 <= i < a.len() ==> pt_near_s(a[i], b[i])
}

/// Row-wise difference.
pub fn rsub(a: &Vec<Vec<u64>>, b: &Vec<Vec<u64>>) -> (r: Vec<Vec<u64>>)
    requires
        a@.len() == b@.len(),
        forall|i: int| 0 <= i < a@.len() ==> (#[trigger] a@[i]@).len() == b@[i]@.len(),
    ensures
        net_of(r) == rsub_s(net_of(*a), net_of(*b)),
        r@.len() == a@.len(),
{
    let n = a.len();
    let mut r: Vec<Vec<u64>> = Vec::new();
    let mut i: usize = 0;
    while i < n
        invariant
            i <= n,
            n == a@.len(),
            a@.len() == b@.len(),
            forall|q: int| 0 <= q < a@.len() ==> (#[trigger] a@[q]@).len() == b@[q]@.len(),
            r@.len() == i,
            forall|j: int| 0 <= j < i ==> #[trigger] r@[j]@ == vsub_s(a@[j]@, b@[j]@),
        decreases n - i,
    {
        r.push(vsub(&a[i], &b[i]));
        i = i + 1;
    }
    proof {
        assert forall|j: int| 0 <= j < net_of(r).len() implies #[trigger] net_of(r)[j]
            == rsub_s(net_of(*a), net_of(*b))[j] by {
            assert(net_of(r)[j] == r@[j]@);
        }
        assert(net_of(r) =~= rsub_s(net_of(*a), net_of(*b)));
    }
    r
}

/// Row-wise negation.
pub fn rneg(a: &Vec<Vec<u64>>) -> (r: Vec<Vec<u64>>)
    ensures
        net_of(r) == rneg_s(net_of(*a)),
        r@.len() == a@.len(),
{
    let n = a.len();
    let mut r: Vec<Vec<u64>> = Vec::new();
    let mut i: usize = 0;
    while i < n
        invariant
            i <= n,
            n == a@.len(),
            r@.len() == i,
            forall|j: int| 0 <= j < i ==> #[trigger] r@[j]@ == vneg_s(a@[j]@),
        decreases n - i,
    {
        r.push(vneg(&a[i]));
        i = i + 1;
    }
    proof {
        assert forall|j: int| 0 <= j < net_of(r).len() implies #[trigger] net_of(r)[j]
            == rneg_s(net_of(*a))[j] by {
            assert(net_of(r)[j] == r@[j]@);
        }
        assert(net_of(r) =~= rneg_s(net_of(*a)));
    }
    r
}

/// Every point of a row scaled by `c`.
pub fn rsmul(c: u64, a: &Vec<Vec<u64>>) -> (r: Vec<Vec<u64>>)
    ensures
        net_of(r) == rsmul_s(c, net_of(*a)),
        r@.len() == a@.len(),
{
    let n = a.len();
    let mut r: Vec<Vec<u64>> = Vec::new();
    let mut i: usize = 0;
    while i < n
        invariant
            i <= n,
            n == a@.len(),
            r@.len() == i,
            forall|j: int| 0 <= j < i ==> #[trigger] r@[j]@ == smul_s(c, a@[j]@),
        decreases n - i,
    {
        r.push(smul(c, &a[i]));
        i = i + 1;
    }
    proof {
        assert forall|j: int| 0 <= j < net_of(r).len() implies #[trigger] net_of(r)[j]
            == rsmul_s(c, net_of(*a))[j] by {
            assert(net_of(r)[j] == r@[j]@);
        }
        assert(net_of(r) =~= rsmul_s(c, net_of(*a)));
    }
    r
}

/// Every point of a row divided by `c`.
pub fn rdiv(a: &Vec<Vec<u64>>, c: u64) -> (r: Vec<Vec<u64>>)
    ensures
        net_of(r) == rdiv_s(net_of(*a), c),
        r@.len() == a@.len(),
{
    let n = a.len();
    let mut r: Vec<Vec<u64>> = Vec::new();
    let mut i: usize = 0;
    while i < n
        invariant
            i <= n,
            n == a@.len(),
            r@.len() == i,
            forall|j: int| 0 <= j < i ==> #[trigger] r@[j]@ == sdiv_s(a@[j]@, c),
        decreases n - i,
    {
        r.push(sdiv(&a[i], c));
        i = i + 1;
    }
    proof {
        assert forall|j: int| 0 <= j < net_of(r).len() implies #[trigger] net_of(r)[j]
            == rdiv_s(net_of(*a), c)[j] by {
            assert(net_of(r)[j] == r@[j]@);
        }
        assert(net_of(r) =~= rdiv_s(net_of(*a), c));
    }
    r
}

/// Tests whether all points of two equal-shape rows are pairwise near.
pub fn row_near(a: &Vec<Vec<u64>>, b: &Vec<Vec<u64>>) -> (r: bool)
    requires
        a@.len() == b@.len(),
        forall|i: int| 0 <= i < a@.len() ==> (#[trigger] a@[i]@).len() == b@[i]@.len(),
    ensures
        r == row_near_s(net_of(*a), net_of(*b)),
{
    let n = a.len();
    let mut i: usize = 0;
    while i < n
        invariant
            i <= n,
            n == a@.len(),
            a@.len() == b@.len(),
            forall|q: int| 0 <= q < a@.len() ==> (#[trigger] a@[q]@).len() == b@[q]@.len(),
            forall|j: int| 0 <= j < i ==> pt_near_s(#[trigger] a@[j]@, b@[j]@),
        decreases n - i,
    {
        if !pt_near(&a[i], &b[i]) {
            proof {
                assert(net_of(*a)[i as int] == a@[i as int]@);
                assert(net_of(*b)[i as int] == b@[i as int]@);
            }
            return false;
        }
        i = i + 1;
    }
    proof {
        assert forall|j: int| 0 <= j < net_of(*a).len() implies pt_near_s(
            #[trigger] net_of(*a)[j],
            net_of(*b)[j],
        ) by {
            assert(net_of(*a)[j] == a@[j]@);
            assert(net_of(*b)[j] == b@[j]@);
        }
    }
    true
}

/// The matrix-vector product in rounded arithmetic: row `r` of the
/// result is the dot product of matrix row `r` with the point.
pub open spec fn matvec_s(m: Seq<Seq<u64>>, p: Seq<u64>) -> Seq<u64> {
    Seq::new(m.len(), |r: int| dot_s(m[r], p, p.len() as int))
}

/// Applies a matrix to a point.
pub fn matvec(m: &Vec<Vec<u64>>, p: &Vec<u64>) -> (r: Vec<u64>)
    requires
        forall|i: int| 0 <= i < m@.len() ==> (#[trigger] m@[i]@).len() == p@.len(),
    ensures
        r@ == matvec_s(net_of(*m), p@),
{
    let n = m.len();
    let mut r: Vec<u64> = Vec::new();
    let mut i: usize = 0;
    while i < n
        invariant
            i <= n,
            n == m@.len(),
            forall|q: int| 0 <= q < m@.len() ==> (#[trigger] m@[q]@).len() == p@.len(),
            r@.len() == i,
            forall|j: int| 0 <= j < i ==> r@[j] == dot_s(m@[j]@, p@, p@.len() as int),
        decreases n - i,
    {
        r.push(vdot(&m[i], p));
        i = i + 1;
    }
    proof {
        assert forall|j: int| 0 <= j < r@.len() implies r@[j] == matvec_s(net_of(*m), p@)[j] by {
            assert(net_of(*m)[j] == m@[j]@);
        }
        assert(r@ =~= matvec_s(net_of(*m), p@));
    }
    r
}

} // verus!
