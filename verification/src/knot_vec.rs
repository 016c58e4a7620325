//! Knot vectors: non-decreasing sequences of parameters with at least two
//! distinct values, and the B-spline basis evaluation over them.

use vstd::prelude::*;
use crate::scalar::{
    add_bits, sub_bits, mul_bits, div_bits, le_bits, lt_bits, eq_bits,
    is_nan_bits, is_finite_bits, key_of, ONE_BITS,
};
use crate::scalar;
use crate::tolerance::{so_small_bits, inv_or_zero_bits};
use crate::tolerance;
use crate::errors::Error;

verus! {

/// Adjacent pairs are ordered by the IEEE-754 order; in particular no
/// entry of a sequence of length at least two is a NaN.
pub open spec fn sorted_bits(s: Seq<u64>) -> bool {
    forall|i: int| 0 <= i < s.len() - 1 ==> le_bits(#[trigger] s[i], s[i + 1])
}

/// A well-formed knot sequence: sorted, length at least two, and the
/// first knot strictly below the last one.
pub open spec fn knots_wf(s: Seq<u64>) -> bool {
    sorted_bits(s) && s.len() >= 2 && lt_bits(s[0], s[s.len() - 1])
}

/// Entries of a sorted sequence are pairwise ordered.
pub proof fn lemma_sorted_pair(s: Seq<u64>, i: int, j: int)
    requires
        sorted_bits(s),
        0 <= i <= j < s.len(),
    ensures
        i < j ==> le_bits(s[i], s[j]),
        s.len() >= 2 ==> !is_nan_bits(s[i]),
    decreases j - i,
{
    if i < j {
        if i + 1 == j {
            assert(le_bits(s[i], s[i + 1]));
        } else {
            assert(le_bits(s[i], s[i + 1]));
            lemma_sorted_pair(s, i + 1, j);
        }
    } else {
        if i + 1 < s.len() {
            assert(le_bits(s[i], s[i + 1]));
        } else if s.len() >= 2 {
            assert(le_bits(s[i - 1], s[i]));
        }
    }
}

/// The index where `x` belongs in `s`: the number of leading entries
/// that are at most `x` in the IEEE-754 order.
pub open spec fn ins_idx(s: Seq<u64>, x: u64) -> int
    decreases s.len(),
{
    if s.len() == 0 {
        0
    } else if le_bits(s[0], x) {
        1 + ins_idx(s.subrange(1, s.len() as int), x)
    } else {
        0
    }
}

/// Characterization of `ins_idx`: all entries before it are at most `x`,
/// and the entry at it (if any) is not.
pub proof fn lemma_ins_idx_char(s: Seq<u64>, x: u64)
    ensures
        0 <= ins_idx(s, x) <= s.len(),
        forall|j: int| 0 <= j < ins_idx(s, x) ==> le_bits(s[j], x),
        ins_idx(s, x) < s.len() ==> !le_bits(s[ins_idx(s, x)], x),
    decreases s.len(),
{
    if s.len() > 0 {
        let tail = s.subrange(1, s.len() as int);
        lemma_ins_idx_char(tail, x);
        if le_bits(s[0], x) {
            let g = ins_idx(s, x);
            assert forall|j: int| 0 <= j < g implies le_bits(s[j], x) by {
                if j > 0 {
                    assert(tail[j - 1] == s[j]);
                    assert(le_bits(tail[j - 1], x));
                }
            }
            if g < s.len() {
                assert(tail[g - 1] == s[g]);
                assert(!le_bits(tail[g - 1], x));
            }
        }
    }
}

/// The first index whose entry is strictly above `t`, or the length when
/// there is none.
pub open spec fn upper_idx(s: Seq<u64>, t: u64) -> int
    decreases s.len(),
{
    if s.len() == 0 {
        0
    } else if lt_bits(t, s[0]) {
        0
    } else {
        1 + upper_idx(s.subrange(1, s.len() as int), t)
    }
}

/// Characterization of `upper_idx`.
pub proof fn lemma_upper_idx_char(s: Seq<u64>, t: u64)
    ensures
        0 <= upper_idx(s, t) <= s.len(),
        forall|j: int| 0 <= j < upper_idx(s, t) ==> !lt_bits(t, s[j]),
        upper_idx(s, t) < s.len() ==> lt_bits(t, s[upper_idx(s, t)]),
    decreases s.len(),
{
    if s.len() > 0 && !lt_bits(t, s[0]) {
        let tail = s.subrange(1, s.len() as int);
        lemma_upper_idx_char(tail, t);
        let g = upper_idx(s, t);
        assert forall|j: int| 0 <= j < g implies !lt_bits(t, s[j]) by {
            if j > 0 {
                assert(tail[j - 1] == s[j]);
                assert(!lt_bits(t, tail[j - 1]));
            }
        }
        if g < s.len() {
            assert(tail[g - 1] == s[g]);
            assert(lt_bits(t, tail[g - 1]));
        }
    }
}

/// Scanning down from position `i`, the first index whose entry lies
/// strictly below the last entry of `s`; zero when there is none.
pub open spec fn last_span_start(s: Seq<u64>, i: int) -> int
    decreases i,
{
    if i <= 0 {
        0
    } else if lt_bits(s[i - 1], s[s.len() - 1]) {
        i - 1
    } else {
        last_span_start(s, i - 1)
    }
}

/// Characterization of `last_span_start`.
pub proof fn lemma_last_span_char(s: Seq<u64>, i: int)
    requires
        0 <= i < s.len(),
    ensures
        0 <= last_span_start(s, i) <= i,
        forall|j: int| last_span_start(s, i) < j < i ==> !#[trigger] lt_bits(s[j], s[s.len() - 1]),
        last_span_start(s, i) > 0 || lt_bits(s[0], s[s.len() - 1])
            ==> lt_bits(s[last_span_start(s, i)], s[s.len() - 1]),
    decreases i,
{
    if i > 0 && !lt_bits(s[i - 1], s[s.len() - 1]) {
        lemma_last_span_char(s, i - 1);
    }
}

/// `t` clamped into the closed knot range.
pub open spec fn clamp_t(s: Seq<u64>, t: u64) -> u64 {
    if lt_bits(t, s[0]) {
        s[0]
    } else if lt_bits(s[s.len() - 1], t) {
        s[s.len() - 1]
    } else {
        t
    }
}

/// The index of the degree-zero span that carries the unit pulse for the
/// clamped parameter `t`.
pub open spec fn start_span(s: Seq<u64>, t: u64) -> int {
    if eq_bits(t, s[s.len() - 1]) {
        last_span_start(s, s.len() - 1)
    } else {
        upper_idx(s, t) - 1
    }
}

/// The unit pulse of length `n` at position `p`: one at `p`, zero
/// elsewhere (everywhere when `p` is out of range).
pub open spec fn pulse(n: nat, p: int) -> Seq<u64> {
    Seq::new(n, |i: int| if i == p { ONE_BITS } else { 0u64 })
}

/// One level of the triangular up-recurrence: each degree-`d` value is a
/// combination of two neighbouring degree-`d - 1` values, with coincident
/// spans suppressed by the guarded inverse.
pub open spec fn basis_next(s: Seq<u64>, t: u64, d: int, prev: Seq<u64>) -> Seq<u64> {
    Seq::new(
        (prev.len() - 1) as nat,
        |i: int| add_bits(
            mul_bits(
                mul_bits(sub_bits(t, s[i]), inv_or_zero_bits(sub_bits(s[i + d], s[i]))),
                prev[i],
            ),
            mul_bits(
                mul_bits(
                    sub_bits(s[i + d + 1], t),
                    inv_or_zero_bits(sub_bits(s[i + d + 1], s[i + 1])),
                ),
                prev[i + 1],
            ),
        ),
    )
}

/// The degree-`d` level of the up-recurrence at the clamped parameter `t`.
pub open spec fn basis_level(s: Seq<u64>, t: u64, d: nat) -> Seq<u64>
    decreases d,
{
    if d == 0 {
        pulse((s.len() - 1) as nat, start_span(s, t))
    } else {
        basis_next(s, t, d as int, basis_level(s, t, (d - 1) as nat))
    }
}

/// The degree-`k` basis function values of the knot sequence `s` at the
/// raw parameter `t`.
pub open spec fn basis_s(s: Seq<u64>, k: nat, t: u64) -> Seq<u64> {
    basis_level(s, clamp_t(s, t), k)
}

/// An entry of a sorted knot sequence of length at least two is not a
/// NaN.
pub proof fn knot_vec_entry_not_nan(s: Seq<u64>, i: int)
    requires
        sorted_bits(s),
        s.len() >= 2,
        0 <= i < s.len(),
    ensures
        !is_nan_bits(s[i]),
{
    lemma_sorted_pair(s, i, i);
}

/// Whether rescaling a knot sequence to the unit interval succeeds and
/// is installed: the range is above the linear tolerance and the
/// rescaled sequence is still well-formed.
pub open spec fn norm_ok(s: Seq<u64>) -> bool {
    !so_small_bits(sub_bits(s[s.len() - 1], s[0])) && knots_wf(KnotVec::normalized_s(s))
}

/// Whether the first and the last `k + 1` entries each coincide; under
/// sortedness this makes the whole prefix and suffix blocks constant.
pub open spec fn clamped_s(s: Seq<u64>, k: nat) -> bool {
    eq_bits(s[0], s[k as int]) && eq_bits(s[s.len() - 1 - k], s[s.len() - 1])
}

/// A non-decreasing ordered sequence of parameters with at least two
/// distinct values.
pub struct KnotVec {
    knots: Vec<u64>,
}

impl View for KnotVec {
    type V = Seq<u64>;

    closed spec fn view(&self) -> Seq<u64> {
        self.knots@
    }
}

impl KnotVec {
    /// The knot sequence invariant.
    pub open spec fn wf(&self) -> bool {
        knots_wf(self@)
    }

    /// Wraps a raw sequence that is already known to satisfy the
    /// invariant; the non-validating escape hatch for pre-validated
    /// callers.
    pub fn new_unchecked(knots: Vec<u64>) -> (r: KnotVec)
        requires
            knots_wf(knots@),
        ensures
            r@ == knots@,
            r.wf(),
    {
        KnotVec { knots }
    }

    /// Validates a raw sequence: `None` when it is not monotone
    /// non-decreasing or its range is empty.
    pub fn try_new(knots: Vec<u64>) -> (r: Option<KnotVec>)
        ensures
            match r {
                Some(kv) => kv@ == knots@ && kv.wf(),
                None => !knots_wf(knots@),
            },
    {
        if knots.len() < 2 {
            return None;
        }
        if !is_sorted(&knots) {
            return None;
        }
        if !scalar::lt(knots[0], knots[knots.len() - 1]) {
            return None;
        }
        Some(KnotVec { knots })
    }

    /// The number of knots.
    pub fn len(&self) -> (r: usize)
        ensures
            r == self@.len(),
    {
        self.knots.len()
    }

    /// The knot at index `i`.
    pub fn knot(&self, i: usize) -> (r: u64)
        requires
            i < self@.len(),
        ensures
            r == self@[i as int],
    {
        self.knots[i]
    }

    /// A reference to the raw knot sequence.
    pub fn knots(&self) -> (r: &Vec<u64>)
        ensures
            r@ == self@,
    {
        &self.knots
    }

    /// An owned copy of this knot vector.
    pub fn duplicate(&self) -> (r: KnotVec)
        ensures
            r@ == self@,
    {
        KnotVec { knots: copy_scalars(&self.knots) }
    }

    /// The rounded difference of the last and first knot.
    pub fn range_length(&self) -> (r: u64)
        requires
            self@.len() >= 1,
        ensures
            r == sub_bits(self@[self@.len() - 1], self@[0]),
    {
        scalar::fsub(self.knots[self.knots.len() - 1], self.knots[0])
    }

    /// Tests whether the knot vector is clamped for degree `k`.
    pub fn is_clamped(&self, k: usize) -> (r: bool)
        requires
            k + 1 <= self@.len(),
        ensures
            r == clamped_s(self@, k as nat),
    {
        let n = self.knots.len();
        scalar::eq(self.knots[0], self.knots[k])
            && scalar::eq(self.knots[n - 1 - k], self.knots[n - 1])
    }

    /// Inserts `x` at its sorted position and returns the insertion
    /// index; entries at most `x` stay in front of it.
    #[verifier::loop_isolation(false)]
    pub fn add_knot(&mut self, x: u64) -> (r: usize)
        requires
            old(self).wf(),
            !is_nan_bits(x),
        ensures
            r == ins_idx(old(self)@, x),
            final(self)@ == old(self)@.insert(r as int, x),
            final(self).wf(),
    {
        proof {
            lemma_ins_idx_char(self@, x);
        }
        let n = self.knots.len();
        let mut i: usize = 0;
        while i < n && scalar::le(self.knots[i], x)
            invariant
                i <= n,
                n == self@.len(),
                forall|j: int| 0 <= j < i ==> le_bits(self@[j], x),
            decreases n - i,
        {
            i = i + 1;
        }
        proof {
            // Both `i` and `ins_idx` are the first position that is not
            // at most `x`, so they coincide.
            let g = ins_idx(self@, x);
            if g < i {
                assert(le_bits(self@[g], x));
                assert(false);
            }
            if i < g {
                assert(le_bits(self@[i as int], x));
                assert(false);
            }
        }
        self.knots.insert(i, x);
        proof {
            let o = old(self)@;
            let s = self@;
            o.insert_ensures(i as int, x);
            lemma_sorted_pair(o, 0, o.len() - 1);
            assert forall|j: int| 0 <= j < s.len() - 1 implies #[trigger] le_bits(s[j], s[j + 1]) by {
                if j + 1 < i {
                    assert(s[j] == o[j] && s[j + 1] == o[j + 1]);
                } else if j + 1 == i {
                    assert(s[j] == o[j] && s[j + 1] == x);
                    assert(le_bits(o[j], x));
                } else if j == i {
                    assert(s[j] == x && s[j + 1] == o[j]);
                    assert(!le_bits(o[j], x));
                    lemma_sorted_pair(o, j, j);
                } else {
                    assert(s[j] == o[j - 1] && s[j + 1] == o[j]);
                    lemma_sorted_pair(o, j - 1, j);
                }
            }
            // The range stays non-empty: the strict pair of old ends
            // survives at the ends of the new sequence.
            let m = s.len() - 1;
            if i == 0 {
                assert(s[0] == x && s[m] == o[o.len() - 1]);
                assert(!le_bits(o[0], x));
                lemma_sorted_pair(o, 0, 0);
            } else if i == o.len() {
                assert(s[0] == o[0] && s[m] == x);
                assert(le_bits(o[o.len() - 1], x));
            } else {
                assert(s[0] == o[0] && s[m] == o[o.len() - 1]);
            }
        }
        i
    }

    /// Removes the interior knot at index `i`.
    pub fn remove(&mut self, i: usize)
        requires
            old(self).wf(),
            0 < i < old(self)@.len() - 1,
        ensures
            final(self)@ == old(self)@.remove(i as int),
            final(self).wf(),
    {
        self.knots.remove(i);
        proof {
            let o = old(self)@;
            let s = self@;
            o.remove_ensures(i as int);
            assert forall|j: int| 0 <= j < s.len() - 1 implies #[trigger] le_bits(s[j], s[j + 1]) by {
                if j + 1 < i {
                    assert(s[j] == o[j] && s[j + 1] == o[j + 1]);
                } else if j + 1 == i {
                    assert(s[j] == o[j] && s[j + 1] == o[j + 1 + 1]);
                    lemma_sorted_pair(o, j, j + 2);
                } else {
                    assert(s[j] == o[j + 1] && s[j + 1] == o[j + 2]);
                }
            }
            assert(s[0] == o[0] && s[s.len() - 1] == o[o.len() - 1]);
        }
    }

    /// Replaces the knots with `candidate` when that sequence satisfies
    /// the invariant; keeps the old knots otherwise.  Returns whether the
    /// replacement happened.
    fn install(&mut self, candidate: Vec<u64>) -> (r: bool)
        requires
            old(self).wf(),
        ensures
            r == knots_wf(candidate@),
            final(self)@ == if knots_wf(candidate@) { candidate@ } else { old(self)@ },
            final(self).wf(),
    {
        if candidate.len() < 2 {
            return false;
        }
        if !is_sorted(&candidate) {
            return false;
        }
        if !scalar::lt(candidate[0], candidate[candidate.len() - 1]) {
            return false;
        }
        self.knots = candidate;
        true
    }

    /// Every knot shifted by `x`.
    pub open spec fn translated_s(s: Seq<u64>, x: u64) -> Seq<u64> {
        Seq::new(s.len(), |i: int| add_bits(s[i], x))
    }

    /// Shifts every knot by `x`.  The shifted sequence is installed when
    /// rounding has kept it well-formed (IEEE-754 addition is monotone,
    /// so this can only fail on overflow to equal infinities); otherwise
    /// the knots are left unchanged.  Returns whether the shift happened.
    #[verifier::loop_isolation(false)]
    pub fn translate(&mut self, x: u64) -> (r: bool)
        requires
            old(self).wf(),
        ensures
            r == knots_wf(Self::translated_s(old(self)@, x)),
            final(self)@ == if knots_wf(Self::translated_s(old(self)@, x)) {
                Self::translated_s(old(self)@, x)
            } else {
                old(self)@
            },
            final(self).wf(),
    {
        let n = self.knots.len();
        let mut c: Vec<u64> = Vec::new();
        let mut i: usize = 0;
        while i < n
            invariant
                i <= n,
                n == self@.len(),
                c@.len() == i,
                forall|j: int| 0 <= j < i ==> c@[j] == add_bits(self@[j], x),
            decreases n - i,
        {
            c.push(scalar::fadd(self.knots[i], x));
            i = i + 1;
        }
        proof {
            assert(c@ =~= Self::translated_s(self@, x));
        }
        self.install(c)
    }

    /// Every knot rescaled so that the range becomes the unit interval.
    pub open spec fn normalized_s(s: Seq<u64>) -> Seq<u64> {
        Seq::new(
            s.len(),
            |i: int| div_bits(sub_bits(s[i], s[0]), sub_bits(s[s.len() - 1], s[0])),
        )
    }

    /// Rescales the knots to the unit interval.  Fails exactly when the
    /// range is zero up to the linear tolerance; when rounding has kept
    /// the rescaled sequence well-formed it is installed, otherwise the
    /// knots are left unchanged.
    #[verifier::loop_isolation(false)]
    pub fn try_normalize(&mut self) -> (r: Result<bool, Error>)
        requires
            old(self).wf(),
        ensures
            final(self).wf(),
            so_small_bits(sub_bits(old(self)@[old(self)@.len() - 1], old(self)@[0]))
                <==> r == Result::<bool, Error>::Err(Error::ZeroRange),
            r is Err ==> final(self)@ == old(self)@ && r == Result::<bool, Error>::Err(
                Error::ZeroRange,
            ),
            r is Ok ==> final(self)@ == if knots_wf(Self::normalized_s(old(self)@)) {
                Self::normalized_s(old(self)@)
            } else {
                old(self)@
            },
            r is Ok ==> r == Result::<bool, Error>::Ok(knots_wf(Self::normalized_s(old(self)@))),
            r is Ok && is_finite_bits(old(self)@[0]) && !is_nan_bits(
                sub_bits(old(self)@[old(self)@.len() - 1], old(self)@[0]),
            ) && key_of(sub_bits(old(self)@[old(self)@.len() - 1], old(self)@[0])) > 0
                ==> Self::normalized_s(old(self)@)[0] == 0u64,
            r is Ok && is_finite_bits(
                sub_bits(old(self)@[old(self)@.len() - 1], old(self)@[0]),
            ) && key_of(sub_bits(old(self)@[old(self)@.len() - 1], old(self)@[0])) != 0
                ==> Self::normalized_s(old(self)@)[old(self)@.len() - 1] == ONE_BITS,
            old(self).wf() && old(self)@[0] == 0u64 && old(self)@[old(self)@.len() - 1]
                == ONE_BITS ==> r == Result::<bool, Error>::Ok(true) && final(self)@ == old(
                self,
            )@ && Self::normalized_s(old(self)@) == old(self)@,
    {
        let n = self.knots.len();
        let range = scalar::fsub(self.knots[self.knots.len() - 1], self.knots[0]);
        if tolerance::so_small(range) {
            return Err(Error::ZeroRange);
        }
        let first = self.knots[0];
        proof {
            if self@[0] == 0u64 && self@[n - 1] == ONE_BITS {
                assert(range == ONE_BITS);
            }
        }
        let mut c: Vec<u64> = Vec::new();
        let mut i: usize = 0;
        while i < n
            invariant
                i <= n,
                n == self@.len(),
                n >= 2,
                first == self@[0],
                range == sub_bits(self@[n - 1], self@[0]),
                c@.len() == i,
                forall|j: int| 0 <= j < i ==> c@[j] == div_bits(
                    sub_bits(self@[j], self@[0]),
                    sub_bits(self@[n - 1], self@[0]),
                ),
                !so_small_bits(range),
                i > 0 && is_finite_bits(self@[0]) && !is_nan_bits(range) && key_of(range) > 0
                    ==> c@[0] == 0u64,
                i == n && is_finite_bits(range) && key_of(range) != 0 ==> c@[n - 1] == ONE_BITS,
                self@[0] == 0u64 && self@[n - 1] == ONE_BITS ==> range == ONE_BITS && forall|
                    j: int,
                | 0 <= j < i ==> c@[j] == self@[j],
            decreases n - i,
        {
            proof {
                knot_vec_entry_not_nan(self@, i as int);
            }
            let num = scalar::fsub(self.knots[i], first);
            proof {
                if i == 0 && is_finite_bits(self@[0]) {
                    assert(num == 0u64);
                }
                if self@[0] == 0u64 && self@[n - 1] == ONE_BITS {
                    assert(num == self@[i as int]);
                }
            }
            let q = scalar::fdiv(num, range);
            c.push(q);
            i = i + 1;
        }
        proof {
            assert(c@ =~= Self::normalized_s(self@));
            if self@[0] == 0u64 && self@[n - 1] == ONE_BITS {
                assert(c@ =~= self@);
            }
        }
        let installed = self.install(c);
        Ok(installed)
    }

    /// The clamped Bezier knot vector of the given degree: `degree + 1`
    /// zeros followed by `degree + 1` ones.
    #[verifier::loop_isolation(false)]
    pub fn bezier_knot(degree: usize) -> (r: KnotVec)
        requires
            degree < usize::MAX / 2,
        ensures
            r@.len() == 2 * degree + 2,
            forall|i: int| 0 <= i <= degree ==> r@[i] == 0u64,
            forall|i: int| degree < i < 2 * degree + 2 ==> r@[i] == ONE_BITS,
            r.wf(),
    {
        let mut v: Vec<u64> = Vec::new();
        let mut i: usize = 0;
        while i < degree + 1
            invariant
                i <= degree + 1,
                v@.len() == i,
                forall|j: int| 0 <= j < i ==> v@[j] == 0u64,
            decreases degree + 1 - i,
        {
            v.push(0u64);
            i = i + 1;
        }
        let mut j: usize = 0;
        while j < degree + 1
            invariant
                j <= degree + 1,
                v@.len() == degree + 1 + j,
                forall|q: int| 0 <= q <= degree ==> v@[q] == 0u64,
                forall|q: int| degree < q < degree + 1 + j ==> v@[q] == ONE_BITS,
            decreases degree + 1 - j,
        {
            v.push(ONE_BITS);
            j = j + 1;
        }
        proof {
            assert(le_bits(0u64, 0u64));
            assert(le_bits(0u64, ONE_BITS));
            assert(le_bits(ONE_BITS, ONE_BITS));
            assert(lt_bits(0u64, ONE_BITS));
            assert forall|q: int| 0 <= q < v@.len() - 1 implies #[trigger] le_bits(v@[q], v@[q + 1]) by {
            }
            assert(lt_bits(v@[0], v@[v@.len() - 1]));
        }
        KnotVec { knots: v }
    }

    /// The degree-`k` B-spline basis function values at `t`: the array
    /// `B[0 .. len - k - 1]` computed by the triangular up-recurrence
    /// from the unit pulse of the span holding the clamped parameter.
    #[verifier::rlimit(50)]
    #[verifier::loop_isolation(false)]
    pub fn bspline_basis_functions(&self, degree: usize, t: u64) -> (r: Vec<u64>)
        requires
            self.wf(),
            degree + 2 <= self@.len(),
        ensures
            r@ == basis_s(self@, degree as nat, t),
            r@.len() == self@.len() - degree - 1,
    {
        let n = self.knots.len();
        let t2 = if scalar::lt(t, self.knots[0]) {
            self.knots[0]
        } else if scalar::lt(self.knots[n - 1], t) {
            self.knots[n - 1]
        } else {
            t
        };
        assert(t2 == clamp_t(self@, t));

        // The span index carrying the unit pulse.
        let p: usize = if scalar::eq(t2, self.knots[n - 1]) {
            let mut q: usize = n - 1;
            proof {
                lemma_last_span_char(self@, n - 1);
            }
            while q > 0 && !scalar::lt(self.knots[q - 1], self.knots[n - 1])
                invariant
                    0 <= q <= n - 1,
                    n == self@.len(),
                    n >= 2,
                    self.wf(),
                    last_span_start(self@, n - 1) == last_span_start(self@, q as int),
                decreases q,
            {
                q = q - 1;
            }
            if q > 0 {
                q - 1
            } else {
                0
            }
        } else {
            proof {
                lemma_upper_idx_char(self@, t2);
            }
            let mut q: usize = 0;
            while q < n && !scalar::lt(t2, self.knots[q])
                invariant
                    0 <= q <= n,
                    n == self@.len(),
                    forall|j: int| 0 <= j < q ==> !lt_bits(t2, self@[j]),
                decreases n - q,
            {
                q = q + 1;
            }
            proof {
                let g = upper_idx(self@, t2);
                if g < q {
                    assert(!lt_bits(t2, self@[g]));
                    assert(false);
                }
                if q < g {
                    assert(!lt_bits(t2, self@[q as int]));
                    assert(false);
                }
            }
            if q > 0 {
                q - 1
            } else {
                // Unreachable for an orderable parameter: after clamping
                // the first knot is not above `t2`; a NaN parameter lands
                // here and yields the all-zero pulse.
                n
            }
        };
        proof {
            assert(p as int == start_span(self@, t2)
                || (p == n && start_span(self@, t2) == upper_idx(self@, t2) - 1));
        }

        // Degree-zero level: the unit pulse.
        let mut cur: Vec<u64> = Vec::new();
        let mut i: usize = 0;
        while i < n - 1
            invariant
                i <= n - 1,
                n == self@.len(),
                cur@.len() == i,
                forall|j: int| 0 <= j < i ==> cur@[j] == (
                    if j == p { ONE_BITS } else { 0u64 }
                ),
            decreases n - 1 - i,
        {
            if i == p {
                cur.push(ONE_BITS);
            } else {
                cur.push(0u64);
            }
            i = i + 1;
        }
        proof {
            if p < n {
                assert(cur@ =~= pulse((n - 1) as nat, p as int));
            } else {
                assert(start_span(self@, t2) == upper_idx(self@, t2) - 1);
                assert(cur@ =~= pulse((n - 1) as nat, start_span(self@, t2)));
            }
            assert(cur@ == basis_level(self@, t2, 0));
        }

        // Triangular up-recurrence.
        let mut d: usize = 1;
        while d <= degree
            invariant
                1 <= d <= degree + 1,
                n == self@.len(),
                degree + 2 <= n,
                self.wf(),
                cur@.len() == n - d,
                cur@ == basis_level(self@, t2, (d - 1) as nat),
            decreases degree + 1 - d,
    {
            let mut next: Vec<u64> = Vec::new();
            let mut i2: usize = 0;
            while i2 < n - d - 1
                invariant
                    i2 <= n - d - 1,
                    n == self@.len(),
                    1 <= d,
                    d + 1 < n,
                    self.wf(),
                    cur@.len() == n - d,
                    next@.len() == i2,
                    forall|j: int| 0 <= j < i2 ==> next@[j] == basis_next(
                        self@, t2, d as int, cur@,
                    )[j],
                decreases n - d - 1 - i2,
            {
                let a = scalar::fmul(
                    scalar::fmul(
                        scalar::fsub(t2, self.knots[i2]),
                        tolerance::inv_or_zero(scalar::fsub(self.knots[i2 + d], self.knots[i2])),
                    ),
                    cur[i2],
                );
                let b = scalar::fmul(
                    scalar::fmul(
                        scalar::fsub(self.knots[i2 + d + 1], t2),
                        tolerance::inv_or_zero(
                            scalar::fsub(self.knots[i2 + d + 1], self.knots[i2 + 1]),
                        ),
                    ),
                    cur[i2 + 1],
                );
                next.push(scalar::fadd(a, b));
                i2 = i2 + 1;
            }
            proof {
                assert(next@ =~= basis_next(self@, t2, d as int, cur@));
            }
            cur = next;
            d = d + 1;
        }
        cur
    }
}

/// Tests whether adjacent entries are ordered by the IEEE-754 order.
#[verifier::loop_isolation(false)]
pub fn is_sorted(v: &Vec<u64>) -> (r: bool)
    ensures
        r == sorted_bits(v@),
{
    let n = v.len();
    if n <= 1 {
        return true;
    }
    let mut i: usize = 0;
    while i < n - 1
        invariant
            i <= n - 1,
            n == v@.len(),
            forall|j: int| 0 <= j < i ==> #[trigger] le_bits(v@[j], v@[j + 1]),
        decreases n - 1 - i,
    {
        if !scalar::le(v[i], v[i + 1]) {
            return false;
        }
        i = i + 1;
    }
    true
}

/// An owned copy of a scalar sequence.
#[verifier::loop_isolation(false)]
pub fn copy_scalars(a: &Vec<u64>) -> (r: Vec<u64>)
    ensures
        r@ == a@,
{
    let n = a.len();
    let mut r: Vec<u64> = Vec::new();
    let mut i: usize = 0;
    while i < n
        invariant
            i <= n,
            n == a@.len(),
            r@.len() == i,
            forall|j: int| 0 <= j < i ==> r@[j] == a@[j],
        decreases n - i,
    {
        r.push(a[i]);
        i = i + 1;
    }
    proof {
        assert(r@ =~= a@);
    }
    r
}

} // verus!
