//! The mathematics of weighted inversions: what the sorting and correlation
//! routines compute, and the algebra their proofs rest on.
//!
//! An observation is a pair of a value and a non-negative integer weight.
use vstd::prelude::*;
use crate::statistics::sums::{
    lemma_sum_by_concat, lemma_sum_by_nonneg, lemma_sum_by_perm, lemma_sum_by_pointwise, sum_by,
};
use vstd::seq_lib::*;

verus! {

/// The observations formed by values and weights taken position by position.
pub open spec fn pairs(d: Seq<i64>, w: Seq<u64>) -> Seq<(i64, u64)>
    recommends
        d.len() == w.len(),
{
    Seq::new(d.len(), |i: int| (d[i], w[i]))
}

/// An observation's weight.
pub open spec fn weight_of() -> spec_fn((i64, u64)) -> int {
    |e: (i64, u64)| e.1 as int
}

/// An observation's weight if its value exceeds `v`, else nothing.
pub open spec fn weight_if_above(v: i64) -> spec_fn((i64, u64)) -> int {
    |e: (i64, u64)|
        if e.0 > v {
            e.1 as int
        } else {
            0
        }
}

/// The total weight of `s`.
pub open spec fn total_mass(s: Seq<(i64, u64)>) -> int {
    sum_by(s, weight_of())
}

/// The weight of those observations of `s` whose value exceeds `v`.
pub open spec fn mass_above(s: Seq<(i64, u64)>, v: i64) -> int {
    sum_by(s, weight_if_above(v))
}

/// An observation's weight times the weight of what exceeds it in `a`.
pub open spec fn cross_term(a: Seq<(i64, u64)>) -> spec_fn((i64, u64)) -> int {
    |e: (i64, u64)| e.1 * mass_above(a, e.0)
}

/// The weighted number of pairs, one observation from `a` and one from `b`,
/// in which the one from `a` has the larger value.
pub open spec fn cross_mass(a: Seq<(i64, u64)>, b: Seq<(i64, u64)>) -> int {
    sum_by(b, cross_term(a))
}

/// The weighted inversion count of `s`: the sum of `s[i].1 * s[j].1` over all
/// positions `i < j` with `s[i].0 > s[j].0`.
pub open spec fn inversion_mass(s: Seq<(i64, u64)>) -> int
    decreases s.len(),
{
    if s.len() == 0 {
        0
    } else {
        inversion_mass(s.drop_last()) + s.last().1 * mass_above(s.drop_last(), s.last().0)
    }
}

/// Values never decrease from one position to the next one.
pub open spec fn sorted(s: Seq<(i64, u64)>) -> bool {
    forall|i: int, j: int| 0 <= i <= j < s.len() ==> s[i].0 <= s[j].0
}

/// Values never decrease along a plain sequence.
pub open spec fn non_decreasing(d: Seq<i64>) -> bool {
    forall|i: int, j: int| 0 <= i <= j < d.len() ==> d[i] <= d[j]
}

/// Masses are non-negative, and no part weighs more than the whole.
pub proof fn lemma_mass_bounds(s: Seq<(i64, u64)>, v: i64)
    ensures
        0 <= mass_above(s, v) <= total_mass(s),
    decreases s.len(),
{
    if s.len() > 0 {
        lemma_mass_bounds(s.drop_last(), v);
    }
}

/// Nothing of `s` exceeds `v`: the mass above `v` is zero.
pub proof fn lemma_mass_above_none(s: Seq<(i64, u64)>, v: i64)
    requires
        forall|i: int| 0 <= i < s.len() ==> (#[trigger] s[i]).0 <= v,
    ensures
        mass_above(s, v) == 0,
    decreases s.len(),
{
    if s.len() > 0 {
        lemma_mass_above_none(s.drop_last(), v);
    }
}

/// All of `s` exceeds `v`: the mass above `v` is the total mass.
pub proof fn lemma_mass_above_all(s: Seq<(i64, u64)>, v: i64)
    requires
        forall|i: int| 0 <= i < s.len() ==> (#[trigger] s[i]).0 > v,
    ensures
        mass_above(s, v) == total_mass(s),
    decreases s.len(),
{
    if s.len() > 0 {
        lemma_mass_above_all(s.drop_last(), v);
    }
}

/// The cross mass is non-negative.
pub proof fn lemma_cross_nonneg(a: Seq<(i64, u64)>, b: Seq<(i64, u64)>)
    ensures
        cross_mass(a, b) >= 0,
{
    let g = cross_term(a);
    assert forall|i: int| 0 <= i < b.len() implies g(#[trigger] b[i]) >= 0 by {
        lemma_mass_bounds(a, b[i].0);
        let m = mass_above(a, b[i].0);
        let w = b[i].1 as int;
        assert(w * m >= 0) by (nonlinear_arith)
            requires
                w >= 0,
                m >= 0,
        ;
    }
    lemma_sum_by_nonneg(b, g);
}

/// The cross mass depends on its first argument only up to order.
pub proof fn lemma_cross_perm_left(
    a1: Seq<(i64, u64)>,
    a2: Seq<(i64, u64)>,
    b: Seq<(i64, u64)>,
)
    requires
        a1.to_multiset() == a2.to_multiset(),
    ensures
        cross_mass(a1, b) == cross_mass(a2, b),
{
    let g = cross_term(a1);
    let h = cross_term(a2);
    assert forall|i: int| 0 <= i < b.len() implies g(#[trigger] b[i]) == h(b[i]) by {
        lemma_sum_by_perm(a1, a2, weight_if_above(b[i].0));
    }
    lemma_sum_by_pointwise(b, g, h);
}

/// The cross mass depends on its second argument only up to order.
pub proof fn lemma_cross_perm_right(
    a: Seq<(i64, u64)>,
    b1: Seq<(i64, u64)>,
    b2: Seq<(i64, u64)>,
)
    requires
        b1.to_multiset() == b2.to_multiset(),
    ensures
        cross_mass(a, b1) == cross_mass(a, b2),
{
    lemma_sum_by_perm(b1, b2, cross_term(a));
}

/// The inversions of a concatenation: those inside each part, and those
/// across.
pub proof fn lemma_inversion_concat(a: Seq<(i64, u64)>, b: Seq<(i64, u64)>)
    ensures
        inversion_mass(a + b) == inversion_mass(a) + inversion_mass(b) + cross_mass(a, b),
    decreases b.len(),
{
    if b.len() == 0 {
        assert(a + b =~= a);
    } else {
        let b0 = b.drop_last();
        let e = b.last();
        lemma_inversion_concat(a, b0);
        assert((a + b).drop_last() =~= a + b0);
        assert((a + b).last() == e);
        lemma_sum_by_concat(a, b0, weight_if_above(e.0));
        let w = e.1 as int;
        let x = mass_above(a, e.0);
        let y = mass_above(b0, e.0);
        assert(w * (x + y) == w * x + w * y) by (nonlinear_arith);
        assert(cross_term(a)(e) == w * x);
    }
}

/// A sorted sequence has no inversions.
pub proof fn lemma_sorted_no_inversions(s: Seq<(i64, u64)>)
    requires
        sorted(s),
    ensures
        inversion_mass(s) == 0,
    decreases s.len(),
{
    if s.len() > 0 {
        let s0 = s.drop_last();
        assert(sorted(s0));
        lemma_sorted_no_inversions(s0);
        lemma_mass_above_none(s0, s.last().0);
    }
}

/// The inversion mass is non-negative and at most the square of the total
/// mass.
pub proof fn lemma_inversion_bounds(s: Seq<(i64, u64)>)
    ensures
        0 <= inversion_mass(s) <= total_mass(s) * total_mass(s),
        0 <= total_mass(s),
    decreases s.len(),
{
    if s.len() == 0 {
    } else {
        let s0 = s.drop_last();
        let e = s.last();
        lemma_inversion_bounds(s0);
        lemma_mass_bounds(s0, e.0);
        let w = e.1 as int;
        let m = mass_above(s0, e.0);
        let t = total_mass(s0);
        let i0 = inversion_mass(s0);
        assert(0 <= w * m && i0 + w * m <= (t + w) * (t + w)) by (nonlinear_arith)
            requires
                0 <= w,
                0 <= m <= t,
                0 <= i0 <= t * t,
        ;
    }
}

/// Replacing the front of a sequence and the block behind it, each by a
/// rearrangement of itself, changes the inversion mass by what changes inside
/// the two pieces.
pub proof fn lemma_block_extend(
    x: Seq<(i64, u64)>,
    u: Seq<(i64, u64)>,
    y: Seq<(i64, u64)>,
    v: Seq<(i64, u64)>,
)
    requires
        x.to_multiset() == y.to_multiset(),
        u.to_multiset() == v.to_multiset(),
    ensures
        inversion_mass(x + u) - inversion_mass(y + v) == inversion_mass(x) - inversion_mass(y)
            + inversion_mass(u) - inversion_mass(v),
        (x + u).to_multiset() == (y + v).to_multiset(),
{
    lemma_inversion_concat(x, u);
    lemma_inversion_concat(y, v);
    lemma_cross_perm_left(x, y, u);
    lemma_cross_perm_right(y, u, v);
    lemma_multiset_commutative(x, u);
    lemma_multiset_commutative(y, v);
}

/// The number of items of `d` that exceed `v`.
pub open spec fn count_above(d: Seq<i64>, v: i64) -> int
    decreases d.len(),
{
    if d.len() == 0 {
        0
    } else {
        count_above(d.drop_last(), v) + if d.last() > v {
            1int
        } else {
            0int
        }
    }
}

/// The classical inversion count of `d`: the number of pairs of positions
/// `i < j` with `d[i] > d[j]`.
pub open spec fn inversion_count(d: Seq<i64>) -> int
    decreases d.len(),
{
    if d.len() == 0 {
        0
    } else {
        inversion_count(d.drop_last()) + count_above(d.drop_last(), d.last())
    }
}

/// With every weight equal to one, the mass above a value is the number of
/// items above it.
pub proof fn lemma_unit_mass_above(d: Seq<i64>, w: Seq<u64>, v: i64)
    requires
        d.len() == w.len(),
        forall|i: int| 0 <= i < w.len() ==> w[i] == 1,
    ensures
        mass_above(pairs(d, w), v) == count_above(d, v),
    decreases d.len(),
{
    if d.len() > 0 {
        lemma_unit_mass_above(d.drop_last(), w.drop_last(), v);
        assert(pairs(d, w).drop_last() =~= pairs(d.drop_last(), w.drop_last()));
    }
}

/// With every weight equal to one, the weighted inversion count is the
/// classical inversion count.
pub proof fn lemma_unit_weights_count_inversions(d: Seq<i64>, w: Seq<u64>)
    requires
        d.len() == w.len(),
        forall|i: int| 0 <= i < w.len() ==> w[i] == 1,
    ensures
        inversion_mass(pairs(d, w)) == inversion_count(d),
    decreases d.len(),
{
    if d.len() > 0 {
        lemma_unit_weights_count_inversions(d.drop_last(), w.drop_last());
        lemma_unit_mass_above(d.drop_last(), w.drop_last(), d.last());
        assert(pairs(d, w).drop_last() =~= pairs(d.drop_last(), w.drop_last()));
    }
}

} // verus!
