//! Weighted Kendall's Tau-b, computed exactly.
//!
//! An observation is a triple of two values and a non-negative integer
//! weight. All masses are sums of products of two weights over pairs of
//! observations.
use crate::error::ImgalError;
use crate::statistics::inversion::{inversion_mass, pairs, weight_if_above, weight_of};
use crate::statistics::sort::{
    lemma_weight_sum_nonneg, total_weight, weight_sum, weighted_merge_sort_mut,
};
use crate::statistics::sums::{
    lemma_lower_sum_le, lemma_lower_sum_map, lemma_lower_sum_nonneg, lemma_lower_sum_perm,
    lemma_sum_by_map, lemma_sum_by_perm, lemma_sum_by_scale, lemma_sum_by_zero, lower_sum,
    sum_by, symmetric, with_first,
};
use vstd::prelude::*;

verus! {

/// The observations formed by two sequences of values and one of weights,
/// taken position by position.
pub open spec fn observations(a: Seq<i64>, b: Seq<i64>, w: Seq<u64>) -> Seq<(i64, i64, u64)>
    recommends
        a.len() == b.len(),
        a.len() == w.len(),
{
    Seq::new(a.len(), |i: int| (a[i], b[i], w[i]))
}

/// The weight of an observation.
pub open spec fn obs_weight() -> spec_fn((i64, i64, u64)) -> int {
    |f: (i64, i64, u64)| f.2 as int
}

/// The weight of an observation whose first value is `v`, else nothing.
pub open spec fn weight_if_same_a(v: i64) -> spec_fn((i64, i64, u64)) -> int {
    |f: (i64, i64, u64)|
        if f.0 == v {
            f.2 as int
        } else {
            0
        }
}

/// The weight of an observation whose values are `va` and `vb`, else nothing.
pub open spec fn weight_if_same_both(va: i64, vb: i64) -> spec_fn((i64, i64, u64)) -> int {
    |f: (i64, i64, u64)|
        if f.0 == va && f.1 == vb {
            f.2 as int
        } else {
            0
        }
}

/// Two observations are ordered the same way by both values.
pub open spec fn agree(e: (i64, i64, u64), f: (i64, i64, u64)) -> bool {
    (e.0 < f.0 && e.1 < f.1) || (e.0 > f.0 && e.1 > f.1)
}

/// Two observations are ordered one way by the first value and the other way
/// by the second.
pub open spec fn disagree(e: (i64, i64, u64), f: (i64, i64, u64)) -> bool {
    (e.0 < f.0 && e.1 > f.1) || (e.0 > f.0 && e.1 < f.1)
}

/// The product of the weights of every pair.
pub open spec fn every_pair() -> spec_fn((i64, i64, u64), (i64, i64, u64)) -> int {
    |e: (i64, i64, u64), f: (i64, i64, u64)| e.2 * f.2
}

/// The product of the weights of a pair with equal first values.
pub open spec fn tied_in_a() -> spec_fn((i64, i64, u64), (i64, i64, u64)) -> int {
    |e: (i64, i64, u64), f: (i64, i64, u64)|
        e.2 * (if f.0 == e.0 {
            f.2 as int
        } else {
            0
        })
}

/// The product of the weights of a pair with equal second values.
pub open spec fn tied_in_b() -> spec_fn((i64, i64, u64), (i64, i64, u64)) -> int {
    |e: (i64, i64, u64), f: (i64, i64, u64)|
        e.2 * (if f.1 == e.1 {
            f.2 as int
        } else {
            0
        })
}

/// The product of the weights of a pair equal in both values.
pub open spec fn tied_in_both() -> spec_fn((i64, i64, u64), (i64, i64, u64)) -> int {
    |e: (i64, i64, u64), f: (i64, i64, u64)|
        e.2 * (if f.0 == e.0 && f.1 == e.1 {
            f.2 as int
        } else {
            0
        })
}

/// The product of the weights of a concordant pair.
pub open spec fn concordant() -> spec_fn((i64, i64, u64), (i64, i64, u64)) -> int {
    |e: (i64, i64, u64), f: (i64, i64, u64)|
        e.2 * (if agree(e, f) {
            f.2 as int
        } else {
            0
        })
}

/// The product of the weights of a discordant pair.
pub open spec fn discordant() -> spec_fn((i64, i64, u64), (i64, i64, u64)) -> int {
    |e: (i64, i64, u64), f: (i64, i64, u64)|
        e.2 * (if disagree(e, f) {
            f.2 as int
        } else {
            0
        })
}

/// The weighted number of pairs of observations: the sum of `w[i] * w[j]`
/// over all positions `i < j`.
pub open spec fn pair_mass(s: Seq<(i64, i64, u64)>) -> int {
    lower_sum(s, every_pair())
}

/// The weighted number of pairs tied in the first value.
pub open spec fn tie_mass_a(s: Seq<(i64, i64, u64)>) -> int {
    lower_sum(s, tied_in_a())
}

/// The weighted number of pairs tied in the second value.
pub open spec fn tie_mass_b(s: Seq<(i64, i64, u64)>) -> int {
    lower_sum(s, tied_in_b())
}

/// The weighted number of pairs tied in both values.
pub open spec fn tie_mass_both(s: Seq<(i64, i64, u64)>) -> int {
    lower_sum(s, tied_in_both())
}

/// The weighted number of concordant pairs.
pub open spec fn concordant_mass(s: Seq<(i64, i64, u64)>) -> int {
    lower_sum(s, concordant())
}

/// The weighted number of discordant pairs.
pub open spec fn discordant_mass(s: Seq<(i64, i64, u64)>) -> int {
    lower_sum(s, discordant())
}

/// Weighted Kendall's Tau-b as an exact quantity.
#[derive(Debug, Clone, Copy, PartialEq, Eq, Structural)]
pub enum TauB {
    /// Every pair that carries weight is tied in both variables: no
    /// coefficient is defined.
    Undefined,
    /// There is nothing to compare, or exactly one variable is constant: the
    /// coefficient is reported as zero.
    Zero,
    /// The coefficient `numerator / sqrt(untied_a * untied_b)`, where both
    /// factors under the root are positive. The numerator is twice the
    /// concordant mass less twice the discordant mass; `untied_a` is twice
    /// the mass of the pairs that are not tied in the first variable, and
    /// `untied_b` the same for the second.
    Ratio { numerator: i128, untied_a: u128, untied_b: u128 },
}

/// Weighted Kendall's Tau-b of a sequence of observations.
pub open spec fn tau_b_of(s: Seq<(i64, i64, u64)>) -> TauB {
    let ua = 2 * (pair_mass(s) - tie_mass_a(s));
    let ub = 2 * (pair_mass(s) - tie_mass_b(s));
    if s.len() < 2 {
        TauB::Zero
    } else if ua == 0 && ub == 0 {
        TauB::Undefined
    } else if ua == 0 || ub == 0 {
        TauB::Zero
    } else {
        TauB::Ratio {
            numerator: (2 * (concordant_mass(s) - discordant_mass(s))) as i128,
            untied_a: ua as u128,
            untied_b: ub as u128,
        }
    }
}

/// Observations in the order of their first value and, among equal first
/// values, of their second.
pub open spec fn key_sorted(s: Seq<(i64, i64, u64)>) -> bool {
    forall|i: int, j: int|
        0 <= i < j < s.len() ==> s[i].0 < s[j].0 || (s[i].0 == s[j].0 && s[i].1 <= s[j].1)
}

/// Observations in the order of triples: by the first value, then the second,
/// then the weight.
pub open spec fn lex_sorted(s: Seq<(i64, i64, u64)>) -> bool {
    forall|i: int, j: int|
        0 <= i < j < s.len() ==> s[i].0 < s[j].0 || (s[i].0 == s[j].0 && (s[i].1 < s[j].1 || (
        s[i].1 == s[j].1 && s[i].2 <= s[j].2)))
}

/// Every pair of observations is tied in the first value, tied in the second,
/// concordant or discordant; only those tied in both are of two kinds.
pub proof fn lemma_partition(s: Seq<(i64, i64, u64)>)
    ensures
        pair_mass(s) == tie_mass_a(s) + tie_mass_b(s) - tie_mass_both(s) + concordant_mass(s)
            + discordant_mass(s),
    decreases s.len(),
{
    if s.len() > 0 {
        lemma_partition(s.drop_last());
        lemma_partition_row(s.drop_last(), s.last());
    }
}

proof fn lemma_partition_row(p: Seq<(i64, i64, u64)>, e: (i64, i64, u64))
    ensures
        sum_by(p, with_first(every_pair(), e)) == sum_by(p, with_first(tied_in_a(), e)) + sum_by(
            p,
            with_first(tied_in_b(), e),
        ) - sum_by(p, with_first(tied_in_both(), e)) + sum_by(p, with_first(concordant(), e))
            + sum_by(p, with_first(discordant(), e)),
    decreases p.len(),
{
    if p.len() > 0 {
        lemma_partition_row(p.drop_last(), e);
    }
}

/// None of the six kernels depends on the order of its arguments.
pub proof fn lemma_kernels_symmetric()
    ensures
        symmetric(every_pair()),
        symmetric(tied_in_a()),
        symmetric(tied_in_b()),
        symmetric(tied_in_both()),
        symmetric(concordant()),
        symmetric(discordant()),
{
    assert forall|e: (i64, i64, u64), f: (i64, i64, u64)| e.2 * f.2 == f.2 * e.2 by {
        assert(e.2 * f.2 == f.2 * e.2) by (nonlinear_arith);
    }
    assert forall|e: (i64, i64, u64), f: (i64, i64, u64)| #[trigger]
        every_pair()(e, f) == every_pair()(f, e) by {
        assert(e.2 * f.2 == f.2 * e.2);
    }
    assert forall|e: (i64, i64, u64), f: (i64, i64, u64)| #[trigger]
        tied_in_a()(e, f) == tied_in_a()(f, e) by {
        assert(e.2 * f.2 == f.2 * e.2);
    }
    assert forall|e: (i64, i64, u64), f: (i64, i64, u64)| #[trigger]
        tied_in_b()(e, f) == tied_in_b()(f, e) by {
        assert(e.2 * f.2 == f.2 * e.2);
    }
    assert forall|e: (i64, i64, u64), f: (i64, i64, u64)| #[trigger]
        tied_in_both()(e, f) == tied_in_both()(f, e) by {
        assert(e.2 * f.2 == f.2 * e.2);
    }
    assert forall|e: (i64, i64, u64), f: (i64, i64, u64)| #[trigger]
        concordant()(e, f) == concordant()(f, e) by {
        assert(e.2 * f.2 == f.2 * e.2);
    }
    assert forall|e: (i64, i64, u64), f: (i64, i64, u64)| #[trigger]
        discordant()(e, f) == discordant()(f, e) by {
        assert(e.2 * f.2 == f.2 * e.2);
    }
}

/// No mass is negative.
pub proof fn lemma_masses_nonneg(s: Seq<(i64, i64, u64)>)
    ensures
        0 <= pair_mass(s),
        0 <= tie_mass_a(s),
        0 <= tie_mass_b(s),
        0 <= tie_mass_both(s),
        0 <= concordant_mass(s),
        0 <= discordant_mass(s),
{
    assert forall|e: (i64, i64, u64), f: (i64, i64, u64)| 0 <= e.2 * f.2 by {
        assert(0 <= e.2 * f.2) by (nonlinear_arith);
    }
    assert forall|e: (i64, i64, u64), f: (i64, i64, u64)| #[trigger] every_pair()(e, f) >= 0 by {
        assert(0 <= e.2 * f.2);
    }
    assert forall|e: (i64, i64, u64), f: (i64, i64, u64)| #[trigger] tied_in_a()(e, f) >= 0 by {
        assert(0 <= e.2 * f.2);
    }
    assert forall|e: (i64, i64, u64), f: (i64, i64, u64)| #[trigger] tied_in_b()(e, f) >= 0 by {
        assert(0 <= e.2 * f.2);
    }
    assert forall|e: (i64, i64, u64), f: (i64, i64, u64)| #[trigger] tied_in_both()(e, f)
        >= 0 by {
        assert(0 <= e.2 * f.2);
    }
    assert forall|e: (i64, i64, u64), f: (i64, i64, u64)| #[trigger] concordant()(e, f) >= 0 by {
        assert(0 <= e.2 * f.2);
    }
    assert forall|e: (i64, i64, u64), f: (i64, i64, u64)| #[trigger] discordant()(e, f) >= 0 by {
        assert(0 <= e.2 * f.2);
    }
    lemma_lower_sum_nonneg(s, every_pair());
    lemma_lower_sum_nonneg(s, tied_in_a());
    lemma_lower_sum_nonneg(s, tied_in_b());
    lemma_lower_sum_nonneg(s, tied_in_both());
    lemma_lower_sum_nonneg(s, concordant());
    lemma_lower_sum_nonneg(s, discordant());
}

/// The masses do not depend on the order of the observations.
pub proof fn lemma_masses_perm(s: Seq<(i64, i64, u64)>, t: Seq<(i64, i64, u64)>)
    requires
        s.to_multiset() == t.to_multiset(),
    ensures
        pair_mass(s) == pair_mass(t),
        tie_mass_a(s) == tie_mass_a(t),
        tie_mass_b(s) == tie_mass_b(t),
        tie_mass_both(s) == tie_mass_both(t),
        concordant_mass(s) == concordant_mass(t),
        discordant_mass(s) == discordant_mass(t),
        sum_by(s, obs_weight()) == sum_by(t, obs_weight()),
        s.len() == t.len(),
{
    lemma_kernels_symmetric();
    lemma_lower_sum_perm(s, t, every_pair());
    lemma_lower_sum_perm(s, t, tied_in_a());
    lemma_lower_sum_perm(s, t, tied_in_b());
    lemma_lower_sum_perm(s, t, tied_in_both());
    lemma_lower_sum_perm(s, t, concordant());
    lemma_lower_sum_perm(s, t, discordant());
    lemma_sum_by_perm(s, t, obs_weight());
    vstd::seq_lib::to_multiset_len(s);
    vstd::seq_lib::to_multiset_len(t);
}

/// The value of a coefficient does not depend on the order in which the
/// observations are given.
pub proof fn lemma_tau_b_order_invariant(s: Seq<(i64, i64, u64)>, t: Seq<(i64, i64, u64)>)
    requires
        s.to_multiset() == t.to_multiset(),
    ensures
        tau_b_of(s) == tau_b_of(t),
{
    lemma_masses_perm(s, t);
}

/// The second value and the weight of an observation.
pub open spec fn second_pair() -> spec_fn((i64, i64, u64)) -> (i64, u64) {
    |e: (i64, i64, u64)| (e.1, e.2)
}

/// An observation's weight if its second value exceeds `v`, else nothing.
pub open spec fn weight_if_b_above(v: i64) -> spec_fn((i64, i64, u64)) -> int {
    |f: (i64, i64, u64)|
        if f.1 > v {
            f.2 as int
        } else {
            0
        }
}

/// In the order of the first value and then the second, the discordant pairs
/// are the inversions of the second value.
pub proof fn lemma_discordant_sorted(t: Seq<(i64, i64, u64)>)
    requires
        key_sorted(t),
    ensures
        discordant_mass(t) == inversion_mass(t.map_values(second_pair())),
    decreases t.len(),
{
    if t.len() > 0 {
        let t0 = t.drop_last();
        let e = t.last();
        let m = t.map_values(second_pair());
        assert(key_sorted(t0));
        lemma_discordant_sorted(t0);
        assert(m.drop_last() =~= t0.map_values(second_pair()));
        assert(m.last() == (e.1, e.2));
        let gh = weight_if_b_above(e.1);
        lemma_sum_by_map(t0, second_pair(), weight_if_above(e.1), gh);
        let row = with_first(discordant(), e);
        assert forall|i: int| 0 <= i < t0.len() implies row(#[trigger] t0[i]) == e.2 * gh(
            t0[i],
        ) by {
            let f = t0[i];
            assert(f == t[i]);
            assert(t[i].0 < t[t.len() - 1].0 || (t[i].0 == t[t.len() - 1].0 && t[i].1 <= t[t.len()
                - 1].1));
            assert(disagree(e, f) <==> f.1 > e.1);
        }
        lemma_sum_by_scale(t0, row, e.2 as int, gh);
    }
}

/// What one more observation adds to the three masses that a scan counts.
proof fn lemma_rows(pre: Seq<(i64, i64, u64)>, e: (i64, i64, u64))
    ensures
        sum_by(pre, with_first(every_pair(), e)) == e.2 * sum_by(pre, obs_weight()),
        sum_by(pre, with_first(tied_in_a(), e)) == e.2 * sum_by(pre, weight_if_same_a(e.0)),
        sum_by(pre, with_first(tied_in_both(), e)) == e.2 * sum_by(
            pre,
            weight_if_same_both(e.0, e.1),
        ),
{
    lemma_sum_by_scale(pre, with_first(every_pair(), e), e.2 as int, obs_weight());
    lemma_sum_by_scale(pre, with_first(tied_in_a(), e), e.2 as int, weight_if_same_a(e.0));
    lemma_sum_by_scale(
        pre,
        with_first(tied_in_both(), e),
        e.2 as int,
        weight_if_same_both(e.0, e.1),
    );
}

/// The state of a scan over sorted observations before position `j`: the
/// weight read so far, and the weight of what was read with the same first
/// value, and with the same two values, as the observation before `j`.
pub closed spec fn scanned(t: Seq<(i64, i64, u64)>, j: int, wp: int, ga: int, gab: int) -> bool {
    let pre = t.subrange(0, j);
    &&& 0 <= j <= t.len()
    &&& wp == sum_by(pre, obs_weight())
    &&& j > 0 ==> ga == sum_by(pre, weight_if_same_a(t[j - 1].0))
    &&& j > 0 ==> gab == sum_by(pre, weight_if_same_both(t[j - 1].0, t[j - 1].1))
    &&& 0 <= gab <= ga <= wp
}

/// The masses of the observations before position `j`.
pub closed spec fn counted(t: Seq<(i64, i64, u64)>, j: int, p: int, ta: int, tab: int) -> bool {
    let pre = t.subrange(0, j);
    &&& p == lower_sum(pre, every_pair())
    &&& ta == lower_sum(pre, tied_in_a())
    &&& tab == lower_sum(pre, tied_in_both())
}

proof fn lemma_scan_start(t: Seq<(i64, i64, u64)>)
    ensures
        scanned(t, 0, 0, 0, 0),
        counted(t, 0, 0, 0, 0),
{
    assert(t.subrange(0, 0) =~= Seq::empty());
}

proof fn lemma_scan_step(
    t: Seq<(i64, i64, u64)>,
    j: int,
    wp: int,
    ga: int,
    gab: int,
    p: int,
    ta: int,
    tab: int,
)
    requires
        key_sorted(t),
        0 <= j < t.len(),
        scanned(t, j, wp, ga, gab),
        counted(t, j, p, ta, tab),
        0 <= tab <= ta <= p,
        2 * p <= wp * wp,
    ensures
        ({
            let same_a = j > 0 && t[j].0 == t[j - 1].0;
            let ca = if same_a {
                ga
            } else {
                0
            };
            let cab = if same_a && t[j].1 == t[j - 1].1 {
                gab
            } else {
                0
            };
            let w = t[j].2 as int;
            &&& scanned(t, j + 1, wp + w, ca + w, cab + w)
            &&& counted(t, j + 1, p + w * wp, ta + w * ca, tab + w * cab)
            &&& 0 <= cab <= ca <= wp
            &&& 0 <= tab + w * cab <= ta + w * ca <= p + w * wp
            &&& 2 * (p + w * wp) <= (wp + w) * (wp + w)
        }),
{
    let pre = t.subrange(0, j);
    let nxt = t.subrange(0, j + 1);
    let e = t[j];
    let w = e.2 as int;
    assert(nxt.drop_last() =~= pre);
    assert(nxt.last() == e);
    let same_a = j > 0 && t[j].0 == t[j - 1].0;
    let ca = if same_a {
        ga
    } else {
        0
    };
    let cab = if same_a && t[j].1 == t[j - 1].1 {
        gab
    } else {
        0
    };
    // what was read with the same first value as `e`
    if !same_a {
        assert forall|i: int| 0 <= i < pre.len() implies weight_if_same_a(e.0)(#[trigger] pre[i])
            == 0 by {
            assert(pre[i] == t[i]);
            if j > 0 && i < j - 1 {
                assert(t[i].0 <= t[j - 1].0);
            }
            assert(t[i].0 <= t[j].0);
        }
        lemma_sum_by_zero(pre, weight_if_same_a(e.0));
    }
    // and with the same two values
    if !(same_a && t[j].1 == t[j - 1].1) {
        assert forall|i: int| 0 <= i < pre.len() implies weight_if_same_both(e.0, e.1)(
            #[trigger] pre[i],
        ) == 0 by {
            assert(pre[i] == t[i]);
            if j > 0 && i < j - 1 {
                assert(t[i].0 < t[j - 1].0 || (t[i].0 == t[j - 1].0 && t[i].1 <= t[j - 1].1));
            }
            assert(t[i].0 < t[j].0 || (t[i].0 == t[j].0 && t[i].1 <= t[j].1));
            if j > 0 {
                assert(t[j - 1].0 < t[j].0 || (t[j - 1].0 == t[j].0 && t[j - 1].1 <= t[j].1));
            }
        }
        lemma_sum_by_zero(pre, weight_if_same_both(e.0, e.1));
    }
    lemma_rows(pre, e);
    assert(0 <= w * cab <= w * ca <= w * wp && 2 * (p + w * wp) <= (wp + w) * (wp + w))
        by (nonlinear_arith)
        requires
            0 <= w,
            0 <= cab <= ca <= wp,
            2 * p <= wp * wp,
    ;
}

/// The weights of observations sum as the weights that they were formed from.
pub proof fn lemma_obs_weight_sum(a: Seq<i64>, b: Seq<i64>, w: Seq<u64>, j: int)
    requires
        a.len() == b.len(),
        a.len() == w.len(),
        0 <= j <= w.len(),
    ensures
        sum_by(observations(a, b, w).subrange(0, j), obs_weight()) == weight_sum(w.subrange(0, j)),
    decreases j,
{
    let t = observations(a, b, w);
    if j > 0 {
        lemma_obs_weight_sum(a, b, w, j - 1);
        assert(t.subrange(0, j).drop_last() =~= t.subrange(0, j - 1));
        assert(w.subrange(0, j).drop_last() =~= w.subrange(0, j - 1));
    } else {
        assert(t.subrange(0, 0) =~= Seq::empty());
        assert(w.subrange(0, 0) =~= Seq::empty());
    }
}

/// Counts, over observations in the order of their two values, the mass of
/// all pairs, of the pairs tied in the first value, and of the pairs tied in
/// both.
pub(crate) fn tie_scan(a: &Vec<i64>, b: &Vec<i64>, w: &Vec<u64>) -> (res: (u128, u128, u128))
    requires
        a.len() == b.len(),
        a.len() == w.len(),
        key_sorted(observations(a@, b@, w@)),
        weight_sum(w@) <= i64::MAX,
    ensures
        res.0 == pair_mass(observations(a@, b@, w@)),
        res.1 == tie_mass_a(observations(a@, b@, w@)),
        res.2 == tie_mass_both(observations(a@, b@, w@)),
        res.2 <= res.1 <= res.0,
        2 * res.0 <= weight_sum(w@) * weight_sum(w@),
{
    let n: usize = a.len();
    let ghost t = observations(a@, b@, w@);
    let mut wp: u64 = 0;
    let mut ga: u64 = 0;
    let mut gab: u64 = 0;
    let mut p: u128 = 0;
    let mut ta: u128 = 0;
    let mut tab: u128 = 0;
    let mut j: usize = 0;
    proof {
        lemma_scan_start(t);
    }
    while j < n
        invariant
            n == a.len(),
            a.len() == b.len(),
            a.len() == w.len(),
            t == observations(a@, b@, w@),
            key_sorted(t),
            weight_sum(w@) <= i64::MAX,
            j <= n,
            scanned(t, j as int, wp as int, ga as int, gab as int),
            counted(t, j as int, p as int, ta as int, tab as int),
            tab <= ta <= p,
            2 * p <= wp * wp,
            wp == weight_sum(w@.subrange(0, j as int)),
        decreases n - j,
    {
        let wj: u64 = w[j];
        let same_a: bool = j > 0 && a[j] == a[j - 1];
        let ca: u64 = if same_a {
            ga
        } else {
            0
        };
        let cab: u64 = if same_a && b[j] == b[j - 1] {
            gab
        } else {
            0
        };
        proof {
            lemma_scan_step(
                t,
                j as int,
                wp as int,
                ga as int,
                gab as int,
                p as int,
                ta as int,
                tab as int,
            );
            crate::statistics::sort::lemma_weight_sum_prefix(w@, j + 1);
            assert(w@.subrange(0, j + 1).drop_last() =~= w@.subrange(0, j as int));
            let s = (wp + wj) as int;
            assert(s * s <= 0x7FFF_FFFF_FFFF_FFFF * 0x7FFF_FFFF_FFFF_FFFF) by (nonlinear_arith)
                requires
                    0 <= s <= 0x7FFF_FFFF_FFFF_FFFF,
            ;
            let x = wj as int;
            assert(0 <= x * (wp as int) && 0 <= x * (ca as int) && 0 <= x * (cab as int))
                by (nonlinear_arith)
                requires
                    0 <= x,
                    0 <= wp,
                    0 <= ca,
                    0 <= cab,
            ;
        }
        p = p + (wj as u128) * (wp as u128);
        ta = ta + (wj as u128) * (ca as u128);
        tab = tab + (wj as u128) * (cab as u128);
        wp = wp + wj;
        ga = ca + wj;
        gab = cab + wj;
        j += 1;
    }
    proof {
        assert(t.subrange(0, n as int) =~= t);
        assert(w@.subrange(0, n as int) =~= w@);
    }
    (p, ta, tab)
}

/// The product of the weights of two pairs of equal value.
pub open spec fn tied_pairs() -> spec_fn((i64, u64), (i64, u64)) -> int {
    |e: (i64, u64), f: (i64, u64)|
        e.1 * (if f.0 == e.0 {
            f.1 as int
        } else {
            0
        })
}

/// The value of a pair taken twice, and its weight.
pub open spec fn twice() -> spec_fn((i64, u64)) -> (i64, i64, u64) {
    |e: (i64, u64)| (e.0, e.0, e.1)
}

/// The ties of the second values can be counted on any rearrangement of the
/// second values and their weights.
proof fn lemma_tie_b_bridge(t: Seq<(i64, i64, u64)>, b2: Seq<i64>, w2: Seq<u64>)
    requires
        b2.len() == w2.len(),
        pairs(b2, w2).to_multiset() == t.map_values(second_pair()).to_multiset(),
    ensures
        tie_mass_a(observations(b2, b2, w2)) == tie_mass_b(t),
        sum_by(observations(b2, b2, w2), obs_weight()) == sum_by(t, obs_weight()),
{
    let k2 = tied_pairs();
    let s2 = pairs(b2, w2);
    assert(observations(b2, b2, w2) =~= s2.map_values(twice()));
    assert forall|e: (i64, u64), f: (i64, u64)| #[trigger]
        k2(e, f) == tied_in_a()(twice()(e), twice()(f)) by {}
    lemma_lower_sum_map(s2, twice(), tied_in_a(), k2);
    assert(symmetric(k2)) by {
        assert forall|e: (i64, u64), f: (i64, u64)| #[trigger] k2(e, f) == k2(f, e) by {
            assert(e.1 * f.1 == f.1 * e.1) by (nonlinear_arith);
        }
    }
    lemma_lower_sum_perm(s2, t.map_values(second_pair()), k2);
    assert forall|e: (i64, i64, u64), f: (i64, i64, u64)| #[trigger]
        tied_in_b()(e, f) == k2(second_pair()(e), second_pair()(f)) by {}
    lemma_lower_sum_map(t, second_pair(), k2, tied_in_b());
    // the weights
    assert forall|i: int| 0 <= i < s2.len() implies weight_of()(#[trigger] s2[i]) == obs_weight()(
        twice()(s2[i]),
    ) by {}
    lemma_sum_by_map(s2, twice(), obs_weight(), weight_of());
    lemma_sum_by_perm(s2, t.map_values(second_pair()), weight_of());
    assert forall|i: int| 0 <= i < t.len() implies obs_weight()(#[trigger] t[i]) == weight_of()(
        second_pair()(t[i]),
    ) by {}
    lemma_sum_by_map(t, second_pair(), weight_of(), obs_weight());
}

/// `sort` of std's slices, on triples of integers. The contract says what
/// std documents of it: the result is a rearrangement of the input, in the
/// order of the triples, which compares the first values, then the second,
/// then the third.
#[verifier::external_body]
pub(crate) fn sort_observations(obs: &mut Vec<(i64, i64, u64)>)
    ensures
        final(obs)@.to_multiset() == old(obs)@.to_multiset(),
        lex_sorted(final(obs)@),
{
    obs.sort();
}

/// The exact weighted Kendall's Tau-b of the observations
/// `(data_a[i], data_b[i], weights[i])`.
///
/// Fails if the three vectors differ in length. With fewer than two
/// observations there is nothing to compare and the coefficient is zero,
/// whatever the weights. With two or more, fails if the weights sum to more
/// than `i64::MAX`.
pub fn weighted_kendall_tau_b(data_a: &Vec<i64>, data_b: &Vec<i64>, weights: &Vec<u64>) -> (res:
    Result<TauB, ImgalError>)
    ensures
        data_a.len() != data_b.len() || data_a.len() != weights.len() ==> (res matches Err(
            ImgalError::MismatchedArrayLengths { a_arr_name, a_arr_len, b_arr_name, b_arr_len },
        ) && a_arr_len == data_a.len() && b_arr_len == (if data_b.len() < weights.len() {
            data_b.len()
        } else {
            weights.len()
        }) && a_arr_name@ == "data_a"@ && b_arr_name@ == "data_b"@),
        data_a.len() == data_b.len() && data_a.len() == weights.len() && data_a.len() < 2
            ==> res == Ok::<TauB, ImgalError>(TauB::Zero),
        data_a.len() == data_b.len() && data_a.len() == weights.len() && data_a.len() >= 2
            && weight_sum(weights@) > i64::MAX ==> (res matches Err(
            ImgalError::InvalidParameterValueGreater { param_name, value },
        ) && value == usize::MAX && param_name@ == "weights"@),
        data_a.len() == data_b.len() && data_a.len() == weights.len() && data_a.len() >= 2
            && weight_sum(weights@) <= i64::MAX ==> res == Ok::<TauB, ImgalError>(
            tau_b_of(observations(data_a@, data_b@, weights@)),
        ),
{
    let dl: usize = data_a.len();
    if dl != data_b.len() || dl != weights.len() {
        let other: usize = if data_b.len() < weights.len() {
            data_b.len()
        } else {
            weights.len()
        };
        return Err(
            ImgalError::MismatchedArrayLengths {
                a_arr_name: "data_a",
                a_arr_len: dl,
                b_arr_name: "data_b",
                b_arr_len: other,
            },
        );
    }
    // nothing to compare with fewer than two observations
    if dl < 2 {
        return Ok(TauB::Zero);
    }
    // the masses of the pairs must fit
    match total_weight(weights) {
        Some(total) => {
            if total > 0x7FFF_FFFF_FFFF_FFFF {
                return Err(
                    ImgalError::InvalidParameterValueGreater {
                        param_name: "weights",
                        value: usize::MAX,
                    },
                );
            }
        },
        None => {
            return Err(
                ImgalError::InvalidParameterValueGreater {
                    param_name: "weights",
                    value: usize::MAX,
                },
            );
        },
    }

    let ghost obs0 = observations(data_a@, data_b@, weights@);

    // pair the observations and bring them into the order of their values
    let mut obs: Vec<(i64, i64, u64)> = Vec::with_capacity(dl);
    let mut i: usize = 0;
    while i < dl
        invariant
            dl == data_a.len(),
            dl == data_b.len(),
            dl == weights.len(),
            i <= dl,
            obs0 == observations(data_a@, data_b@, weights@),
            obs@ == obs0.subrange(0, i as int),
        decreases dl - i,
    {
        obs.push((data_a[i], data_b[i], weights[i]));
        proof {
            assert(obs@ =~= obs0.subrange(0, i + 1));
        }
        i += 1;
    }
    proof {
        assert(obs0.subrange(0, dl as int) =~= obs0);
    }
    sort_observations(&mut obs);
    let ghost t = obs@;
    proof {
        lemma_masses_perm(t, obs0);
    }

    // the values and weights in that order
    let mut a_sorted: Vec<i64> = Vec::with_capacity(dl);
    let mut b_sorted: Vec<i64> = Vec::with_capacity(dl);
    let mut w_sorted: Vec<u64> = Vec::with_capacity(dl);
    let mut i: usize = 0;
    while i < dl
        invariant
            dl == obs.len(),
            t == obs@,
            i <= dl,
            a_sorted.len() == i,
            b_sorted.len() == i,
            w_sorted.len() == i,
            observations(a_sorted@, b_sorted@, w_sorted@) == t.subrange(0, i as int),
        decreases dl - i,
    {
        let ghost before = observations(a_sorted@, b_sorted@, w_sorted@);
        let e = obs[i];
        a_sorted.push(e.0);
        b_sorted.push(e.1);
        w_sorted.push(e.2);
        proof {
            assert(observations(a_sorted@, b_sorted@, w_sorted@) =~= before.push(e));
            assert(t.subrange(0, i + 1) =~= t.subrange(0, i as int).push(e));
        }
        i += 1;
    }
    proof {
        assert(t.subrange(0, dl as int) =~= t);
        lemma_obs_weight_sum(a_sorted@, b_sorted@, w_sorted@, dl as int);
        lemma_obs_weight_sum(data_a@, data_b@, weights@, dl as int);
        assert(w_sorted@.subrange(0, dl as int) =~= w_sorted@);
        assert(weights@.subrange(0, dl as int) =~= weights@);
        assert(key_sorted(t));
    }

    // all pairs, the ties of the first variable, and the ties of both
    let (p, ta, tab) = tie_scan(&a_sorted, &b_sorted, &w_sorted);

    // the discordant pairs are the inversions of the second variable
    let ghost bw = pairs(b_sorted@, w_sorted@);
    proof {
        lemma_discordant_sorted(t);
        assert(t.map_values(second_pair()) =~= bw);
    }
    // the lengths agree and the weights fit: the sort does not fail
    let d: u128 = weighted_merge_sort_mut(&mut b_sorted, &mut w_sorted).unwrap();

    // the ties of the second variable, read off its sorted values
    proof {
        let t2 = observations(b_sorted@, b_sorted@, w_sorted@);
        assert forall|i: int, j: int| 0 <= i < j < t2.len() implies t2[i].0 < t2[j].0 || (t2[i].0
            == t2[j].0 && t2[i].1 <= t2[j].1) by {
            assert(b_sorted@[i] <= b_sorted@[j]);
        }
        lemma_tie_b_bridge(t, b_sorted@, w_sorted@);
        lemma_obs_weight_sum(b_sorted@, b_sorted@, w_sorted@, dl as int);
        assert(t2.subrange(0, dl as int) =~= t2);
        assert(w_sorted@.subrange(0, dl as int) =~= w_sorted@);
    }
    let (_, tb, _) = tie_scan(&b_sorted, &b_sorted, &w_sorted);

    proof {
        lemma_partition(t);
        lemma_masses_nonneg(t);
        let m = weight_sum(weights@);
        lemma_weight_sum_nonneg(weights@);
        assert(m * m <= 0x7FFF_FFFF_FFFF_FFFF * 0x7FFF_FFFF_FFFF_FFFF) by (nonlinear_arith)
            requires
                0 <= m <= 0x7FFF_FFFF_FFFF_FFFF,
        ;
    }
    // concordant and discordant together, then each
    let cd: u128 = p - ta + tab - tb;
    let c: u128 = cd - d;
    let untied_a: u128 = 2 * (p - ta);
    let untied_b: u128 = 2 * (p - tb);
    if untied_a == 0 && untied_b == 0 {
        Ok(TauB::Undefined)
    } else if untied_a == 0 || untied_b == 0 {
        Ok(TauB::Zero)
    } else {
        let numerator: i128 = 2 * ((c as i128) - (d as i128));
        Ok(TauB::Ratio { numerator, untied_a, untied_b })
    }
}

/// Twice the mass of all pairs is at most the square of the total weight.
pub proof fn lemma_pair_mass_bound(s: Seq<(i64, i64, u64)>)
    ensures
        0 <= sum_by(s, obs_weight()),
        2 * pair_mass(s) <= sum_by(s, obs_weight()) * sum_by(s, obs_weight()),
    decreases s.len(),
{
    if s.len() > 0 {
        let s0 = s.drop_last();
        let e = s.last();
        lemma_pair_mass_bound(s0);
        lemma_rows(s0, e);
        let w = e.2 as int;
        let wp = sum_by(s0, obs_weight());
        let p = pair_mass(s0);
        assert(2 * (p + w * wp) <= (wp + w) * (wp + w)) by (nonlinear_arith)
            requires
                0 <= w,
                0 <= wp,
                2 * p <= wp * wp,
        ;
    } else {
        assert(0 * 0 == 0int);
    }
}

/// The parts of a coefficient are what its definition says, without any
/// loss, where the total weight is at most `i64::MAX`; and they are bounded by
/// the square of the total weight.
pub proof fn lemma_tau_b_bounds(s: Seq<(i64, i64, u64)>)
    requires
        sum_by(s, obs_weight()) <= i64::MAX,
    ensures
        tau_b_of(s) matches TauB::Ratio { numerator, untied_a, untied_b } ==> {
            let m = sum_by(s, obs_weight());
            &&& 0 < untied_a <= m * m
            &&& 0 < untied_b <= m * m
            &&& -(m * m) <= numerator <= m * m
            &&& untied_a == 2 * (pair_mass(s) - tie_mass_a(s))
            &&& untied_b == 2 * (pair_mass(s) - tie_mass_b(s))
            &&& numerator == 2 * (concordant_mass(s) - discordant_mass(s))
        },
        0 <= tie_mass_both(s) <= tie_mass_a(s) <= pair_mass(s),
        tie_mass_both(s) <= tie_mass_b(s) <= pair_mass(s),
        0 <= concordant_mass(s) + discordant_mass(s) <= pair_mass(s),
        2 * pair_mass(s) <= sum_by(s, obs_weight()) * sum_by(s, obs_weight()),
        sum_by(s, obs_weight()) * sum_by(s, obs_weight()) <= 0x7FFF_FFFF_FFFF_FFFF
            * 0x7FFF_FFFF_FFFF_FFFF,
{
    lemma_pair_mass_bound(s);
    lemma_masses_nonneg(s);
    lemma_partition(s);
    assert forall|e: (i64, i64, u64), f: (i64, i64, u64)| #[trigger]
        tied_in_both()(e, f) <= tied_in_a()(e, f) by {
        assert(0 <= e.2 * f.2) by (nonlinear_arith);
    }
    lemma_lower_sum_le(s, tied_in_both(), tied_in_a());
    assert forall|e: (i64, i64, u64), f: (i64, i64, u64)| #[trigger]
        tied_in_both()(e, f) <= tied_in_b()(e, f) by {
        assert(0 <= e.2 * f.2) by (nonlinear_arith);
    }
    lemma_lower_sum_le(s, tied_in_both(), tied_in_b());
    assert forall|e: (i64, i64, u64), f: (i64, i64, u64)| #[trigger]
        tied_in_a()(e, f) <= every_pair()(e, f) by {
        assert(0 <= e.2 * f.2) by (nonlinear_arith);
    }
    lemma_lower_sum_le(s, tied_in_a(), every_pair());
    assert forall|e: (i64, i64, u64), f: (i64, i64, u64)| #[trigger]
        tied_in_b()(e, f) <= every_pair()(e, f) by {
        assert(0 <= e.2 * f.2) by (nonlinear_arith);
    }
    lemma_lower_sum_le(s, tied_in_b(), every_pair());
    let m = sum_by(s, obs_weight());
    assert(m * m <= 0x7FFF_FFFF_FFFF_FFFF * 0x7FFF_FFFF_FFFF_FFFF) by (nonlinear_arith)
        requires
            0 <= m <= 0x7FFF_FFFF_FFFF_FFFF,
    ;
}

} // verus!
