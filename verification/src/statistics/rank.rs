//! Ranks of weighted values, with the correction for ties that Kendall's
//! Tau-b asks for.
use crate::statistics::inversion::pairs;
use crate::statistics::kendall_tau::{
    key_sorted, lemma_masses_perm, lemma_obs_weight_sum, observations, sort_observations,
    tie_mass_a, tie_scan, tied_in_a, tied_pairs,
};
use crate::statistics::sort::weight_sum;
use crate::statistics::sums::{
    lemma_lower_sum_map, lemma_sum_by_concat, lemma_sum_by_const, lemma_sum_by_perm, lower_sum,
    sum_by,
};
use vstd::prelude::*;
use vstd::seq_lib::*;

verus! {

/// The number of items of `d` below `v`.
pub open spec fn count_below(d: Seq<i64>, v: i64) -> int
    decreases d.len(),
{
    if d.len() == 0 {
        0
    } else {
        count_below(d.drop_last(), v) + if d.last() < v {
            1int
        } else {
            0int
        }
    }
}

/// The number of items of `d` equal to `v`.
pub open spec fn count_equal(d: Seq<i64>, v: i64) -> int
    decreases d.len(),
{
    if d.len() == 0 {
        0
    } else {
        count_equal(d.drop_last(), v) + if d.last() == v {
            1int
        } else {
            0int
        }
    }
}

/// Twice the rank of the value `v` among `d`. Ranks start at one, and equal
/// values share the mean of the ranks that they take up, which need not be
/// whole: the values below `v` take the ranks up to their number, and the
/// values equal to `v` the ranks that follow, so that their mean is the
/// number of the values below and half of the number of the equal values and
/// one. Twice that is whole.
pub open spec fn twice_rank_of(d: Seq<i64>, v: i64) -> int {
    2 * count_below(d, v) + count_equal(d, v) + 1
}

/// The correction for the ties of `d`: twice the sum, over the pairs of
/// positions with equal values, of the products of their weights.
pub open spec fn tie_correction(d: Seq<i64>, w: Seq<u64>) -> int {
    2 * lower_sum(pairs(d, w), tied_pairs())
}

/// Each value with its position and its weight.
pub open spec fn indexed(d: Seq<i64>, w: Seq<u64>) -> Seq<(i64, i64, u64)> {
    Seq::new(d.len(), |i: int| (d[i], i as i64, w[i]))
}

/// One for an observation whose first value is below `v`.
pub open spec fn one_if_below(v: i64) -> spec_fn((i64, i64, u64)) -> int {
    |e: (i64, i64, u64)|
        if e.0 < v {
            1int
        } else {
            0int
        }
}

/// One for an observation whose first value is `v`.
pub open spec fn one_if_equal(v: i64) -> spec_fn((i64, i64, u64)) -> int {
    |e: (i64, i64, u64)|
        if e.0 == v {
            1int
        } else {
            0int
        }
}

/// The value and the weight of an observation.
pub open spec fn value_and_weight() -> spec_fn((i64, i64, u64)) -> (i64, u64) {
    |e: (i64, i64, u64)| (e.0, e.2)
}

proof fn lemma_counts_as_sums(d: Seq<i64>, w: Seq<u64>, v: i64)
    requires
        d.len() == w.len(),
    ensures
        count_below(d, v) == sum_by(indexed(d, w), one_if_below(v)),
        count_equal(d, v) == sum_by(indexed(d, w), one_if_equal(v)),
    decreases d.len(),
{
    if d.len() > 0 {
        lemma_counts_as_sums(d.drop_last(), w.drop_last(), v);
        assert(indexed(d, w).drop_last() =~= indexed(d.drop_last(), w.drop_last()));
    }
}

/// In sorted observations, the values below those of a group are the ones
/// before it, and the values equal to them are the group.
proof fn lemma_group_counts(t: Seq<(i64, i64, u64)>, i: int, j: int)
    requires
        key_sorted(t),
        0 <= i < j <= t.len(),
        i == 0 || t[i - 1].0 < t[i].0,
        forall|m: int| i <= m < j ==> (#[trigger] t[m]).0 == t[i].0,
        j == t.len() || t[j].0 != t[i].0,
    ensures
        sum_by(t, one_if_below(t[i].0)) == i,
        sum_by(t, one_if_equal(t[i].0)) == j - i,
{
    let v = t[i].0;
    let lo = t.subrange(0, i);
    let mid = t.subrange(i, j);
    let hi = t.subrange(j, t.len() as int);
    assert(t =~= (lo + mid) + hi);
    assert forall|m: int| 0 <= m < lo.len() implies (#[trigger] lo[m]).0 < v by {
        assert(lo[m] == t[m]);
        if m < i - 1 {
            assert(t[m].0 <= t[i - 1].0);
        }
    }
    assert forall|m: int| 0 <= m < mid.len() implies (#[trigger] mid[m]).0 == v by {
        assert(mid[m] == t[i + m]);
    }
    assert forall|m: int| 0 <= m < hi.len() implies (#[trigger] hi[m]).0 > v by {
        assert(hi[m] == t[j + m]);
        assert(t[i].0 <= t[j].0);
        if m > 0 {
            assert(t[j].0 <= t[j + m].0);
        }
    }
    lemma_sum_by_concat(lo + mid, hi, one_if_below(v));
    lemma_sum_by_concat(lo, mid, one_if_below(v));
    lemma_sum_by_concat(lo + mid, hi, one_if_equal(v));
    lemma_sum_by_concat(lo, mid, one_if_equal(v));
    lemma_sum_by_const(lo, one_if_below(v), 1);
    lemma_sum_by_const(mid, one_if_below(v), 0);
    lemma_sum_by_const(hi, one_if_below(v), 0);
    lemma_sum_by_const(lo, one_if_equal(v), 0);
    lemma_sum_by_const(mid, one_if_equal(v), 1);
    lemma_sum_by_const(hi, one_if_equal(v), 0);
}

/// Every sorted observation is the value at the position that it names, and
/// every position is named.
proof fn lemma_members(t: Seq<(i64, i64, u64)>, d: Seq<i64>, w: Seq<u64>)
    requires
        d.len() == w.len(),
        d.len() <= i64::MAX,
        t.to_multiset() == indexed(d, w).to_multiset(),
    ensures
        t.len() == d.len(),
        forall|m: int|
            0 <= m < t.len() ==> 0 <= (#[trigger] t[m]).1 < d.len() && t[m].0 == d[t[m].1 as int],
        forall|k: int| 0 <= k < d.len() ==> t.contains(#[trigger] indexed(d, w)[k]),
{
    let s = indexed(d, w);
    to_multiset_len(t);
    to_multiset_len(s);
    assert forall|m: int| 0 <= m < t.len() implies 0 <= (#[trigger] t[m]).1 < d.len() && t[m].0
        == d[t[m].1 as int] by {
        to_multiset_contains(t, t[m]);
        to_multiset_contains(s, t[m]);
        assert(t.contains(t[m]));
        let k = choose|k: int| 0 <= k < s.len() && s[k] == t[m];
        assert(s[k] == (d[k], k as i64, w[k]));
    }
    assert forall|k: int| 0 <= k < d.len() implies t.contains(#[trigger] s[k]) by {
        to_multiset_contains(t, s[k]);
        to_multiset_contains(s, s[k]);
        assert(s.contains(s[k]));
    }
}

/// The ties of the values can be counted on the sorted observations.
proof fn lemma_tie_bridge(t: Seq<(i64, i64, u64)>, d: Seq<i64>, w: Seq<u64>)
    requires
        d.len() == w.len(),
        t.to_multiset() == indexed(d, w).to_multiset(),
    ensures
        2 * tie_mass_a(t) == tie_correction(d, w),
{
    let s = indexed(d, w);
    lemma_masses_perm(t, s);
    assert(s.map_values(value_and_weight()) =~= pairs(d, w));
    assert forall|e: (i64, i64, u64), f: (i64, i64, u64)| #[trigger]
        tied_in_a()(e, f) == tied_pairs()(value_and_weight()(e), value_and_weight()(f)) by {}
    lemma_lower_sum_map(s, value_and_weight(), tied_pairs(), tied_in_a());
}

/// The ranks of the values among themselves, each doubled, and the
/// correction for their ties under the weights.
///
/// Ranks start at one; equal values share the mean of the ranks that they
/// take up, and every rank is given as twice its value, so that a mean of
/// two and a half is five. The correction is twice the sum, over the pairs
/// of equal values, of the products of their weights. The two vectors must
/// have the same length, of at most `i64::MAX`, and the weights must sum to
/// at most `i64::MAX`.
pub fn rank_with_weights(data: &Vec<i64>, weights: &Vec<u64>) -> (res: (Vec<u64>, u128))
    requires
        data.len() == weights.len(),
        data.len() <= i64::MAX,
        weight_sum(weights@) <= i64::MAX,
    ensures
        res.0@.len() == data@.len(),
        forall|i: int| 0 <= i < data@.len() ==> #[trigger] res.0@[i] == twice_rank_of(data@, data@[i]),
        res.1 == tie_correction(data@, weights@),
{
    let dl: usize = data.len();
    let ghost s = indexed(data@, weights@);

    // the values with their positions, in the order of the values
    let mut obs: Vec<(i64, i64, u64)> = Vec::with_capacity(dl);
    let mut i: usize = 0;
    while i < dl
        invariant
            dl == data.len(),
            dl == weights.len(),
            dl <= i64::MAX,
            i <= dl,
            s == indexed(data@, weights@),
            obs@ == s.subrange(0, i as int),
        decreases dl - i,
    {
        obs.push((data[i], i as i64, weights[i]));
        proof {
            assert(obs@ =~= s.subrange(0, i + 1));
        }
        i += 1;
    }
    proof {
        assert(s.subrange(0, dl as int) =~= s);
    }
    sort_observations(&mut obs);
    let ghost t = obs@;
    proof {
        lemma_members(t, data@, weights@);
        lemma_masses_perm(t, s);
        lemma_tie_bridge(t, data@, weights@);
    }
    let mut values: Vec<i64> = Vec::with_capacity(dl);
    let mut places: Vec<i64> = Vec::with_capacity(dl);
    let mut w_sorted: Vec<u64> = Vec::with_capacity(dl);
    let mut i: usize = 0;
    while i < dl
        invariant
            dl == obs.len(),
            t == obs@,
            i <= dl,
            values.len() == i,
            places.len() == i,
            w_sorted.len() == i,
            observations(values@, places@, w_sorted@) == t.subrange(0, i as int),
        decreases dl - i,
    {
        let ghost before = observations(values@, places@, w_sorted@);
        let e = obs[i];
        values.push(e.0);
        places.push(e.1);
        w_sorted.push(e.2);
        proof {
            assert(observations(values@, places@, w_sorted@) =~= before.push(e));
            assert(t.subrange(0, i + 1) =~= t.subrange(0, i as int).push(e));
        }
        i += 1;
    }
    proof {
        assert(t.subrange(0, dl as int) =~= t);
        assert(key_sorted(t));
        lemma_obs_weight_sum(values@, places@, w_sorted@, dl as int);
        assert(w_sorted@.subrange(0, dl as int) =~= w_sorted@);
        assert(s =~= observations(data@, Seq::new(dl as nat, |i: int| i as i64), weights@));
        lemma_obs_weight_sum(data@, Seq::new(dl as nat, |i: int| i as i64), weights@, dl as int);
        assert(weights@.subrange(0, dl as int) =~= weights@);
    }

    // the ties, counted group by group
    let (_, tied, _) = tie_scan(&values, &places, &w_sorted);
    proof {
        let m = weight_sum(w_sorted@);
        crate::statistics::sort::lemma_weight_sum_nonneg(w_sorted@);
        assert(m * m <= 0x7FFF_FFFF_FFFF_FFFF * 0x7FFF_FFFF_FFFF_FFFF) by (nonlinear_arith)
            requires
                0 <= m <= 0x7FFF_FFFF_FFFF_FFFF,
        ;
    }
    let tie_corr: u128 = 2 * tied;

    // the ranks, group by group
    let mut ranks: Vec<u64> = vec![0u64; dl];
    let mut i: usize = 0;
    while i < dl
        invariant
            dl == data@.len(),
            dl == weights@.len(),
            dl <= i64::MAX,
            ranks@.len() == dl,
            t.len() == dl,
            observations(values@, places@, w_sorted@) == t,
            values@.len() == dl,
            places@.len() == dl,
            w_sorted@.len() == dl,
            key_sorted(t),
            t.to_multiset() == indexed(data@, weights@).to_multiset(),
            forall|m: int|
                0 <= m < t.len() ==> 0 <= (#[trigger] t[m]).1 < dl && t[m].0 == data@[t[m].1 as int],
            i <= dl,
            i == 0 || i == dl || t[i - 1].0 < t[i as int].0,
            forall|m: int|
                0 <= m < i ==> ranks@[(#[trigger] t[m]).1 as int] == twice_rank_of(data@, t[m].0),
        decreases dl - i,
    {
        // the group of values equal to the one at `i`
        let mut j: usize = i + 1;
        while j < dl && values[j] == values[i]
            invariant
                i < j <= dl,
                values@.len() == dl,
                places@.len() == dl,
                w_sorted@.len() == dl,
                observations(values@, places@, w_sorted@) == t,
                forall|m: int| i <= m < j ==> (#[trigger] t[m]).0 == t[i as int].0,
            decreases dl - j,
        {
            proof {
                assert(t[j as int].0 == values@[j as int]);
                assert(t[i as int].0 == values@[i as int]);
            }
            j += 1;
        }
        proof {
            assert(t[i as int].0 == values@[i as int]);
            if j < dl {
                assert(t[j as int].0 == values@[j as int]);
                assert(t[i as int].0 <= t[j as int].0);
            }
            lemma_group_counts(t, i as int, j as int);
            lemma_sum_by_perm(t, indexed(data@, weights@), one_if_below(t[i as int].0));
            lemma_sum_by_perm(t, indexed(data@, weights@), one_if_equal(t[i as int].0));
            lemma_counts_as_sums(data@, weights@, t[i as int].0);
        }
        // the mean of the ranks from `i + 1` to `j`, doubled
        let group_size: u64 = (j - i) as u64;
        let avg_rank: u64 = 2 * (i as u64) + group_size + 1;
        let ghost v = t[i as int].0;
        let mut m: usize = i;
        while m < j
            invariant
                i <= m <= j,
                j <= dl,
                ranks@.len() == dl,
                t.len() == dl,
                places@.len() == dl,
                values@.len() == dl,
                w_sorted@.len() == dl,
                observations(values@, places@, w_sorted@) == t,
                v == t[i as int].0,
                avg_rank == twice_rank_of(data@, v),
                forall|k: int| i <= k < j ==> (#[trigger] t[k]).0 == v,
                dl == data@.len(),
                forall|k: int|
                    0 <= k < t.len() ==> 0 <= (#[trigger] t[k]).1 < dl && t[k].0 == data@[t[k].1 as int],
                forall|k: int|
                    0 <= k < m ==> ranks@[(#[trigger] t[k]).1 as int] == twice_rank_of(data@, t[k].0),
            decreases j - m,
        {
            proof {
                assert(t[m as int].1 == places@[m as int]);
            }
            let place: usize = places[m] as usize;
            let ghost before = ranks@;
            ranks.set(place, avg_rank);
            proof {
                assert forall|k: int| 0 <= k < m + 1 implies ranks@[(#[trigger] t[k]).1 as int]
                    == twice_rank_of(data@, t[k].0) by {
                    if t[k].1 == t[m as int].1 {
                        assert(t[k].0 == data@[t[k].1 as int]);
                        assert(t[m as int].0 == data@[t[m as int].1 as int]);
                    } else {
                        assert(ranks@[t[k].1 as int] == before[t[k].1 as int]);
                    }
                }
            }
            m += 1;
        }
        i = j;
    }
    proof {
        let s = indexed(data@, weights@);
        lemma_members(t, data@, weights@);
        assert forall|k: int| 0 <= k < data@.len() implies #[trigger] ranks@[k] == twice_rank_of(
            data@,
            data@[k],
        ) by {
            assert(t.contains(s[k]));
            let m = choose|m: int| 0 <= m < t.len() && t[m] == s[k];
            assert(s[k] == (data@[k], k as i64, weights@[k]));
            assert(t[m].1 == k);
        }
    }
    (ranks, tie_corr)
}

} // verus!
