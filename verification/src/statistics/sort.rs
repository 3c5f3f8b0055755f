//! Bottom-up merge sort of weighted observations that counts weighted
//! inversions while it sorts.
use crate::error::ImgalError;
use crate::statistics::inversion::{
    cross_mass, cross_term, inversion_mass, lemma_block_extend, lemma_cross_nonneg,
    lemma_inversion_bounds, lemma_inversion_concat, lemma_mass_above_all, lemma_mass_above_none,
    lemma_sorted_no_inversions, mass_above, non_decreasing, pairs, sorted, total_mass,
    weight_if_above, weight_of,
};
use crate::statistics::stable::{
    is_stable_rearrangement, lemma_runs_of_state, lemma_state_covers, lemma_state_extend,
    lemma_state_is_stable, lemma_tag_merge_end, lemma_tag_merge_start, lemma_tag_take_left,
    lemma_tag_take_right, lemma_tagged_nothing, lemma_tagged_start, lemma_tail_block,
    own_places, tag_merging, tagged_block, tagged_runs, tagged_state,
};
use crate::statistics::sums::{lemma_sum_by_concat, lemma_sum_by_perm, sum_by};
use vstd::prelude::*;
use vstd::seq_lib::*;

verus! {

/// The sum of a sequence of weights.
pub open spec fn weight_sum(w: Seq<u64>) -> int
    decreases w.len(),
{
    if w.len() == 0 {
        0
    } else {
        weight_sum(w.drop_last()) + w.last()
    }
}

/// Every run of `step` positions that starts at a multiple of `step` is
/// sorted.
#[verifier::opaque]
pub open spec fn sorted_runs(s: Seq<(i64, u64)>, step: int) -> bool {
    forall|i: int|
        0 <= i && i + 1 < s.len() && (i + 1) % step != 0 ==> (#[trigger] s[i]).0 <= s[i + 1].0
}

/// The total mass of observations is the sum of their weights.
pub proof fn lemma_total_mass_is_weight_sum(d: Seq<i64>, w: Seq<u64>)
    requires
        d.len() == w.len(),
    ensures
        total_mass(pairs(d, w)) == weight_sum(w),
    decreases w.len(),
{
    if w.len() > 0 {
        lemma_total_mass_is_weight_sum(d.drop_last(), w.drop_last());
        assert(pairs(d, w).drop_last() =~= pairs(d.drop_last(), w.drop_last()));
    }
}

proof fn lemma_step_between(s: Seq<(i64, u64)>, i: int, j: int)
    requires
        0 <= i <= j < s.len(),
        forall|k: int| i <= k && k + 1 <= j ==> (#[trigger] s[k]).0 <= s[k + 1].0,
    ensures
        s[i].0 <= s[j].0,
    decreases j - i,
{
    if i < j {
        lemma_step_between(s, i, j - 1);
    }
}

proof fn lemma_mod_inside(base: int, x: int, step: int)
    requires
        step > 0,
        base % step == 0,
        base < x < base + step,
    ensures
        x % step != 0,
{
    let q = base / step;
    vstd::arithmetic::div_mod::lemma_fundamental_div_mod(base, step);
    assert(x == q * step + (x - base)) by (nonlinear_arith)
        requires
            base == step * q,
    ;
    vstd::arithmetic::div_mod::lemma_fundamental_div_mod_converse(x, step, q, x - base);
}

proof fn lemma_mod_double(left: int, step: int)
    requires
        step > 0,
        left >= 0,
        left % (2 * step) == 0,
    ensures
        left % step == 0,
        (left + step) % step == 0,
        (left + 2 * step) % (2 * step) == 0,
{
    let q = left / (2 * step);
    vstd::arithmetic::div_mod::lemma_fundamental_div_mod(left, 2 * step);
    assert(left == (2 * q) * step + 0) by (nonlinear_arith)
        requires
            left == (2 * step) * q,
    ;
    vstd::arithmetic::div_mod::lemma_fundamental_div_mod_converse(left, step, 2 * q, 0);
    assert(left + step == (2 * q + 1) * step + 0) by (nonlinear_arith)
        requires
            left == (2 * step) * q,
    ;
    vstd::arithmetic::div_mod::lemma_fundamental_div_mod_converse(
        left + step,
        step,
        2 * q + 1,
        0,
    );
    assert(left + 2 * step == (q + 1) * (2 * step) + 0) by (nonlinear_arith)
        requires
            left == (2 * step) * q,
    ;
    vstd::arithmetic::div_mod::lemma_fundamental_div_mod_converse(
        left + 2 * step,
        2 * step,
        q + 1,
        0,
    );
}

/// A run that starts at a multiple of the run length is sorted.
proof fn lemma_run_sorted(s: Seq<(i64, u64)>, step: int, base: int, hi: int)
    requires
        step > 0,
        sorted_runs(s, step),
        0 <= base <= hi <= s.len(),
        hi <= base + step,
        base % step == 0,
    ensures
        sorted(s.subrange(base, hi)),
{
    reveal(sorted_runs);
    let t = s.subrange(base, hi);
    assert forall|i: int, j: int| 0 <= i <= j < t.len() implies t[i].0 <= t[j].0 by {
        assert forall|k: int| i <= k && k + 1 <= j implies (#[trigger] t[k]).0 <= t[k + 1].0 by {
            lemma_mod_inside(base, base + k + 1, step);
            assert(s[base + k].0 <= s[base + k + 1].0);
        }
        lemma_step_between(t, i, j);
    }
}

/// Runs at least as long as the sequence: the sequence is sorted.
proof fn lemma_runs_cover(s: Seq<(i64, u64)>, step: int)
    requires
        step > 0,
        step >= s.len(),
        sorted_runs(s, step),
    ensures
        sorted(s),
{
    vstd::arithmetic::div_mod::lemma_fundamental_div_mod_converse(0, step, 0, 0);
    lemma_run_sorted(s, step, 0, s.len() as int);
    assert(s.subrange(0, s.len() as int) =~= s);
}

/// The mass of a stretch is the difference of the masses of two prefixes.
proof fn lemma_prefix_mass(s: Seq<(i64, u64)>, a: int, b: int)
    requires
        0 <= a <= b <= s.len(),
    ensures
        total_mass(s.subrange(0, b)) == total_mass(s.subrange(0, a)) + total_mass(
            s.subrange(a, b),
        ),
        0 <= total_mass(s.subrange(a, b)),
        total_mass(s.subrange(0, b)) <= total_mass(s),
{
    assert(s.subrange(0, b) =~= s.subrange(0, a) + s.subrange(a, b));
    lemma_sum_by_concat(s.subrange(0, a), s.subrange(a, b), weight_of());
    assert(s =~= s.subrange(0, b) + s.subrange(b, s.len() as int));
    lemma_sum_by_concat(s.subrange(0, b), s.subrange(b, s.len() as int), weight_of());
    lemma_inversion_bounds(s.subrange(a, b));
    lemma_inversion_bounds(s.subrange(b, s.len() as int));
}

/// One more observation at the end of a stretch.
proof fn lemma_stretch_push(s: Seq<(i64, u64)>, a: int, b: int, g: spec_fn((i64, u64)) -> int)
    requires
        0 <= a <= b < s.len(),
    ensures
        s.subrange(a, b + 1) == s.subrange(a, b).push(s[b]),
        sum_by(s.subrange(a, b + 1), g) == sum_by(s.subrange(a, b), g) + g(s[b]),
{
    assert(s.subrange(a, b + 1) =~= s.subrange(a, b).push(s[b]));
    assert(s.subrange(a, b + 1).drop_last() =~= s.subrange(a, b));
}

/// The state of one merge: `l` and `r` are the next unread positions of the
/// left and the right run of `f`, and `t` holds at `left..k` what was read.
pub closed spec fn merging(
    f: Seq<(i64, u64)>,
    t: Seq<(i64, u64)>,
    t0: Seq<(i64, u64)>,
    left: int,
    right: int,
    end: int,
    l: int,
    r: int,
    k: int,
) -> bool {
    &&& 0 <= left <= l <= right <= r <= end <= f.len()
    &&& t.len() == f.len()
    &&& t0.len() == f.len()
    &&& k == l + (r - right)
    &&& t.subrange(0, left) == t0.subrange(0, left)
    &&& t.subrange(left, k).to_multiset() == f.subrange(left, l).to_multiset().add(
        f.subrange(right, r).to_multiset(),
    )
    &&& sorted(t.subrange(left, k))
    &&& (forall|i: int| left <= i < k && l < right ==> (#[trigger] t[i]).0 <= f[l].0)
    &&& (forall|i: int| left <= i < k && r < end ==> (#[trigger] t[i]).0 <= f[r].0)
    &&& (forall|i: int| left <= i < l && r < end ==> (#[trigger] f[i]).0 <= f[r].0)
}

proof fn lemma_merge_start(
    f: Seq<(i64, u64)>,
    t0: Seq<(i64, u64)>,
    left: int,
    right: int,
    end: int,
)
    requires
        0 <= left <= right <= end <= f.len(),
        t0.len() == f.len(),
    ensures
        merging(f, t0, t0, left, right, end, left, right, left),
{
    assert(t0.subrange(left, left) =~= Seq::empty());
    assert(f.subrange(left, left) =~= Seq::empty());
    assert(f.subrange(right, right) =~= Seq::empty());
    assert(Seq::<(i64, u64)>::empty().to_multiset() =~= Seq::<(i64, u64)>::empty().to_multiset().add(
        Seq::<(i64, u64)>::empty().to_multiset(),
    )) by {
        broadcast use vstd::multiset::group_multiset_axioms;
        broadcast use group_to_multiset_ensures;

    }
}

proof fn lemma_sorted_stretch(f: Seq<(i64, u64)>, a: int, b: int, i: int, j: int)
    requires
        0 <= a <= i <= j < b <= f.len(),
        sorted(f.subrange(a, b)),
    ensures
        f[i].0 <= f[j].0,
{
    let s = f.subrange(a, b);
    assert(s[i - a].0 <= s[j - a].0);
}

proof fn lemma_take_left(
    f: Seq<(i64, u64)>,
    t: Seq<(i64, u64)>,
    t2: Seq<(i64, u64)>,
    t0: Seq<(i64, u64)>,
    left: int,
    right: int,
    end: int,
    l: int,
    r: int,
    k: int,
)
    requires
        merging(f, t, t0, left, right, end, l, r, k),
        sorted(f.subrange(left, right)),
        l < right,
        r < end ==> f[l].0 <= f[r].0,
        t2 == t.update(k, f[l]),
    ensures
        merging(f, t2, t0, left, right, end, l + 1, r, k + 1),
{
    broadcast use vstd::multiset::group_multiset_axioms;
    broadcast use group_to_multiset_ensures;

    let x = f[l];
    assert(t2.subrange(0, left) =~= t.subrange(0, left));
    assert(t2.subrange(left, k + 1) =~= t.subrange(left, k).push(x));
    assert(f.subrange(left, l + 1) =~= f.subrange(left, l).push(x));
    assert(t2.subrange(left, k + 1).to_multiset() =~= f.subrange(left, l + 1).to_multiset().add(
        f.subrange(right, r).to_multiset(),
    ));
    let u = t2.subrange(left, k + 1);
    assert forall|i: int, j: int| 0 <= i <= j < u.len() implies u[i].0 <= u[j].0 by {
        if j < k - left {
            assert(t.subrange(left, k)[i].0 <= t.subrange(left, k)[j].0);
        } else if i < k - left {
            assert(t[left + i].0 <= f[l].0);
        }
    }
    assert forall|i: int| left <= i < k + 1 && l + 1 < right implies (#[trigger] t2[i]).0 <= f[l
        + 1].0 by {
        lemma_sorted_stretch(f, left, right, l, l + 1);
        if i < k {
            assert(t[i].0 <= f[l].0);
        }
    }
    assert forall|i: int| left <= i < k + 1 && r < end implies (#[trigger] t2[i]).0
        <= f[r].0 by {
        if i < k {
            assert(t[i].0 <= f[r].0);
        }
    }
}

proof fn lemma_take_right(
    f: Seq<(i64, u64)>,
    t: Seq<(i64, u64)>,
    t2: Seq<(i64, u64)>,
    t0: Seq<(i64, u64)>,
    left: int,
    right: int,
    end: int,
    l: int,
    r: int,
    k: int,
)
    requires
        merging(f, t, t0, left, right, end, l, r, k),
        sorted(f.subrange(left, right)),
        sorted(f.subrange(right, end)),
        r < end,
        l < right ==> f[l].0 > f[r].0,
        t2 == t.update(k, f[r]),
    ensures
        merging(f, t2, t0, left, right, end, l, r + 1, k + 1),
        cross_mass(f.subrange(left, right), f.subrange(right, r + 1)) == cross_mass(
            f.subrange(left, right),
            f.subrange(right, r),
        ) + f[r].1 * total_mass(f.subrange(l, right)),
        0 <= f[r].1 * total_mass(f.subrange(l, right)),
{
    broadcast use vstd::multiset::group_multiset_axioms;
    broadcast use group_to_multiset_ensures;

    let x = f[r];
    assert(t2.subrange(0, left) =~= t.subrange(0, left));
    assert(t2.subrange(left, k + 1) =~= t.subrange(left, k).push(x));
    assert(f.subrange(right, r + 1) =~= f.subrange(right, r).push(x));
    assert(t2.subrange(left, k + 1).to_multiset() =~= f.subrange(left, l).to_multiset().add(
        f.subrange(right, r + 1).to_multiset(),
    ));
    let u = t2.subrange(left, k + 1);
    assert forall|i: int, j: int| 0 <= i <= j < u.len() implies u[i].0 <= u[j].0 by {
        if j < k - left {
            assert(t.subrange(left, k)[i].0 <= t.subrange(left, k)[j].0);
        } else if i < k - left {
            assert(t[left + i].0 <= f[r].0);
        }
    }
    assert forall|i: int| left <= i < k + 1 && l < right implies (#[trigger] t2[i]).0
        <= f[l].0 by {
        if i < k {
            assert(t[i].0 <= f[l].0);
        }
    }
    assert forall|i: int| left <= i < k + 1 && r + 1 < end implies (#[trigger] t2[i]).0 <= f[r
        + 1].0 by {
        lemma_sorted_stretch(f, right, end, r, r + 1);
        if i < k {
            assert(t[i].0 <= f[r].0);
        }
    }
    assert forall|i: int| left <= i < l && r + 1 < end implies (#[trigger] f[i]).0 <= f[r
        + 1].0 by {
        lemma_sorted_stretch(f, right, end, r, r + 1);
    }
    // what the new observation adds to the count
    let a = f.subrange(left, right);
    let lo = f.subrange(left, l);
    let hi = f.subrange(l, right);
    lemma_stretch_push(f, right, r, cross_term(a));
    assert(a =~= lo + hi);
    lemma_sum_by_concat(lo, hi, weight_if_above(x.0));
    assert forall|i: int| 0 <= i < lo.len() implies (#[trigger] lo[i]).0 <= x.0 by {
        assert(f[left + i].0 <= f[r].0);
    }
    lemma_mass_above_none(lo, x.0);
    assert forall|i: int| 0 <= i < hi.len() implies (#[trigger] hi[i]).0 > x.0 by {
        lemma_sorted_stretch(f, left, right, l, l + i);
    }
    lemma_mass_above_all(hi, x.0);
    assert(mass_above(a, x.0) == total_mass(hi));
    lemma_inversion_bounds(hi);
    let w = x.1 as int;
    let m = total_mass(hi);
    assert(0 <= w * m) by (nonlinear_arith)
        requires
            0 <= w,
            0 <= m,
    ;
}

/// The part of the cross mass that a prefix of the right run accounts for is
/// at most the whole.
proof fn lemma_cross_prefix(f: Seq<(i64, u64)>, left: int, right: int, end: int, r: int)
    requires
        0 <= left <= right <= r <= end <= f.len(),
    ensures
        0 <= cross_mass(f.subrange(left, right), f.subrange(right, r)) <= cross_mass(
            f.subrange(left, right),
            f.subrange(right, end),
        ),
{
    let a = f.subrange(left, right);
    assert(f.subrange(right, end) =~= f.subrange(right, r) + f.subrange(r, end));
    lemma_sum_by_concat(f.subrange(right, r), f.subrange(r, end), cross_term(a));
    lemma_cross_nonneg(a, f.subrange(right, r));
    lemma_cross_nonneg(a, f.subrange(r, end));
}

/// The partial sums of the weights of `f`.
#[verifier::opaque]
pub closed spec fn prefix_masses(f: Seq<(i64, u64)>, cum: Seq<u64>) -> bool {
    &&& cum.len() == f.len()
    &&& forall|i: int| 0 <= i < f.len() ==> #[trigger] cum[i] == total_mass(f.subrange(0, i + 1))
}

/// The weight of the stretch `l..right`, read off the partial sums.
proof fn lemma_span(f: Seq<(i64, u64)>, cum: Seq<u64>, l: int, right: int)
    requires
        prefix_masses(f, cum),
        0 <= l < right <= f.len(),
    ensures
        cum.len() == f.len(),
        l > 0 ==> cum[right - 1] - cum[l - 1] == total_mass(f.subrange(l, right)),
        l == 0 ==> cum[right - 1] == total_mass(f.subrange(l, right)),
        l > 0 ==> cum[l - 1] <= cum[right - 1],
{
    reveal(prefix_masses);
    lemma_prefix_mass(f, l, right);
    assert(f.subrange(0, 0) =~= Seq::empty());
}

/// Writes observation `i` of the source to position `k` of the destination.
fn copy_item(
    from_d: &Vec<i64>,
    from_w: &Vec<u64>,
    to_d: &mut Vec<i64>,
    to_w: &mut Vec<u64>,
    i: usize,
    k: usize,
)
    requires
        from_d.len() == from_w.len(),
        old(to_d).len() == old(to_w).len(),
        i < from_d.len(),
        k < old(to_d).len(),
    ensures
        final(to_d).len() == old(to_d).len(),
        final(to_w).len() == old(to_w).len(),
        pairs(final(to_d)@, final(to_w)@) == pairs(old(to_d)@, old(to_w)@).update(
            k as int,
            pairs(from_d@, from_w@)[i as int],
        ),
{
    to_d.set(k, from_d[i]);
    to_w.set(k, from_w[i]);
    proof {
        assert(pairs(to_d@, to_w@) =~= pairs(old(to_d)@, old(to_w)@).update(
            k as int,
            pairs(from_d@, from_w@)[i as int],
        ));
    }
}

/// Merges the sorted runs `left..right` and `right..end` of the source into
/// `left..end` of the destination, and adds to `swap` the weighted number of
/// pairs across the two runs that stood in the wrong order.
fn merge_runs(
    from_d: &Vec<i64>,
    from_w: &Vec<u64>,
    cum: &Vec<u64>,
    to_d: &mut Vec<i64>,
    to_w: &mut Vec<u64>,
    left: usize,
    right: usize,
    end: usize,
    swap: u128,
    Ghost(org): Ghost<Seq<(i64, u64)>>,
    Ghost(tf): Ghost<Seq<int>>,
    Ghost(tt0): Ghost<Seq<int>>,
) -> (res: (u128, Ghost<Seq<int>>))
    requires
        from_d.len() == from_w.len(),
        old(to_d).len() == from_d.len(),
        old(to_w).len() == from_d.len(),
        left < right <= end <= from_d.len(),
        tt0.len() == from_d.len(),
        tagged_runs(pairs(from_d@, from_w@), tf, org, left as int, right as int, end as int),
        prefix_masses(pairs(from_d@, from_w@), cum@),
        sorted(pairs(from_d@, from_w@).subrange(left as int, right as int)),
        sorted(pairs(from_d@, from_w@).subrange(right as int, end as int)),
        swap + cross_mass(
            pairs(from_d@, from_w@).subrange(left as int, right as int),
            pairs(from_d@, from_w@).subrange(right as int, end as int),
        ) <= u128::MAX,
    ensures
        final(to_d).len() == from_d.len(),
        final(to_w).len() == from_d.len(),
        pairs(final(to_d)@, final(to_w)@).subrange(0, left as int) == pairs(
            old(to_d)@,
            old(to_w)@,
        ).subrange(0, left as int),
        pairs(final(to_d)@, final(to_w)@).subrange(left as int, end as int).to_multiset() == pairs(
            from_d@,
            from_w@,
        ).subrange(left as int, end as int).to_multiset(),
        sorted(pairs(final(to_d)@, final(to_w)@).subrange(left as int, end as int)),
        res.0 == swap + cross_mass(
            pairs(from_d@, from_w@).subrange(left as int, right as int),
            pairs(from_d@, from_w@).subrange(right as int, end as int),
        ),
        tagged_block(
            pairs(final(to_d)@, final(to_w)@),
            res.1@,
            tt0,
            org,
            left as int,
            end as int,
        ),
{
    let ghost f = pairs(from_d@, from_w@);
    let ghost t0 = pairs(to_d@, to_w@);
    let ghost mut tt = tt0;
    let ghost a = f.subrange(left as int, right as int);
    let ghost b = f.subrange(right as int, end as int);
    let mut acc: u128 = swap;
    let mut l: usize = left;
    let mut r: usize = right;
    let mut k: usize = left;
    proof {
        lemma_merge_start(f, t0, left as int, right as int, end as int);
        lemma_tag_merge_start(f, tf, t0, tt0, org, left as int, right as int, end as int);
        assert(f.subrange(right as int, right as int) =~= Seq::empty());
    }
    while l < right && r < end
        invariant
            from_d.len() == from_w.len(),
            to_d.len() == from_d.len(),
            to_w.len() == from_d.len(),
            left < right <= end <= from_d.len(),
            f == pairs(from_d@, from_w@),
            a == f.subrange(left as int, right as int),
            b == f.subrange(right as int, end as int),
            prefix_masses(f, cum@),
            sorted(a),
            sorted(b),
            merging(
                f,
                pairs(to_d@, to_w@),
                t0,
                left as int,
                right as int,
                end as int,
                l as int,
                r as int,
                k as int,
            ),
            tagged_runs(f, tf, org, left as int, right as int, end as int),
            tag_merging(
                f,
                tf,
                pairs(to_d@, to_w@),
                tt,
                tt0,
                org,
                left as int,
                right as int,
                end as int,
                l as int,
                r as int,
                k as int,
            ),
            acc == swap + cross_mass(a, f.subrange(right as int, r as int)),
            swap + cross_mass(a, b) <= u128::MAX,
        decreases (right - l) + (end - r),
    {
        let ghost t = pairs(to_d@, to_w@);
        if from_d[l] > from_d[r] {
            proof {
                lemma_span(f, cum@, l as int, right as int);
            }
            let below: u64 = if l == 0 {
                0
            } else {
                cum[l - 1]
            };
            proof {
                lemma_span(f, cum@, l as int, right as int);
            }
            let span: u64 = cum[right - 1] - below;
            proof {
                let w = from_w[r as int] as int;
                let m = span as int;
                assert(w * m <= 0xFFFF_FFFF_FFFF_FFFF * 0xFFFF_FFFF_FFFF_FFFF) by (nonlinear_arith)
                    requires
                        0 <= w <= 0xFFFF_FFFF_FFFF_FFFF,
                        0 <= m <= 0xFFFF_FFFF_FFFF_FFFF,
                ;
            }
            let swap_temp: u128 = (from_w[r] as u128) * (span as u128);
            copy_item(from_d, from_w, to_d, to_w, r, k);
            proof {
                lemma_take_right(
                    f,
                    t,
                    pairs(to_d@, to_w@),
                    t0,
                    left as int,
                    right as int,
                    end as int,
                    l as int,
                    r as int,
                    k as int,
                );
                lemma_tag_take_right(
                    f,
                    tf,
                    t,
                    tt,
                    tt0,
                    org,
                    left as int,
                    right as int,
                    end as int,
                    l as int,
                    r as int,
                    k as int,
                );
                tt = tt.update(k as int, tf[r as int]);
                lemma_cross_prefix(f, left as int, right as int, end as int, r + 1);
            }
            acc = acc + swap_temp;
            k += 1;
            r += 1;
        } else {
            copy_item(from_d, from_w, to_d, to_w, l, k);
            proof {
                lemma_take_left(
                    f,
                    t,
                    pairs(to_d@, to_w@),
                    t0,
                    left as int,
                    right as int,
                    end as int,
                    l as int,
                    r as int,
                    k as int,
                );
                lemma_tag_take_left(
                    f,
                    tf,
                    t,
                    tt,
                    tt0,
                    org,
                    left as int,
                    right as int,
                    end as int,
                    l as int,
                    r as int,
                    k as int,
                );
                tt = tt.update(k as int, tf[l as int]);
            }
            k += 1;
            l += 1;
        }
    }
    if l < right {
        while l < right
            invariant
                from_d.len() == from_w.len(),
                to_d.len() == from_d.len(),
                to_w.len() == from_d.len(),
                left < right <= end <= from_d.len(),
                f == pairs(from_d@, from_w@),
                a == f.subrange(left as int, right as int),
                sorted(a),
                r == end,
                merging(
                    f,
                    pairs(to_d@, to_w@),
                    t0,
                    left as int,
                    right as int,
                    end as int,
                    l as int,
                    r as int,
                    k as int,
                ),
                tagged_runs(f, tf, org, left as int, right as int, end as int),
                tag_merging(
                    f,
                    tf,
                    pairs(to_d@, to_w@),
                    tt,
                    tt0,
                    org,
                    left as int,
                    right as int,
                    end as int,
                    l as int,
                    r as int,
                    k as int,
                ),
            decreases right - l,
        {
            let ghost t = pairs(to_d@, to_w@);
            copy_item(from_d, from_w, to_d, to_w, l, k);
            proof {
                lemma_take_left(
                    f,
                    t,
                    pairs(to_d@, to_w@),
                    t0,
                    left as int,
                    right as int,
                    end as int,
                    l as int,
                    r as int,
                    k as int,
                );
                lemma_tag_take_left(
                    f,
                    tf,
                    t,
                    tt,
                    tt0,
                    org,
                    left as int,
                    right as int,
                    end as int,
                    l as int,
                    r as int,
                    k as int,
                );
                tt = tt.update(k as int, tf[l as int]);
            }
            k += 1;
            l += 1;
        }
    } else {
        while r < end
            invariant
                from_d.len() == from_w.len(),
                to_d.len() == from_d.len(),
                to_w.len() == from_d.len(),
                left < right <= end <= from_d.len(),
                f == pairs(from_d@, from_w@),
                a == f.subrange(left as int, right as int),
                b == f.subrange(right as int, end as int),
                sorted(a),
                sorted(b),
                l == right,
                merging(
                    f,
                    pairs(to_d@, to_w@),
                    t0,
                    left as int,
                    right as int,
                    end as int,
                    l as int,
                    r as int,
                    k as int,
                ),
                tagged_runs(f, tf, org, left as int, right as int, end as int),
                tag_merging(
                    f,
                    tf,
                    pairs(to_d@, to_w@),
                    tt,
                    tt0,
                    org,
                    left as int,
                    right as int,
                    end as int,
                    l as int,
                    r as int,
                    k as int,
                ),
                acc == swap + cross_mass(a, f.subrange(right as int, r as int)),
            decreases end - r,
        {
            let ghost t = pairs(to_d@, to_w@);
            copy_item(from_d, from_w, to_d, to_w, r, k);
            proof {
                lemma_take_right(
                    f,
                    t,
                    pairs(to_d@, to_w@),
                    t0,
                    left as int,
                    right as int,
                    end as int,
                    l as int,
                    r as int,
                    k as int,
                );
                lemma_tag_take_right(
                    f,
                    tf,
                    t,
                    tt,
                    tt0,
                    org,
                    left as int,
                    right as int,
                    end as int,
                    l as int,
                    r as int,
                    k as int,
                );
                tt = tt.update(k as int, tf[r as int]);
                assert(f.subrange(right as int, right as int) =~= Seq::empty());
            }
            k += 1;
            r += 1;
        }
    }
    proof {
        assert(f.subrange(left as int, end as int) =~= a + b);
        lemma_multiset_commutative(a, b);
        lemma_tag_merge_end(
            f,
            tf,
            pairs(to_d@, to_w@),
            tt,
            tt0,
            org,
            left as int,
            right as int,
            end as int,
        );
    }
    (acc, Ghost(tt))
}

/// Two adjacent sorted runs have exactly the inversions that lie across
/// them.
proof fn lemma_merged_gain(f: Seq<(i64, u64)>, left: int, right: int, end: int)
    requires
        0 <= left <= right <= end <= f.len(),
        sorted(f.subrange(left, right)),
        sorted(f.subrange(right, end)),
    ensures
        inversion_mass(f.subrange(left, end)) == cross_mass(
            f.subrange(left, right),
            f.subrange(right, end),
        ),
{
    let a = f.subrange(left, right);
    let b = f.subrange(right, end);
    assert(f.subrange(left, end) =~= a + b);
    lemma_inversion_concat(a, b);
    lemma_sorted_no_inversions(a);
    lemma_sorted_no_inversions(b);
}

/// The inversions before a block and those inside it are among those of the
/// whole sequence.
proof fn lemma_pass_room(f: Seq<(i64, u64)>, left: int, end: int)
    requires
        0 <= left <= end <= f.len(),
    ensures
        0 <= inversion_mass(f.subrange(0, left)),
        0 <= inversion_mass(f.subrange(left, end)),
        inversion_mass(f.subrange(0, left)) + inversion_mass(f.subrange(left, end))
            <= inversion_mass(f),
{
    let x = f.subrange(0, left);
    let u = f.subrange(left, end);
    let z = f.subrange(end, f.len() as int);
    assert(f =~= (x + u) + z);
    lemma_inversion_concat(x, u);
    lemma_inversion_concat(x + u, z);
    lemma_cross_nonneg(x, u);
    lemma_cross_nonneg(x + u, z);
    lemma_inversion_bounds(x);
    lemma_inversion_bounds(u);
    lemma_inversion_bounds(z);
}

/// What one more finished block means for the destination as a whole.
proof fn lemma_pass_step(
    f: Seq<(i64, u64)>,
    tb: Seq<(i64, u64)>,
    t: Seq<(i64, u64)>,
    left: int,
    end: int,
    run: int,
)
    requires
        0 <= left <= end <= f.len(),
        t.len() == f.len(),
        tb.len() == f.len(),
        run > 0,
        left % run == 0,
        tb.subrange(0, left).to_multiset() == f.subrange(0, left).to_multiset(),
        sorted_runs(tb.subrange(0, left), run),
        t.subrange(0, left) == tb.subrange(0, left),
        t.subrange(left, end).to_multiset() == f.subrange(left, end).to_multiset(),
        sorted(t.subrange(left, end)),
    ensures
        t.subrange(0, end).to_multiset() == f.subrange(0, end).to_multiset(),
        sorted_runs(t.subrange(0, end), run),
        inversion_mass(f.subrange(0, end)) - inversion_mass(t.subrange(0, end)) == inversion_mass(
            f.subrange(0, left),
        ) - inversion_mass(tb.subrange(0, left)) + inversion_mass(f.subrange(left, end)),
{
    let x = f.subrange(0, left);
    let u = f.subrange(left, end);
    let y = t.subrange(0, left);
    let v = t.subrange(left, end);
    lemma_block_extend(x, u, y, v);
    assert(f.subrange(0, end) =~= x + u);
    assert(t.subrange(0, end) =~= y + v);
    lemma_sorted_no_inversions(v);
    reveal(sorted_runs);
    let te = t.subrange(0, end);
    assert forall|i: int| 0 <= i && i + 1 < te.len() && (i + 1) % run != 0 implies (#[trigger] te[i]).0
        <= te[i + 1].0 by {
        if i + 1 < left {
            assert(y[i].0 <= y[i + 1].0);
        } else if i + 1 == left {
        } else {
            assert(v[i - left].0 <= v[i + 1 - left].0);
        }
    }
}

/// Before the first block nothing is claimed of the destination.
proof fn lemma_pass_start(f: Seq<(i64, u64)>, t: Seq<(i64, u64)>, run: int)
    requires
        run > 0,
    ensures
        0int % run == 0,
        t.subrange(0, 0).to_multiset() == f.subrange(0, 0).to_multiset(),
        sorted_runs(t.subrange(0, 0), run),
        inversion_mass(t.subrange(0, 0)) == 0,
        inversion_mass(f.subrange(0, 0)) == 0,
{
    reveal(sorted_runs);
    assert(f.subrange(0, 0) =~= Seq::empty());
    assert(t.subrange(0, 0) =~= Seq::empty());
    vstd::arithmetic::div_mod::lemma_fundamental_div_mod_converse(0, run, 0, 0);
}

/// One pass: merges each pair of adjacent runs of length `step` of the source
/// into the destination, copies what is left over, and adds to `swap` the
/// weighted inversions that the pass removed.
fn merge_pass(
    from_d: &Vec<i64>,
    from_w: &Vec<u64>,
    to_d: &mut Vec<i64>,
    to_w: &mut Vec<u64>,
    cum: &mut Vec<u64>,
    step: usize,
    swap: u128,
    Ghost(org): Ghost<Seq<(i64, u64)>>,
    Ghost(tf): Ghost<Seq<int>>,
) -> (res: (u128, Ghost<Seq<int>>))
    requires
        from_d.len() == from_w.len(),
        old(to_d).len() == from_d.len(),
        old(to_w).len() == from_d.len(),
        old(cum).len() == from_d.len(),
        0 < step < from_d.len(),
        tagged_state(pairs(from_d@, from_w@), tf, org, step as int, from_d.len() as int),
        sorted_runs(pairs(from_d@, from_w@), step as int),
        total_mass(pairs(from_d@, from_w@)) <= u64::MAX,
        swap + inversion_mass(pairs(from_d@, from_w@)) <= u128::MAX,
    ensures
        final(to_d).len() == from_d.len(),
        final(to_w).len() == from_d.len(),
        final(cum).len() == from_d.len(),
        pairs(final(to_d)@, final(to_w)@).to_multiset() == pairs(from_d@, from_w@).to_multiset(),
        sorted_runs(pairs(final(to_d)@, final(to_w)@), 2 * step),
        res.0 + inversion_mass(pairs(final(to_d)@, final(to_w)@)) == swap + inversion_mass(
            pairs(from_d@, from_w@),
        ),
        tagged_state(
            pairs(final(to_d)@, final(to_w)@),
            res.1@,
            org,
            2 * step,
            from_d.len() as int,
        ),
{
    let ghost f = pairs(from_d@, from_w@);
    let dl: usize = from_d.len();
    let ghost mut tt: Seq<int> = own_places(dl as nat);

    // the partial sums of the source's weights
    let mut cw_acc: u64 = from_w[0];
    cum.set(0, cw_acc);
    proof {
        lemma_stretch_push(f, 0, 0, weight_of());
        assert(f.subrange(0, 0) =~= Seq::empty());
    }
    let mut i: usize = 1;
    while i < dl
        invariant
            1 <= i <= dl,
            dl == from_d.len(),
            from_d.len() == from_w.len(),
            cum.len() == dl,
            f == pairs(from_d@, from_w@),
            total_mass(f) <= u64::MAX,
            cw_acc == total_mass(f.subrange(0, i as int)),
            forall|j: int| 0 <= j < i ==> #[trigger] cum@[j] == total_mass(f.subrange(0, j + 1)),
        decreases dl - i,
    {
        proof {
            lemma_stretch_push(f, 0, i as int, weight_of());
            lemma_prefix_mass(f, 0, i + 1);
        }
        cw_acc = cw_acc + from_w[i];
        cum.set(i, cw_acc);
        i += 1;
    }

    let mut left: usize = 0;
    let mut acc: u128 = swap;
    proof {
        assert(prefix_masses(f, cum@)) by {
            reveal(prefix_masses);
        }
        lemma_pass_start(f, pairs(to_d@, to_w@), 2 * step);
        crate::statistics::stable::lemma_state_lengths(f, tf, org, step as int);
        lemma_tagged_nothing(pairs(to_d@, to_w@), tt, org, 2 * step);
    }
    while left <= dl - step
        invariant
            tagged_state(f, tf, org, step as int, dl as int),
            tagged_state(pairs(to_d@, to_w@), tt, org, 2 * step, left as int),
            tt.len() == dl,
            org.len() == dl,
            dl == from_d.len(),
            from_d.len() == from_w.len(),
            to_d.len() == dl,
            to_w.len() == dl,
            cum.len() == dl,
            0 < step < dl,
            f == pairs(from_d@, from_w@),
            prefix_masses(f, cum@),
            sorted_runs(f, step as int),
            left <= dl,
            left == dl || (left as int) % (2 * step) == 0,
            pairs(to_d@, to_w@).subrange(0, left as int).to_multiset() == f.subrange(
                0,
                left as int,
            ).to_multiset(),
            sorted_runs(pairs(to_d@, to_w@).subrange(0, left as int), 2 * step),
            acc + inversion_mass(pairs(to_d@, to_w@).subrange(0, left as int)) == swap
                + inversion_mass(f.subrange(0, left as int)),
            swap + inversion_mass(f) <= u128::MAX,
        decreases dl - left,
    {
        let right: usize = left + step;
        let end: usize = if dl - right < step {
            dl
        } else {
            right + step
        };
        let ghost tb = pairs(to_d@, to_w@);
        proof {
            lemma_mod_double(left as int, step as int);
            lemma_run_sorted(f, step as int, left as int, right as int);
            lemma_run_sorted(f, step as int, right as int, end as int);
            lemma_merged_gain(f, left as int, right as int, end as int);
            lemma_pass_room(f, left as int, end as int);
            lemma_inversion_bounds(tb.subrange(0, left as int));
            lemma_runs_of_state(
                f,
                tf,
                org,
                step as int,
                left as int,
                right as int,
                end as int,
            );
        }
        let ghost ttb = tt;
        let merged = merge_runs(
            from_d,
            from_w,
            cum,
            to_d,
            to_w,
            left,
            right,
            end,
            acc,
            Ghost(org),
            Ghost(tf),
            Ghost(tt),
        );
        acc = merged.0;
        proof {
            tt = merged.1@;
            lemma_pass_step(f, tb, pairs(to_d@, to_w@), left as int, end as int, 2 * step);
            lemma_state_extend(
                tb,
                ttb,
                pairs(to_d@, to_w@),
                tt,
                org,
                2 * step,
                left as int,
                end as int,
            );
        }
        left = end;
    }

    // what is left over is shorter than one run
    let ghost tb = pairs(to_d@, to_w@);
    let ghost ttb = tt;
    let mut k: usize = left;
    while k < dl
        invariant
            tt.len() == dl,
            tf.len() == dl,
            ttb.len() == dl,
            tt.subrange(0, left as int) == ttb.subrange(0, left as int),
            tt.subrange(left as int, k as int) == tf.subrange(left as int, k as int),
            dl == from_d.len(),
            from_d.len() == from_w.len(),
            to_d.len() == dl,
            to_w.len() == dl,
            left <= k <= dl,
            f == pairs(from_d@, from_w@),
            pairs(to_d@, to_w@).subrange(0, left as int) == tb.subrange(0, left as int),
            pairs(to_d@, to_w@).subrange(left as int, k as int) == f.subrange(
                left as int,
                k as int,
            ),
        decreases dl - k,
    {
        let ghost t = pairs(to_d@, to_w@);
        copy_item(from_d, from_w, to_d, to_w, k, k);
        proof {
            let t2 = pairs(to_d@, to_w@);
            assert(t2.subrange(0, left as int) =~= t.subrange(0, left as int));
            assert(t2.subrange(left as int, k + 1) =~= t.subrange(left as int, k as int).push(
                f[k as int],
            ));
            assert(f.subrange(left as int, k + 1) =~= f.subrange(left as int, k as int).push(
                f[k as int],
            ));
            let tt_before = tt;
            tt = tt.update(k as int, tf[k as int]);
            assert(tt.subrange(0, left as int) =~= tt_before.subrange(0, left as int));
            assert(tt.subrange(left as int, k + 1) =~= tt_before.subrange(
                left as int,
                k as int,
            ).push(tf[k as int]));
            assert(tf.subrange(left as int, k + 1) =~= tf.subrange(left as int, k as int).push(
                tf[k as int],
            ));
        }
        k += 1;
    }
    proof {
        let t = pairs(to_d@, to_w@);
        if left < dl {
            lemma_mod_double(left as int, step as int);
            lemma_run_sorted(f, step as int, left as int, dl as int);
            lemma_sorted_no_inversions(f.subrange(left as int, dl as int));
            lemma_pass_step(f, tb, t, left as int, dl as int, 2 * step);
            lemma_tail_block(f, tf, t, tt, ttb, org, step as int, left as int);
            lemma_state_extend(tb, ttb, t, tt, org, 2 * step, left as int, dl as int);
        } else {
            assert(t =~= t.subrange(0, dl as int));
            assert(tb =~= tb.subrange(0, dl as int));
            assert(tt =~= tt.subrange(0, dl as int));
            assert(ttb =~= ttb.subrange(0, dl as int));
        }
        assert(t.subrange(0, dl as int) =~= t);
        assert(f.subrange(0, dl as int) =~= f);
    }
    (acc, Ghost(tt))
}

/// A sorted sequence has sorted runs of every length.
proof fn lemma_sorted_any_runs(s: Seq<(i64, u64)>, step: int)
    requires
        sorted(s),
    ensures
        sorted_runs(s, step),
{
    reveal(sorted_runs);
}

/// Sorted observations have sorted values.
proof fn lemma_sorted_values(d: Seq<i64>, w: Seq<u64>)
    requires
        d.len() == w.len(),
        sorted(pairs(d, w)),
    ensures
        non_decreasing(d),
{
    let s = pairs(d, w);
    assert forall|i: int, j: int| 0 <= i <= j < d.len() implies d[i] <= d[j] by {
        assert(s[i].0 <= s[j].0);
    }
}

/// The sum of the weights, where it fits.
///
/// Returns `None` exactly when the sum exceeds `u64::MAX`.
pub fn total_weight(weights: &Vec<u64>) -> (res: Option<u64>)
    ensures
        weight_sum(weights@) <= u64::MAX ==> res == Some(weight_sum(weights@) as u64),
        weight_sum(weights@) > u64::MAX ==> res.is_none(),
        res matches Some(total) ==> total == weight_sum(weights@),
{
    let mut acc: u64 = 0;
    let mut i: usize = 0;
    while i < weights.len()
        invariant
            i <= weights.len(),
            acc == weight_sum(weights@.subrange(0, i as int)),
        decreases weights.len() - i,
    {
        proof {
            assert(weights@.subrange(0, i + 1).drop_last() =~= weights@.subrange(0, i as int));
            lemma_weight_sum_prefix(weights@, i + 1);
        }
        if weights[i] > u64::MAX - acc {
            return None;
        }
        acc = acc + weights[i];
        i += 1;
    }
    proof {
        assert(weights@.subrange(0, i as int) =~= weights@);
    }
    Some(acc)
}

/// No prefix of the weights sums to more than all of them.
pub proof fn lemma_weight_sum_prefix(w: Seq<u64>, n: int)
    requires
        0 <= n <= w.len(),
    ensures
        0 <= weight_sum(w.subrange(0, n)) <= weight_sum(w),
    decreases w.len() - n,
{
    if n < w.len() {
        lemma_weight_sum_prefix(w, n + 1);
        assert(w.subrange(0, n + 1).drop_last() =~= w.subrange(0, n));
        lemma_weight_sum_nonneg(w.subrange(0, n));
    } else {
        assert(w.subrange(0, n) =~= w);
        lemma_weight_sum_nonneg(w);
    }
}

/// A sum of weights is not negative.
pub proof fn lemma_weight_sum_nonneg(w: Seq<u64>)
    ensures
        0 <= weight_sum(w),
    decreases w.len(),
{
    if w.len() > 0 {
        lemma_weight_sum_nonneg(w.drop_last());
    }
}

/// Sorts `data` into non-decreasing order, carries each weight along with its
/// value, keeps equal values in the order in which they came, and returns
/// the weighted inversion count of the input: the sum of
/// `weights[i] * weights[j]` over all positions `i < j` with
/// `data[i] > data[j]`.
///
/// Fails, and changes nothing, if the two vectors differ in length, and else
/// if the weights sum to more than `u64::MAX`.
pub fn weighted_merge_sort_mut(data: &mut Vec<i64>, weights: &mut Vec<u64>) -> (res: Result<
    u128,
    ImgalError,
>)
    ensures
        old(data).len() != old(weights).len() ==> {
            &&& res matches Err(
                ImgalError::MismatchedArrayLengths { a_arr_name, a_arr_len, b_arr_name, b_arr_len },
            ) && a_arr_len == old(data).len() && b_arr_len == old(weights).len() && a_arr_name@
                == "data"@ && b_arr_name@ == "weights"@
            &&& final(data)@ == old(data)@
            &&& final(weights)@ == old(weights)@
        },
        old(data).len() == old(weights).len() && weight_sum(old(weights)@) > u64::MAX ==> {
            &&& res matches Err(ImgalError::InvalidParameterValueGreater { param_name, value })
                && value == usize::MAX && param_name@ == "weights"@
            &&& final(data)@ == old(data)@
            &&& final(weights)@ == old(weights)@
        },
        old(data).len() == old(weights).len() && weight_sum(old(weights)@) <= u64::MAX ==> {
            &&& res matches Ok(c) && c == inversion_mass(pairs(old(data)@, old(weights)@))
            &&& final(data).len() == old(data).len()
            &&& final(weights).len() == old(weights).len()
            &&& non_decreasing(final(data)@)
            &&& pairs(final(data)@, final(weights)@).to_multiset() == pairs(
                old(data)@,
                old(weights)@,
            ).to_multiset()
            &&& exists|perm: Seq<int>|
                is_stable_rearrangement(
                    pairs(old(data)@, old(weights)@),
                    pairs(final(data)@, final(weights)@),
                    perm,
                )
        },
{
    let dl: usize = data.len();
    let wl: usize = weights.len();
    if dl != wl {
        return Err(
            ImgalError::MismatchedArrayLengths {
                a_arr_name: "data",
                a_arr_len: dl,
                b_arr_name: "weights",
                b_arr_len: wl,
            },
        );
    }
    // the sums of weights that the count is made of must fit
    if total_weight(weights).is_none() {
        return Err(
            ImgalError::InvalidParameterValueGreater { param_name: "weights", value: usize::MAX },
        );
    }
    let ghost orig = pairs(data@, weights@);
    let mut swap: u128 = 0;
    let mut step: usize = 1;
    let mut data_buf: Vec<i64> = vec![0i64; dl];
    let mut weights_buf: Vec<u64> = vec![0u64; dl];
    let mut cum_weights_buf: Vec<u64> = vec![0u64; dl];
    // which of the two pairs of vectors holds the current state
    let mut data_in_buffer: bool = false;
    proof {
        lemma_total_mass_is_weight_sum(data@, weights@);
        lemma_inversion_bounds(orig);
        let m = total_mass(orig);
        assert(m * m <= 0xFFFF_FFFF_FFFF_FFFF * 0xFFFF_FFFF_FFFF_FFFF) by (nonlinear_arith)
            requires
                0 <= m <= 0xFFFF_FFFF_FFFF_FFFF,
        ;
        assert(sorted_runs(orig, 1)) by {
            reveal(sorted_runs);
        }
        lemma_tagged_start(orig);
    }
    let ghost mut tags: Seq<int> = own_places(dl as nat);
    while step < dl
        invariant
            orig.len() == dl,
            data_in_buffer ==> tagged_state(
                pairs(data_buf@, weights_buf@),
                tags,
                orig,
                step as int,
                dl as int,
            ),
            !data_in_buffer ==> tagged_state(
                pairs(data@, weights@),
                tags,
                orig,
                step as int,
                dl as int,
            ),
            data.len() == dl,
            weights.len() == dl,
            data_buf.len() == dl,
            weights_buf.len() == dl,
            cum_weights_buf.len() == dl,
            1 <= step,
            total_mass(orig) <= u64::MAX,
            inversion_mass(orig) <= u128::MAX,
            data_in_buffer ==> {
                &&& pairs(data_buf@, weights_buf@).to_multiset() == orig.to_multiset()
                &&& sorted_runs(pairs(data_buf@, weights_buf@), step as int)
                &&& swap + inversion_mass(pairs(data_buf@, weights_buf@)) == inversion_mass(orig)
            },
            !data_in_buffer ==> {
                &&& pairs(data@, weights@).to_multiset() == orig.to_multiset()
                &&& sorted_runs(pairs(data@, weights@), step as int)
                &&& swap + inversion_mass(pairs(data@, weights@)) == inversion_mass(orig)
            },
        decreases dl - step,
    {
        if data_in_buffer {
            proof {
                lemma_sum_by_perm(pairs(data_buf@, weights_buf@), orig, weight_of());
            }
            let pass = merge_pass(
                &data_buf,
                &weights_buf,
                data,
                weights,
                &mut cum_weights_buf,
                step,
                swap,
                Ghost(orig),
                Ghost(tags),
            );
            swap = pass.0;
            proof {
                tags = pass.1@;
            }
        } else {
            proof {
                lemma_sum_by_perm(pairs(data@, weights@), orig, weight_of());
            }
            let pass = merge_pass(
                data,
                weights,
                &mut data_buf,
                &mut weights_buf,
                &mut cum_weights_buf,
                step,
                swap,
                Ghost(orig),
                Ghost(tags),
            );
            swap = pass.0;
            proof {
                tags = pass.1@;
            }
        }
        data_in_buffer = !data_in_buffer;

        // double the run length; once it covers everything, the work is done
        let ghost cur = if data_in_buffer {
            pairs(data_buf@, weights_buf@)
        } else {
            pairs(data@, weights@)
        };
        if step >= dl - step {
            proof {
                lemma_runs_cover(cur, 2 * step);
                lemma_sorted_any_runs(cur, dl as int);
                lemma_state_covers(cur, tags, orig, 2 * step, dl as int);
            }
            step = dl;
        } else {
            step = step + step;
        }
    }

    // bring the result home if the last pass left it in the buffers
    if data_in_buffer {
        let mut k: usize = 0;
        while k < dl
            invariant
                data.len() == dl,
                weights.len() == dl,
                data_buf.len() == dl,
                weights_buf.len() == dl,
                k <= dl,
                pairs(data@, weights@).subrange(0, k as int) == pairs(
                    data_buf@,
                    weights_buf@,
                ).subrange(0, k as int),
            decreases dl - k,
        {
            let ghost t = pairs(data@, weights@);
            copy_item(&data_buf, &weights_buf, data, weights, k, k);
            proof {
                let b = pairs(data_buf@, weights_buf@);
                assert(pairs(data@, weights@).subrange(0, k + 1) =~= t.subrange(0, k as int).push(
                    b[k as int],
                ));
                assert(b.subrange(0, k + 1) =~= b.subrange(0, k as int).push(b[k as int]));
            }
            k += 1;
        }
        proof {
            assert(pairs(data@, weights@) =~= pairs(data@, weights@).subrange(0, dl as int));
            assert(pairs(data_buf@, weights_buf@) =~= pairs(data_buf@, weights_buf@).subrange(
                0,
                dl as int,
            ));
        }
    }
    proof {
        let fin = pairs(data@, weights@);
        lemma_runs_cover(fin, step as int);
        lemma_sorted_no_inversions(fin);
        lemma_sorted_values(data@, weights@);
        lemma_state_is_stable(fin, tags, orig, step as int);
    }
    Ok(swap)
}

} // verus!

