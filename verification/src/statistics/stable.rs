//! The order of equal values: what it means for a sort to keep it, and the
//! steps by which a merge sort does.
//!
//! Beside a sequence of observations stands a sequence of tags: the position
//! that each observation had before the sort.
use vstd::prelude::*;

verus! {

/// The first of two tagged observations comes before the second in the order
/// of the values and, among equal values, of the tags.
pub open spec fn tagged_before(a: (i64, u64), ta: int, b: (i64, u64), tb: int) -> bool {
    a.0 < b.0 || (a.0 == b.0 && ta < tb)
}

/// `perm` shows `after` to be a rearrangement of `before` that keeps equal
/// values in their order: `after[k]` is `before[perm[k]]`, no position of
/// `before` is taken twice, and of two equal values the one that was first
/// is first.
pub open spec fn is_stable_rearrangement(
    before: Seq<(i64, u64)>,
    after: Seq<(i64, u64)>,
    perm: Seq<int>,
) -> bool {
    &&& perm.len() == before.len()
    &&& after.len() == before.len()
    &&& forall|k: int|
        0 <= k < perm.len() ==> 0 <= #[trigger] perm[k] < before.len() && after[k]
            == before[perm[k]]
    &&& forall|k: int, l: int|
        0 <= k < l < perm.len() ==> #[trigger] perm[k] != #[trigger] perm[l]
    &&& forall|k: int, l: int|
        0 <= k < l < perm.len() && after[k].0 == after[l].0 ==> #[trigger] perm[k]
            < #[trigger] perm[l]
}

/// Every observation of `s` from `lo` to `hi` is the one of `org` that its
/// tag names, and the tags lie from `lo` to `hi` too.
#[verifier::opaque]
pub closed spec fn tags_within(
    s: Seq<(i64, u64)>,
    ts: Seq<int>,
    org: Seq<(i64, u64)>,
    lo: int,
    hi: int,
) -> bool {
    &&& ts.len() == s.len()
    &&& 0 <= lo <= hi <= s.len()
    &&& hi <= org.len()
    &&& forall|i: int| lo <= i < hi ==> lo <= #[trigger] ts[i] < hi && s[i] == org[ts[i]]
}

/// From `lo` to `hi`, each observation comes before the next one in the
/// order of values and tags.
#[verifier::opaque]
pub closed spec fn tags_rise(s: Seq<(i64, u64)>, ts: Seq<int>, lo: int, hi: int) -> bool {
    &&& ts.len() == s.len()
    &&& 0 <= lo <= hi <= s.len()
    &&& forall|i: int|
        lo <= i && i + 1 < hi ==> tagged_before(s[i], #[trigger] ts[i], s[i + 1], ts[i + 1])
}

/// The state of the tags in one merge: what was written from `left` to `k`
/// carries its tags, rises, and comes before what is next in either run.
#[verifier::opaque]
pub closed spec fn tag_merging(
    f: Seq<(i64, u64)>,
    tf: Seq<int>,
    t: Seq<(i64, u64)>,
    tt: Seq<int>,
    tt0: Seq<int>,
    org: Seq<(i64, u64)>,
    left: int,
    right: int,
    end: int,
    l: int,
    r: int,
    k: int,
) -> bool {
    &&& tt.len() == t.len()
    &&& tt0.len() == t.len()
    &&& tf.len() == f.len()
    &&& t.len() == f.len()
    &&& 0 <= left <= l <= right <= r <= end <= f.len()
    &&& end <= org.len()
    &&& k == l + (r - right)
    &&& tt.subrange(0, left) == tt0.subrange(0, left)
    &&& forall|i: int| left <= i < k ==> left <= #[trigger] tt[i] < end && t[i] == org[tt[i]]
    &&& forall|i: int|
        left <= i && i + 1 < k ==> tagged_before(t[i], #[trigger] tt[i], t[i + 1], tt[i + 1])
    &&& k > left && l < right ==> tagged_before(t[k - 1], tt[k - 1], f[l], tf[l])
    &&& k > left && r < end ==> tagged_before(t[k - 1], tt[k - 1], f[r], tf[r])
}

/// The two runs are ready to be merged: each carries its tags within its own
/// bounds and rises.
pub open spec fn tagged_runs(
    f: Seq<(i64, u64)>,
    tf: Seq<int>,
    org: Seq<(i64, u64)>,
    left: int,
    right: int,
    end: int,
) -> bool {
    &&& tags_within(f, tf, org, left, right)
    &&& tags_within(f, tf, org, right, end)
    &&& tags_rise(f, tf, left, right)
    &&& tags_rise(f, tf, right, end)
}

/// The merged block carries its tags within its bounds and rises, and what
/// stands before it is as it was.
pub open spec fn tagged_block(
    t: Seq<(i64, u64)>,
    tt: Seq<int>,
    tt0: Seq<int>,
    org: Seq<(i64, u64)>,
    left: int,
    end: int,
) -> bool {
    &&& tags_within(t, tt, org, left, end)
    &&& tags_rise(t, tt, left, end)
    &&& tt0.len() == tt.len()
    &&& tt.subrange(0, left) == tt0.subrange(0, left)
}

pub proof fn lemma_tag_merge_start(
    f: Seq<(i64, u64)>,
    tf: Seq<int>,
    t0: Seq<(i64, u64)>,
    tt0: Seq<int>,
    org: Seq<(i64, u64)>,
    left: int,
    right: int,
    end: int,
)
    requires
        tagged_runs(f, tf, org, left, right, end),
        t0.len() == f.len(),
        tt0.len() == f.len(),
    ensures
        tag_merging(f, tf, t0, tt0, tt0, org, left, right, end, left, right, left),
{
    reveal(tag_merging);
    reveal(tags_within);
}

pub proof fn lemma_tag_take_left(
    f: Seq<(i64, u64)>,
    tf: Seq<int>,
    t: Seq<(i64, u64)>,
    tt: Seq<int>,
    tt0: Seq<int>,
    org: Seq<(i64, u64)>,
    left: int,
    right: int,
    end: int,
    l: int,
    r: int,
    k: int,
)
    requires
        tag_merging(f, tf, t, tt, tt0, org, left, right, end, l, r, k),
        tagged_runs(f, tf, org, left, right, end),
        l < right,
        r < end ==> f[l].0 <= f[r].0,
    ensures
        tag_merging(
            f,
            tf,
            t.update(k, f[l]),
            tt.update(k, tf[l]),
            tt0,
            org,
            left,
            right,
            end,
            l + 1,
            r,
            k + 1,
        ),
{
    reveal(tag_merging);
    reveal(tags_within);
    reveal(tags_rise);
    let t2 = t.update(k, f[l]);
    let tt2 = tt.update(k, tf[l]);
    assert(tt2.subrange(0, left) =~= tt.subrange(0, left));
    assert(left <= tf[l] < right);
    assert forall|i: int| left <= i && i + 1 < k + 1 implies tagged_before(
        t2[i],
        #[trigger] tt2[i],
        t2[i + 1],
        tt2[i + 1],
    ) by {
        if i + 1 < k {
            assert(tagged_before(t[i], tt[i], t[i + 1], tt[i + 1]));
        }
    }
    if l + 1 < right {
        assert(tagged_before(f[l], tf[l], f[l + 1], tf[l + 1]));
    }
    if r < end {
        assert(right <= tf[r] < end);
    }
}

pub proof fn lemma_tag_take_right(
    f: Seq<(i64, u64)>,
    tf: Seq<int>,
    t: Seq<(i64, u64)>,
    tt: Seq<int>,
    tt0: Seq<int>,
    org: Seq<(i64, u64)>,
    left: int,
    right: int,
    end: int,
    l: int,
    r: int,
    k: int,
)
    requires
        tag_merging(f, tf, t, tt, tt0, org, left, right, end, l, r, k),
        tagged_runs(f, tf, org, left, right, end),
        r < end,
        l < right ==> f[l].0 > f[r].0,
    ensures
        tag_merging(
            f,
            tf,
            t.update(k, f[r]),
            tt.update(k, tf[r]),
            tt0,
            org,
            left,
            right,
            end,
            l,
            r + 1,
            k + 1,
        ),
{
    reveal(tag_merging);
    reveal(tags_within);
    reveal(tags_rise);
    let t2 = t.update(k, f[r]);
    let tt2 = tt.update(k, tf[r]);
    assert(tt2.subrange(0, left) =~= tt.subrange(0, left));
    assert(right <= tf[r] < end);
    assert forall|i: int| left <= i && i + 1 < k + 1 implies tagged_before(
        t2[i],
        #[trigger] tt2[i],
        t2[i + 1],
        tt2[i + 1],
    ) by {
        if i + 1 < k {
            assert(tagged_before(t[i], tt[i], t[i + 1], tt[i + 1]));
        }
    }
    if r + 1 < end {
        assert(tagged_before(f[r], tf[r], f[r + 1], tf[r + 1]));
    }
}

pub proof fn lemma_tag_merge_end(
    f: Seq<(i64, u64)>,
    tf: Seq<int>,
    t: Seq<(i64, u64)>,
    tt: Seq<int>,
    tt0: Seq<int>,
    org: Seq<(i64, u64)>,
    left: int,
    right: int,
    end: int,
)
    requires
        tag_merging(f, tf, t, tt, tt0, org, left, right, end, right, end, end),
    ensures
        tagged_block(t, tt, tt0, org, left, end),
{
    reveal(tag_merging);
    reveal(tags_within);
    reveal(tags_rise);
}

/// The state of the tags between passes: every observation carries its tag,
/// each aligned run of `step` positions holds the tags of its own positions,
/// and rises.
#[verifier::opaque]
pub closed spec fn tagged_state(
    s: Seq<(i64, u64)>,
    ts: Seq<int>,
    org: Seq<(i64, u64)>,
    step: int,
    upto: int,
) -> bool {
    &&& ts.len() == s.len()
    &&& org.len() == s.len()
    &&& 0 <= upto <= s.len()
    &&& step > 0
    &&& forall|i: int|
        0 <= i < upto ==> {
            &&& 0 <= #[trigger] ts[i] < s.len()
            &&& s[i] == org[ts[i]]
            &&& i - i % step <= ts[i] < i - i % step + step
        }
    &&& forall|i: int|
        0 <= i && i + 1 < upto && (i + 1) % step != 0 ==> tagged_before(
            s[i],
            #[trigger] ts[i],
            s[i + 1],
            ts[i + 1],
        )
}

/// A state holds a tag for every observation, and as many observations as
/// there were.
pub proof fn lemma_state_lengths(
    s: Seq<(i64, u64)>,
    ts: Seq<int>,
    org: Seq<(i64, u64)>,
    step: int,
)
    requires
        tagged_state(s, ts, org, step, s.len() as int),
    ensures
        ts.len() == s.len(),
        org.len() == s.len(),
{
    reveal(tagged_state);
}

/// The tags at the start: each observation at its own position.
pub open spec fn own_places(n: nat) -> Seq<int> {
    Seq::new(n, |i: int| i)
}

pub proof fn lemma_tagged_start(org: Seq<(i64, u64)>)
    ensures
        tagged_state(org, own_places(org.len()), org, 1, org.len() as int),
{
    reveal(tagged_state);
}

/// Nothing is claimed of a prefix of no length.
pub proof fn lemma_tagged_nothing(
    t: Seq<(i64, u64)>,
    tt: Seq<int>,
    org: Seq<(i64, u64)>,
    step: int,
)
    requires
        tt.len() == t.len(),
        org.len() == t.len(),
        step > 0,
    ensures
        tagged_state(t, tt, org, step, 0),
{
    reveal(tagged_state);
}

proof fn lemma_mod_offset(base: int, x: int, step: int)
    requires
        step > 0,
        base % step == 0,
        base <= x < base + step,
    ensures
        x % step == x - base,
{
    let q = base / step;
    vstd::arithmetic::div_mod::lemma_fundamental_div_mod(base, step);
    assert(x == q * step + (x - base)) by (nonlinear_arith)
        requires
            base == step * q,
    ;
    vstd::arithmetic::div_mod::lemma_fundamental_div_mod_converse(x, step, q, x - base);
}

/// Two adjacent runs of a state are ready to be merged.
pub proof fn lemma_runs_of_state(
    f: Seq<(i64, u64)>,
    tf: Seq<int>,
    org: Seq<(i64, u64)>,
    step: int,
    left: int,
    right: int,
    end: int,
)
    requires
        tagged_state(f, tf, org, step, f.len() as int),
        0 <= left,
        left % step == 0,
        right % step == 0,
        left <= right <= end <= f.len(),
        right == left || right == left + step || right == f.len(),
        right <= left + step,
        end == right || end == right + step || end == f.len(),
        end <= right + step,
    ensures
        tagged_runs(f, tf, org, left, right, end),
{
    reveal(tagged_state);
    reveal(tags_within);
    reveal(tags_rise);
    assert forall|i: int| left <= i < right implies left <= #[trigger] tf[i] < right && f[i]
        == org[tf[i]] by {
        lemma_mod_offset(left, i, step);
        // the tags of a run are those of its positions, and none is taken twice
        lemma_run_tags(f, tf, org, step, left, right, i);
    }
    assert forall|i: int| right <= i < end implies right <= #[trigger] tf[i] < end && f[i]
        == org[tf[i]] by {
        lemma_mod_offset(right, i, step);
        lemma_run_tags(f, tf, org, step, right, end, i);
    }
    assert forall|i: int| left <= i && i + 1 < right implies tagged_before(
        f[i],
        #[trigger] tf[i],
        f[i + 1],
        tf[i + 1],
    ) by {
        lemma_mod_offset(left, i + 1, step);
    }
    assert forall|i: int| right <= i && i + 1 < end implies tagged_before(
        f[i],
        #[trigger] tf[i],
        f[i + 1],
        tf[i + 1],
    ) by {
        lemma_mod_offset(right, i + 1, step);
    }
}

/// The tag of a position of a run lies within the run, also where the run is
/// cut short by the end of the sequence.
proof fn lemma_run_tags(
    f: Seq<(i64, u64)>,
    tf: Seq<int>,
    org: Seq<(i64, u64)>,
    step: int,
    base: int,
    hi: int,
    i: int,
)
    requires
        tagged_state(f, tf, org, step, f.len() as int),
        0 <= base <= i < hi <= f.len(),
        base % step == 0,
        hi <= base + step,
        hi == base + step || hi == f.len(),
    ensures
        base <= tf[i] < hi,
        f[i] == org[tf[i]],
{
    reveal(tagged_state);
    lemma_mod_offset(base, i, step);
}

/// One more finished block of length at most `run` extends the state of the
/// destination.
pub proof fn lemma_state_extend(
    tb: Seq<(i64, u64)>,
    ttb: Seq<int>,
    t: Seq<(i64, u64)>,
    tt: Seq<int>,
    org: Seq<(i64, u64)>,
    run: int,
    left: int,
    end: int,
)
    requires
        tagged_state(tb, ttb, org, run, left),
        tagged_block(t, tt, ttb, org, left, end),
        t.len() == tb.len(),
        t.subrange(0, left) == tb.subrange(0, left),
        left % run == 0,
        left <= end <= left + run,
        end == left + run || end == t.len(),
    ensures
        tagged_state(t, tt, org, run, end),
{
    reveal(tagged_state);
    reveal(tags_within);
    reveal(tags_rise);
    assert forall|i: int| 0 <= i < end implies {
        &&& 0 <= #[trigger] tt[i] < t.len()
        &&& t[i] == org[tt[i]]
        &&& i - i % run <= tt[i] < i - i % run + run
    } by {
        if i < left {
            assert(tt[i] == tt.subrange(0, left)[i]);
            assert(ttb[i] == ttb.subrange(0, left)[i]);
            assert(t[i] == t.subrange(0, left)[i]);
            assert(tb[i] == tb.subrange(0, left)[i]);
        } else {
            lemma_mod_offset(left, i, run);
        }
    }
    assert forall|i: int| 0 <= i && i + 1 < end && (i + 1) % run != 0 implies tagged_before(
        t[i],
        #[trigger] tt[i],
        t[i + 1],
        tt[i + 1],
    ) by {
        if i + 1 < left {
            assert(tt[i] == tt.subrange(0, left)[i]);
            assert(ttb[i] == ttb.subrange(0, left)[i]);
            assert(t[i] == t.subrange(0, left)[i]);
            assert(tb[i] == tb.subrange(0, left)[i]);
            assert(tt[i + 1] == tt.subrange(0, left)[i + 1]);
            assert(ttb[i + 1] == ttb.subrange(0, left)[i + 1]);
            assert(t[i + 1] == t.subrange(0, left)[i + 1]);
            assert(tb[i + 1] == tb.subrange(0, left)[i + 1]);
        } else if i + 1 == left {
        } else {
        }
    }
}

/// What is left over after the last pair of runs, copied as it is, is a
/// block of the destination.
pub proof fn lemma_tail_block(
    f: Seq<(i64, u64)>,
    tf: Seq<int>,
    t: Seq<(i64, u64)>,
    tt: Seq<int>,
    ttb: Seq<int>,
    org: Seq<(i64, u64)>,
    step: int,
    left: int,
)
    requires
        tagged_state(f, tf, org, step, f.len() as int),
        0 <= left <= f.len(),
        left % step == 0,
        f.len() - left < step,
        t.len() == f.len(),
        tt.len() == f.len(),
        ttb.len() == f.len(),
        tt.subrange(0, left) == ttb.subrange(0, left),
        t.subrange(left, f.len() as int) == f.subrange(left, f.len() as int),
        tt.subrange(left, f.len() as int) == tf.subrange(left, f.len() as int),
    ensures
        tagged_block(t, tt, ttb, org, left, f.len() as int),
{
    let n = f.len() as int;
    lemma_runs_of_state(f, tf, org, step, left, left, n);
    reveal(tags_within);
    reveal(tags_rise);
    assert forall|i: int| left <= i < n implies t[i] == f[i] && tt[i] == tf[i] by {
        assert(t[i] == t.subrange(left, n)[i - left]);
        assert(f[i] == f.subrange(left, n)[i - left]);
        assert(tt[i] == tt.subrange(left, n)[i - left]);
        assert(tf[i] == tf.subrange(left, n)[i - left]);
    }
    assert forall|i: int| left <= i && i + 1 < n implies tagged_before(
        t[i],
        #[trigger] tt[i],
        t[i + 1],
        tt[i + 1],
    ) by {
        assert(tagged_before(f[i], tf[i], f[i + 1], tf[i + 1]));
    }
}

/// A state whose runs cover the sequence is a state for every longer run.
pub proof fn lemma_state_covers(
    s: Seq<(i64, u64)>,
    ts: Seq<int>,
    org: Seq<(i64, u64)>,
    step: int,
    longer: int,
)
    requires
        tagged_state(s, ts, org, step, s.len() as int),
        step >= s.len(),
        longer >= s.len(),
        longer > 0,
    ensures
        tagged_state(s, ts, org, longer, s.len() as int),
{
    reveal(tagged_state);
    vstd::arithmetic::div_mod::lemma_fundamental_div_mod_converse(0, step, 0, 0);
    vstd::arithmetic::div_mod::lemma_fundamental_div_mod_converse(0, longer, 0, 0);
    assert forall|i: int| 0 <= i < s.len() implies {
        &&& 0 <= #[trigger] ts[i] < s.len()
        &&& s[i] == org[ts[i]]
        &&& i - i % longer <= ts[i] < i - i % longer + longer
    } by {
        lemma_mod_offset(0, i, longer);
    }
    assert forall|i: int|
        0 <= i && i + 1 < s.len() && (i + 1) % longer != 0 implies tagged_before(
        s[i],
        #[trigger] ts[i],
        s[i + 1],
        ts[i + 1],
    ) by {
        lemma_mod_offset(0, i + 1, step);
    }
}

/// Between two equal values of a sorted sequence the tags rise.
proof fn lemma_tags_rise_between(s: Seq<(i64, u64)>, ts: Seq<int>, k: int, l: int)
    requires
        ts.len() == s.len(),
        0 <= k < l < s.len(),
        forall|i: int|
            0 <= i && i + 1 < s.len() ==> tagged_before(s[i], #[trigger] ts[i], s[i + 1], ts[i + 1]),
    ensures
        tagged_before(s[k], ts[k], s[l], ts[l]),
    decreases l - k,
{
    if k + 1 < l {
        lemma_tags_rise_between(s, ts, k, l - 1);
        assert(tagged_before(s[l - 1], ts[l - 1], s[l], ts[l]));
    } else {
        assert(tagged_before(s[k], ts[k], s[k + 1], ts[k + 1]));
    }
}

/// At the end of the sort the tags show that equal values kept their order.
pub proof fn lemma_state_is_stable(
    s: Seq<(i64, u64)>,
    ts: Seq<int>,
    org: Seq<(i64, u64)>,
    step: int,
)
    requires
        tagged_state(s, ts, org, step, s.len() as int),
        step >= s.len(),
    ensures
        is_stable_rearrangement(org, s, ts),
{
    reveal(tagged_state);
    vstd::arithmetic::div_mod::lemma_fundamental_div_mod_converse(0, step, 0, 0);
    assert forall|i: int| 0 <= i && i + 1 < s.len() implies tagged_before(
        s[i],
        #[trigger] ts[i],
        s[i + 1],
        ts[i + 1],
    ) by {
        lemma_mod_offset(0, i + 1, step);
    }
    assert forall|k: int, l: int| 0 <= k < l < ts.len() implies #[trigger] ts[k]
        != #[trigger] ts[l] by {
        lemma_tags_rise_between(s, ts, k, l);
        if ts[k] == ts[l] {
            assert(s[k] == org[ts[k]]);
            assert(s[l] == org[ts[l]]);
        }
    }
    assert forall|k: int, l: int|
        0 <= k < l < ts.len() && s[k].0 == s[l].0 implies #[trigger] ts[k] < #[trigger] ts[l] by {
        lemma_tags_rise_between(s, ts, k, l);
    }
}

} // verus!
