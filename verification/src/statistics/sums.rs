//! Finite sums over sequences, and sums over the pairs of positions of a
//! sequence.
use vstd::prelude::*;
use vstd::seq_lib::*;

verus! {

/// The sum of `g` over the items of `s`.
pub open spec fn sum_by<T>(s: Seq<T>, g: spec_fn(T) -> int) -> int
    decreases s.len(),
{
    if s.len() == 0 {
        0
    } else {
        sum_by(s.drop_last(), g) + g(s.last())
    }
}

/// The step of a left fold that adds up `g`.
pub open spec fn adder<T>(g: spec_fn(T) -> int) -> spec_fn(int, T) -> int {
    |acc: int, e: T| acc + g(e)
}

pub proof fn lemma_sum_by_is_fold<T>(s: Seq<T>, g: spec_fn(T) -> int)
    ensures
        sum_by(s, g) == s.fold_left(0int, adder(g)),
    decreases s.len(),
{
    if s.len() > 0 {
        lemma_sum_by_is_fold(s.drop_last(), g);
    }
}

/// A sum does not depend on the order of the items.
pub proof fn lemma_sum_by_perm<T>(a: Seq<T>, b: Seq<T>, g: spec_fn(T) -> int)
    requires
        a.to_multiset() == b.to_multiset(),
    ensures
        sum_by(a, g) == sum_by(b, g),
{
    lemma_sum_by_is_fold(a, g);
    lemma_sum_by_is_fold(b, g);
    let f = adder(g);
    assert(commutative_foldl(f)) by {
        assert forall|x: T, y: T, v: int| #[trigger] f(f(v, x), y) == f(f(v, y), x) by {}
    }
    lemma_fold_left_permutation(a, b, f, 0int);
}

/// A sum over a concatenation is the sum of the two sums.
pub proof fn lemma_sum_by_concat<T>(a: Seq<T>, b: Seq<T>, g: spec_fn(T) -> int)
    ensures
        sum_by(a + b, g) == sum_by(a, g) + sum_by(b, g),
    decreases b.len(),
{
    if b.len() == 0 {
        assert(a + b =~= a);
    } else {
        lemma_sum_by_concat(a, b.drop_last(), g);
        assert((a + b).drop_last() =~= a + b.drop_last());
    }
}

/// Two functions that agree on every item of `s` have the same sum.
pub proof fn lemma_sum_by_pointwise<T>(s: Seq<T>, g: spec_fn(T) -> int, h: spec_fn(T) -> int)
    requires
        forall|i: int| 0 <= i < s.len() ==> g(#[trigger] s[i]) == h(s[i]),
    ensures
        sum_by(s, g) == sum_by(s, h),
    decreases s.len(),
{
    if s.len() > 0 {
        lemma_sum_by_pointwise(s.drop_last(), g, h);
    }
}

/// A sum of non-negative terms is non-negative.
pub proof fn lemma_sum_by_nonneg<T>(s: Seq<T>, g: spec_fn(T) -> int)
    requires
        forall|i: int| 0 <= i < s.len() ==> g(#[trigger] s[i]) >= 0,
    ensures
        sum_by(s, g) >= 0,
    decreases s.len(),
{
    if s.len() > 0 {
        lemma_sum_by_nonneg(s.drop_last(), g);
    }
}

/// A sum of zeros is zero.
pub proof fn lemma_sum_by_zero<T>(s: Seq<T>, g: spec_fn(T) -> int)
    requires
        forall|i: int| 0 <= i < s.len() ==> g(#[trigger] s[i]) == 0,
    ensures
        sum_by(s, g) == 0,
    decreases s.len(),
{
    if s.len() > 0 {
        lemma_sum_by_zero(s.drop_last(), g);
    }
}

/// A sum of equal terms is their number times the term.
pub proof fn lemma_sum_by_const<T>(s: Seq<T>, g: spec_fn(T) -> int, c: int)
    requires
        forall|i: int| 0 <= i < s.len() ==> g(#[trigger] s[i]) == c,
    ensures
        sum_by(s, g) == c * s.len(),
    decreases s.len(),
{
    if s.len() > 0 {
        lemma_sum_by_const(s.drop_last(), g, c);
        assert(c * (s.len() - 1) + c == c * s.len()) by (nonlinear_arith);
    } else {
        assert(c * 0 == 0) by (nonlinear_arith);
    }
}

/// A sum of sums is the sum of the sums.
pub proof fn lemma_sum_by_add<T>(
    s: Seq<T>,
    g: spec_fn(T) -> int,
    h1: spec_fn(T) -> int,
    h2: spec_fn(T) -> int,
)
    requires
        forall|i: int| 0 <= i < s.len() ==> g(#[trigger] s[i]) == h1(s[i]) + h2(s[i]),
    ensures
        sum_by(s, g) == sum_by(s, h1) + sum_by(s, h2),
    decreases s.len(),
{
    if s.len() > 0 {
        lemma_sum_by_add(s.drop_last(), g, h1, h2);
    }
}

/// A common factor can be taken out of a sum.
pub proof fn lemma_sum_by_scale<T>(s: Seq<T>, h: spec_fn(T) -> int, c: int, g: spec_fn(T) -> int)
    requires
        forall|i: int| 0 <= i < s.len() ==> h(#[trigger] s[i]) == c * g(s[i]),
    ensures
        sum_by(s, h) == c * sum_by(s, g),
    decreases s.len(),
{
    if s.len() > 0 {
        lemma_sum_by_scale(s.drop_last(), h, c, g);
        let x = sum_by(s.drop_last(), g);
        let y = g(s.last());
        assert(c * (x + y) == c * x + c * y) by (nonlinear_arith);
    } else {
        assert(c * 0 == 0);
    }
}

/// A sum over the images of the items is a sum over the items.
pub proof fn lemma_sum_by_map<T, U>(
    s: Seq<T>,
    h: spec_fn(T) -> U,
    g: spec_fn(U) -> int,
    gh: spec_fn(T) -> int,
)
    requires
        forall|i: int| 0 <= i < s.len() ==> gh(#[trigger] s[i]) == g(h(s[i])),
    ensures
        sum_by(s.map_values(h), g) == sum_by(s, gh),
    decreases s.len(),
{
    if s.len() > 0 {
        lemma_sum_by_map(s.drop_last(), h, g, gh);
        assert(s.map_values(h).drop_last() =~= s.drop_last().map_values(h));
    }
}

/// The kernel `k` with its first argument fixed.
pub open spec fn with_first<T>(k: spec_fn(T, T) -> int, e: T) -> spec_fn(T) -> int {
    |f: T| k(e, f)
}

/// The kernel `k` with its second argument fixed.
pub open spec fn with_second<T>(k: spec_fn(T, T) -> int, e: T) -> spec_fn(T) -> int {
    |f: T| k(f, e)
}

/// The sum of `k(s[j], s[i])` over all positions `i < j`.
pub open spec fn lower_sum<T>(s: Seq<T>, k: spec_fn(T, T) -> int) -> int
    decreases s.len(),
{
    if s.len() == 0 {
        0
    } else {
        lower_sum(s.drop_last(), k) + sum_by(s.drop_last(), with_first(k, s.last()))
    }
}

/// For each item, the sum of the kernel over all items of `s`.
pub open spec fn row_sums<T>(s: Seq<T>, k: spec_fn(T, T) -> int) -> spec_fn(T) -> int {
    |e: T| sum_by(s, with_first(k, e))
}

/// The sum of `k(s[i], s[j])` over all positions `i` and `j`.
pub open spec fn pair_sum<T>(s: Seq<T>, k: spec_fn(T, T) -> int) -> int {
    sum_by(s, row_sums(s, k))
}

/// The kernel on an item and itself.
pub open spec fn diagonal<T>(k: spec_fn(T, T) -> int) -> spec_fn(T) -> int {
    |e: T| k(e, e)
}

/// The kernel does not depend on the order of its arguments.
pub open spec fn symmetric<T>(k: spec_fn(T, T) -> int) -> bool {
    forall|e: T, f: T| #[trigger] k(e, f) == k(f, e)
}

/// For a symmetric kernel the sum over all pairs of positions is twice the
/// sum over the pairs `i < j`, and the diagonal.
pub proof fn lemma_pair_sum_split<T>(s: Seq<T>, k: spec_fn(T, T) -> int)
    requires
        symmetric(k),
    ensures
        pair_sum(s, k) == 2 * lower_sum(s, k) + sum_by(s, diagonal(k)),
    decreases s.len(),
{
    if s.len() > 0 {
        let s0 = s.drop_last();
        let e = s.last();
        lemma_pair_sum_split(s0, k);
        let rs = row_sums(s, k);
        let rs0 = row_sums(s0, k);
        let col = with_second(k, e);
        let row = with_first(k, e);
        assert forall|i: int| 0 <= i < s0.len() implies rs(#[trigger] s0[i]) == rs0(s0[i]) + col(
            s0[i],
        ) by {}
        lemma_sum_by_add(s0, rs, rs0, col);
        assert forall|i: int| 0 <= i < s0.len() implies col(#[trigger] s0[i]) == row(s0[i]) by {
            assert(k(s0[i], e) == k(e, s0[i]));
        }
        lemma_sum_by_pointwise(s0, col, row);
    }
}

/// The sum over all pairs of positions does not depend on the order of the
/// items.
pub proof fn lemma_pair_sum_perm<T>(s: Seq<T>, t: Seq<T>, k: spec_fn(T, T) -> int)
    requires
        s.to_multiset() == t.to_multiset(),
    ensures
        pair_sum(s, k) == pair_sum(t, k),
{
    let rs = row_sums(s, k);
    let rt = row_sums(t, k);
    lemma_sum_by_perm(s, t, rs);
    assert forall|i: int| 0 <= i < t.len() implies rs(#[trigger] t[i]) == rt(t[i]) by {
        lemma_sum_by_perm(s, t, with_first(k, t[i]));
    }
    lemma_sum_by_pointwise(t, rs, rt);
}

/// For a symmetric kernel the sum over the pairs `i < j` does not depend on
/// the order of the items.
pub proof fn lemma_lower_sum_perm<T>(s: Seq<T>, t: Seq<T>, k: spec_fn(T, T) -> int)
    requires
        symmetric(k),
        s.to_multiset() == t.to_multiset(),
    ensures
        lower_sum(s, k) == lower_sum(t, k),
{
    lemma_pair_sum_split(s, k);
    lemma_pair_sum_split(t, k);
    lemma_pair_sum_perm(s, t, k);
    lemma_sum_by_perm(s, t, diagonal(k));
}

/// Two kernels that agree on each later item against each earlier one have
/// the same sum over the pairs `i < j`.
pub proof fn lemma_lower_sum_pointwise<T>(
    s: Seq<T>,
    k1: spec_fn(T, T) -> int,
    k2: spec_fn(T, T) -> int,
)
    requires
        forall|i: int, j: int| 0 <= i < j < s.len() ==> #[trigger] k1(s[j], s[i]) == k2(s[j], s[i]),
    ensures
        lower_sum(s, k1) == lower_sum(s, k2),
    decreases s.len(),
{
    if s.len() > 0 {
        let s0 = s.drop_last();
        let e = s.last();
        assert forall|i: int, j: int| 0 <= i < j < s0.len() implies #[trigger] k1(s0[j], s0[i])
            == k2(s0[j], s0[i]) by {
            assert(k1(s[j], s[i]) == k2(s[j], s[i]));
        }
        lemma_lower_sum_pointwise(s0, k1, k2);
        assert forall|i: int| 0 <= i < s0.len() implies with_first(k1, e)(#[trigger] s0[i])
            == with_first(k2, e)(s0[i]) by {
            assert(k1(s[s.len() - 1], s[i]) == k2(s[s.len() - 1], s[i]));
        }
        lemma_sum_by_pointwise(s0, with_first(k1, e), with_first(k2, e));
    }
}

/// A sum over the pairs of images is a sum over the pairs of items.
pub proof fn lemma_lower_sum_map<T, U>(
    s: Seq<T>,
    h: spec_fn(T) -> U,
    k: spec_fn(U, U) -> int,
    kh: spec_fn(T, T) -> int,
)
    requires
        forall|e: T, f: T| #[trigger] kh(e, f) == k(h(e), h(f)),
    ensures
        lower_sum(s.map_values(h), k) == lower_sum(s, kh),
    decreases s.len(),
{
    if s.len() > 0 {
        let s0 = s.drop_last();
        let e = s.last();
        lemma_lower_sum_map(s0, h, k, kh);
        assert(s.map_values(h).drop_last() =~= s0.map_values(h));
        assert(s.map_values(h).last() == h(e));
        lemma_sum_by_map(s0, h, with_first(k, h(e)), with_first(kh, e));
    }
}

/// A kernel without negative values has no negative sum.
pub proof fn lemma_lower_sum_nonneg<T>(s: Seq<T>, k: spec_fn(T, T) -> int)
    requires
        forall|e: T, f: T| #[trigger] k(e, f) >= 0,
    ensures
        lower_sum(s, k) >= 0,
    decreases s.len(),
{
    if s.len() > 0 {
        lemma_lower_sum_nonneg(s.drop_last(), k);
        lemma_sum_by_nonneg(s.drop_last(), with_first(k, s.last()));
    }
}

/// A sum of smaller terms is smaller.
pub proof fn lemma_sum_by_le<T>(s: Seq<T>, g: spec_fn(T) -> int, h: spec_fn(T) -> int)
    requires
        forall|i: int| 0 <= i < s.len() ==> g(#[trigger] s[i]) <= h(s[i]),
    ensures
        sum_by(s, g) <= sum_by(s, h),
    decreases s.len(),
{
    if s.len() > 0 {
        lemma_sum_by_le(s.drop_last(), g, h);
    }
}

/// A smaller kernel has a smaller sum over the pairs `i < j`.
pub proof fn lemma_lower_sum_le<T>(s: Seq<T>, k1: spec_fn(T, T) -> int, k2: spec_fn(T, T) -> int)
    requires
        forall|e: T, f: T| #[trigger] k1(e, f) <= k2(e, f),
    ensures
        lower_sum(s, k1) <= lower_sum(s, k2),
    decreases s.len(),
{
    if s.len() > 0 {
        lemma_lower_sum_le(s.drop_last(), k1, k2);
        lemma_sum_by_le(s.drop_last(), with_first(k1, s.last()), with_first(k2, s.last()));
    }
}

} // verus!
