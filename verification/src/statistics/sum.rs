//! The sum of a sequence of samples.
use vstd::prelude::*;

verus! {

/// The sum of the items of `d`.
pub open spec fn sample_sum(d: Seq<i64>) -> int
    decreases d.len(),
{
    if d.len() == 0 {
        0
    } else {
        sample_sum(d.drop_last()) + d.last()
    }
}

/// A sum of `n` samples is within `n` times the range of a sample.
pub proof fn lemma_sample_sum_bounds(d: Seq<i64>)
    ensures
        d.len() * i64::MIN <= sample_sum(d) <= d.len() * i64::MAX,
    decreases d.len(),
{
    if d.len() > 0 {
        lemma_sample_sum_bounds(d.drop_last());
        let n = d.len() as int;
        assert((n - 1) * i64::MIN + i64::MIN == n * i64::MIN) by (nonlinear_arith);
        assert((n - 1) * i64::MAX + i64::MAX == n * i64::MAX) by (nonlinear_arith);
    } else {
        assert(0 * i64::MIN == 0 && 0 * i64::MAX == 0) by (nonlinear_arith);
    }
}

/// The sum of the samples, which always fits the result.
pub fn sum(data: &Vec<i64>) -> (s: i128)
    ensures
        s == sample_sum(data@),
{
    let mut s: i128 = 0;
    let mut i: usize = 0;
    while i < data.len()
        invariant
            i <= data@.len(),
            s == sample_sum(data@.subrange(0, i as int)),
        decreases data@.len() - i,
    {
        proof {
            let next = data@.subrange(0, i + 1);
            assert(next.drop_last() =~= data@.subrange(0, i as int));
            lemma_sample_sum_bounds(next);
            lemma_sample_sum_bounds(data@.subrange(0, i as int));
            let n = (i + 1) as int;
            assert(n * i64::MIN >= 0x1_0000_0000_0000_0000 * i64::MIN && n * i64::MAX
                <= 0x1_0000_0000_0000_0000 * i64::MAX) by (nonlinear_arith)
                requires
                    0 <= n <= 0x1_0000_0000_0000_0000,
            ;
        }
        s = s + data[i] as i128;
        i += 1;
    }
    proof {
        assert(data@.subrange(0, i as int) =~= data@);
    }
    s
}

} // verus!
