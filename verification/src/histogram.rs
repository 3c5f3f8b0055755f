//! Histograms of integer samples.
use crate::statistics::min_max::{is_max_of, is_min_of, min_max};
use vstd::prelude::*;

verus! {

/// The number of bins of a histogram where none is given.
pub const DEFAULT_BINS: usize = 256;

/// The bin of the sample `v` in a histogram of `bins` bins of equal width
/// over the samples from `lo` to `hi`: the part of the range below `v`, in
/// bins, rounded down, with `hi` itself in the last bin. Where all samples
/// are equal they share the first bin.
pub open spec fn bin_of(v: int, lo: int, hi: int, bins: int) -> int {
    if hi <= lo {
        0
    } else {
        let b = ((v - lo) * bins) / (hi - lo);
        if b >= bins {
            bins - 1
        } else {
            b
        }
    }
}

/// The number of the samples of `d` that fall into bin `b`.
pub open spec fn count_in_bin(d: Seq<i64>, lo: int, hi: int, bins: int, b: int) -> int
    decreases d.len(),
{
    if d.len() == 0 {
        0
    } else {
        count_in_bin(d.drop_last(), lo, hi, bins, b) + if bin_of(d.last() as int, lo, hi, bins)
            == b {
            1int
        } else {
            0int
        }
    }
}

/// No bin holds more samples than there are.
pub proof fn lemma_count_in_bin_bounds(d: Seq<i64>, lo: int, hi: int, bins: int, b: int)
    ensures
        0 <= count_in_bin(d, lo, hi, bins, b) <= d.len(),
    decreases d.len(),
{
    if d.len() > 0 {
        lemma_count_in_bin_bounds(d.drop_last(), lo, hi, bins, b);
    }
}

/// The bins of the samples lie within the histogram.
pub proof fn lemma_bin_in_range(v: int, lo: int, hi: int, bins: int)
    requires
        lo <= v <= hi,
        bins > 0,
    ensures
        0 <= bin_of(v, lo, hi, bins) < bins,
{
    if hi > lo {
        assert(0 <= (v - lo) * bins) by (nonlinear_arith)
            requires
                0 <= v - lo,
                0 < bins,
        ;
        vstd::arithmetic::div_mod::lemma_div_pos_is_pos((v - lo) * bins, hi - lo);
    }
}

/// The bin of a sample.
fn bin_index(v: i64, lo: i64, hi: i64, bins: usize) -> (b: usize)
    requires
        lo <= v <= hi,
        bins > 0,
    ensures
        b == bin_of(v as int, lo as int, hi as int, bins as int),
        b < bins,
{
    proof {
        lemma_bin_in_range(v as int, lo as int, hi as int, bins as int);
    }
    if hi <= lo {
        return 0;
    }
    let above: u128 = (v as i128 - lo as i128) as u128;
    let width: u128 = (hi as i128 - lo as i128) as u128;
    proof {
        assert(above * bins <= 0xFFFF_FFFF_FFFF_FFFF * 0xFFFF_FFFF_FFFF_FFFF) by (nonlinear_arith)
            requires
                0 <= above <= 0xFFFF_FFFF_FFFF_FFFF,
                0 <= bins <= 0xFFFF_FFFF_FFFF_FFFF,
        ;
    }
    let b: u128 = (above * (bins as u128)) / width;
    if b >= bins as u128 {
        bins - 1
    } else {
        b as usize
    }
}

/// The histogram of the samples: `bins` bins of equal width over the range of
/// the samples, 256 where no number is given, each with the number of
/// samples that fall into it. Without samples or without bins the histogram
/// is a single empty bin.
pub fn histogram(data: &Vec<i64>, bins: Option<usize>) -> (hist: Vec<i64>)
    requires
        data.len() <= i64::MAX,
    ensures
        ({
            let n = match bins {
                Some(n) => n,
                None => DEFAULT_BINS,
            };
            if data@.len() == 0 || n == 0 {
                hist@ == seq![0i64]
            } else {
                &&& hist@.len() == n
                &&& exists|lo: i64, hi: i64|
                    is_min_of(data@, lo) && is_max_of(data@, hi) && forall|b: int|
                        0 <= b < n ==> #[trigger] hist@[b] == count_in_bin(
                            data@,
                            lo as int,
                            hi as int,
                            n as int,
                            b,
                        )
            }
        }),
{
    let bins: usize = match bins {
        Some(n) => n,
        None => DEFAULT_BINS,
    };
    if data.len() == 0 || bins == 0 {
        let mut hist: Vec<i64> = Vec::new();
        hist.push(0);
        proof {
            assert(hist@ =~= seq![0i64]);
        }
        return hist;
    }
    let (lo, hi) = min_max(data);
    let mut hist: Vec<i64> = vec![0i64; bins];
    let mut i: usize = 0;
    while i < data.len()
        invariant
            bins > 0,
            data.len() <= i64::MAX,
            is_min_of(data@, lo),
            is_max_of(data@, hi),
            i <= data@.len(),
            hist@.len() == bins,
            forall|b: int|
                0 <= b < bins ==> #[trigger] hist@[b] == count_in_bin(
                    data@.subrange(0, i as int),
                    lo as int,
                    hi as int,
                    bins as int,
                    b,
                ),
        decreases data@.len() - i,
    {
        let v: i64 = data[i];
        let b: usize = bin_index(v, lo, hi, bins);
        proof {
            lemma_count_in_bin_bounds(
                data@.subrange(0, i as int),
                lo as int,
                hi as int,
                bins as int,
                b as int,
            );
            assert(data@.subrange(0, i + 1).drop_last() =~= data@.subrange(0, i as int));
        }
        let count: i64 = hist[b];
        hist.set(b, count + 1);
        i += 1;
    }
    proof {
        assert(data@.subrange(0, i as int) =~= data@);
    }
    hist
}

/// The quotient of `n` by `d`, rounded towards zero.
pub open spec fn quotient_towards_zero(n: int, d: int) -> int {
    if n >= 0 {
        n / d
    } else {
        -((-n) / d)
    }
}

/// The value at which bin `index` starts, in a histogram of `bins` bins of
/// equal width over the range from `lo` to `hi`: `lo` and `index` widths,
/// rounded towards zero.
pub open spec fn bin_start_of(index: int, lo: int, hi: int, bins: int) -> int {
    quotient_towards_zero(lo * bins + index * (hi - lo), bins)
}

/// The value in the middle of bin `index`: `lo` and `index` widths and half
/// a width, rounded towards zero.
pub open spec fn bin_midpoint_of(index: int, lo: int, hi: int, bins: int) -> int {
    quotient_towards_zero(2 * lo * bins + (2 * index + 1) * (hi - lo), 2 * bins)
}

/// The quotient of `n` by `d`, rounded towards zero, where it lies between
/// two bounds that fit the result.
fn divide_towards_zero(n: i128, d: i128) -> (q: i64)
    requires
        0 < d <= 0xFFFF_FFFF_FFFF_FFFF,
        i64::MIN * d <= n <= i64::MAX * d,
    ensures
        q == quotient_towards_zero(n as int, d as int),
{
    proof {
        assert(i64::MIN * d >= -0x8000_0000_0000_0000 * 0xFFFF_FFFF_FFFF_FFFF) by (nonlinear_arith)
            requires
                0 < d <= 0xFFFF_FFFF_FFFF_FFFF,
        ;
        if n >= 0 {
            vstd::arithmetic::div_mod::lemma_div_pos_is_pos(n as int, d as int);
            vstd::arithmetic::div_mod::lemma_fundamental_div_mod(n as int, d as int);
            let q = n as int / d as int;
            assert(q <= i64::MAX) by (nonlinear_arith)
                requires
                    n == d * q + (n as int % d as int),
                    0 <= (n as int % d as int),
                    n <= i64::MAX * d,
                    d > 0,
            ;
        } else {
            vstd::arithmetic::div_mod::lemma_div_pos_is_pos(-n as int, d as int);
            vstd::arithmetic::div_mod::lemma_fundamental_div_mod(-n as int, d as int);
            let q = (-n as int) / d as int;
            assert(q <= -(i64::MIN as int)) by (nonlinear_arith)
                requires
                    -n == d * q + ((-n as int) % d as int),
                    0 <= ((-n as int) % d as int),
                    i64::MIN * d <= n,
                    d > 0,
            ;
        }
    }
    if n >= 0 {
        (n / d) as i64
    } else {
        (-((-n) / d)) as i64
    }
}

/// The values at which bin `index` starts and ends, in a histogram of `bins`
/// bins of equal width over the range from `min` to `max`.
pub fn histogram_bin_range(index: usize, min: i64, max: i64, bins: usize) -> (range: (i64, i64))
    requires
        min <= max,
        index < bins,
        bins <= u32::MAX,
    ensures
        range.0 == bin_start_of(index as int, min as int, max as int, bins as int),
        range.1 == bin_start_of(index + 1, min as int, max as int, bins as int),
{
    let width: i128 = max as i128 - min as i128;
    let b: i128 = bins as i128;
    let i: i128 = index as i128;
    proof {
        assert(i64::MIN * b <= min * b <= min * b + i * width <= min * b + (i + 1) * width <= max
            * b <= i64::MAX * b) by (nonlinear_arith)
            requires
                width == max - min,
                0 <= width,
                0 <= i < b,
                i64::MIN <= min,
                max <= i64::MAX,
        ;
        assert(-0x1_0000_0000_0000_0000_0000_0000 <= min * b <= 0x1_0000_0000_0000_0000_0000_0000
            && 0 <= (i + 1) * width <= 0x1_0000_0000_0000_0000_0000_0000) by (nonlinear_arith)
            requires
                -0x8000_0000_0000_0000 <= min <= 0x7FFF_FFFF_FFFF_FFFF,
                0 <= b <= 0xFFFF_FFFF,
                0 <= i < b,
                0 <= width <= 0xFFFF_FFFF_FFFF_FFFF,
        ;
        assert(0 <= i * width <= (i + 1) * width) by (nonlinear_arith)
            requires
                0 <= i,
                0 <= width,
        ;
    }
    let start: i64 = divide_towards_zero(min as i128 * b + i * width, b);
    let end: i64 = divide_towards_zero(min as i128 * b + (i + 1) * width, b);
    (start, end)
}

/// The value in the middle of bin `index`, in a histogram of `bins` bins of
/// equal width over the range from `min` to `max`.
pub fn histogram_bin_midpoint(index: usize, min: i64, max: i64, bins: usize) -> (mid: i64)
    requires
        min <= max,
        index < bins,
        bins <= u32::MAX,
    ensures
        mid == bin_midpoint_of(index as int, min as int, max as int, bins as int),
{
    let width: i128 = max as i128 - min as i128;
    let b: i128 = bins as i128;
    let i: i128 = index as i128;
    proof {
        assert(i64::MIN * (2 * b) <= 2 * min * b <= 2 * min * b + (2 * i + 1) * width <= 2 * max
            * b <= i64::MAX * (2 * b)) by (nonlinear_arith)
            requires
                width == max - min,
                0 <= width,
                0 <= i < b,
                i64::MIN <= min,
                max <= i64::MAX,
        ;
        assert(-0x1_0000_0000_0000_0000_0000_0000 <= min * b <= 0x1_0000_0000_0000_0000_0000_0000
            && 0 <= (2 * i + 1) * width <= 0x2_0000_0000_0000_0000_0000_0000) by (nonlinear_arith)
            requires
                -0x8000_0000_0000_0000 <= min <= 0x7FFF_FFFF_FFFF_FFFF,
                0 <= b <= 0xFFFF_FFFF,
                0 <= i < b,
                0 <= width <= 0xFFFF_FFFF_FFFF_FFFF,
        ;
        assert(2 * (min * b) == 2 * min * b) by (nonlinear_arith);
    }
    divide_towards_zero(2 * (min as i128 * b) + (2 * i + 1) * width, 2 * b)
}

} // verus!
