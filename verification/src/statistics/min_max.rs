//! The least and the greatest of a sequence of samples.
use vstd::prelude::*;

verus! {

/// `m` is an item of `d` and no item of `d` is below it.
pub open spec fn is_min_of(d: Seq<i64>, m: i64) -> bool {
    d.contains(m) && forall|i: int| 0 <= i < d.len() ==> m <= #[trigger] d[i]
}

/// `m` is an item of `d` and no item of `d` is above it.
pub open spec fn is_max_of(d: Seq<i64>, m: i64) -> bool {
    d.contains(m) && forall|i: int| 0 <= i < d.len() ==> #[trigger] d[i] <= m
}

/// The least and the greatest sample, or two zeros where there is none.
pub fn min_max(data: &Vec<i64>) -> (mm: (i64, i64))
    ensures
        data@.len() == 0 ==> mm == (0i64, 0i64),
        data@.len() > 0 ==> is_min_of(data@, mm.0) && is_max_of(data@, mm.1),
{
    if data.len() == 0 {
        return (0, 0);
    }
    let mut lo: i64 = data[0];
    let mut hi: i64 = data[0];
    let mut i: usize = 1;
    while i < data.len()
        invariant
            1 <= i <= data@.len(),
            exists|k: int| 0 <= k < i && data@[k] == lo,
            exists|k: int| 0 <= k < i && data@[k] == hi,
            forall|k: int| 0 <= k < i ==> lo <= #[trigger] data@[k] && data@[k] <= hi,
        decreases data@.len() - i,
    {
        let v: i64 = data[i];
        if v < lo {
            lo = v;
        }
        if v > hi {
            hi = v;
        }
        proof {
            if v != lo {
                let k = choose|k: int| 0 <= k < i && data@[k] == lo;
                assert(0 <= k < i + 1 && data@[k] == lo);
            } else {
                assert(data@[i as int] == lo);
            }
            if v != hi {
                let k = choose|k: int| 0 <= k < i && data@[k] == hi;
                assert(0 <= k < i + 1 && data@[k] == hi);
            } else {
                assert(data@[i as int] == hi);
            }
        }
        i += 1;
    }
    (lo, hi)
}

/// The greatest sample, or zero where there is none.
pub fn max(data: &Vec<i64>) -> (m: i64)
    ensures
        data@.len() == 0 ==> m == 0,
        data@.len() > 0 ==> is_max_of(data@, m),
{
    min_max(data).1
}

/// The least sample, or zero where there is none.
pub fn min(data: &Vec<i64>) -> (m: i64)
    ensures
        data@.len() == 0 ==> m == 0,
        data@.len() > 0 ==> is_min_of(data@, m),
{
    min_max(data).0
}

} // verus!
