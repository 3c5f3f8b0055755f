//! Masks from thresholds.
use vstd::prelude::*;

verus! {

/// The mask of the samples above the threshold: `true` where a sample is
/// greater than `threshold`, `false` elsewhere.
pub fn manual_mask(data: &Vec<i64>, threshold: i64) -> (mask: Vec<bool>)
    ensures
        mask@.len() == data@.len(),
        forall|i: int| 0 <= i < data@.len() ==> #[trigger] mask@[i] == (data@[i] > threshold),
{
    let mut mask: Vec<bool> = Vec::with_capacity(data.len());
    let mut i: usize = 0;
    while i < data.len()
        invariant
            i <= data@.len(),
            mask@.len() == i,
            forall|k: int| 0 <= k < i ==> #[trigger] mask@[k] == (data@[k] > threshold),
        decreases data@.len() - i,
    {
        mask.push(data[i] > threshold);
        i += 1;
    }
    mask
}

} // verus!
