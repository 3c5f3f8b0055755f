//! From scores to z-scores in fixed point, and from z-scores to the mask of
//! the samples that are significant.
use crate::colocalization::saca::{well_scored, PixelScore};
use crate::statistics::root::{integer_sqrt, is_sqrt_floor, scaled, sqrt_floor, tau_scaled};
use rayon::iter::{IndexedParallelIterator, IntoParallelRefIterator, ParallelIterator};
use vstd::prelude::*;

verus! {

/// The z-score of a score, in millionths: three halves of the coefficient
/// times the root of the effective sample size, which is the square of the
/// sum of the weights divided by the sum of their squares. The coefficient
/// and the root are both taken in millionths, rounded down in size, and so
/// is the result. There is none where the coefficient is undefined or no
/// sample has weight.
pub open spec fn z_micro_of(s: PixelScore) -> Option<int> {
    match tau_scaled(s.tau) {
        None => None,
        Some(t) => if s.weight_square_sum == 0 {
            None
        } else {
            let spread = sqrt_floor(
                (s.weight_sum * s.weight_sum * 1_000_000_000_000) / (s.weight_square_sum as int),
            );
            if t < 0 {
                Some(-((3 * (-t) * spread) / 2_000_000))
            } else {
                Some((3 * t * spread) / 2_000_000)
            }
        },
    }
}

/// The machine value `x` is the number `y`, or both are missing.
pub open spec fn same_value(x: Option<i128>, y: Option<int>) -> bool {
    match (x, y) {
        (Some(v), Some(u)) => v == u,
        (None, None) => true,
        _ => false,
    }
}

/// The z-score of a score, in millionths.
pub fn z_score(score: &PixelScore) -> (z: Option<i128>)
    requires
        well_scored(*score),
    ensures
        same_value(z, z_micro_of(*score)),
{
    match scaled(score.tau) {
        None => None,
        Some(t) => {
            if score.weight_square_sum == 0 {
                None
            } else {
                let total: u128 = score.weight_sum as u128;
                assert(total * total * 1_000_000_000_000 <= 2_103_711_265 * 2_103_711_265
                    * 1_000_000_000_000) by (nonlinear_arith)
                    requires
                        0 <= total <= 2_103_711_265,
                ;
                let ratio: u128 = (total * total * 1_000_000_000_000) / (
                score.weight_square_sum as u128);
                assert(ratio <= total * total * 1_000_000_000_000) by {
                    vstd::arithmetic::div_mod::lemma_div_is_ordered_by_denominator(
                        total * total * 1_000_000_000_000,
                        1,
                        score.weight_square_sum as int,
                    );
                    vstd::arithmetic::div_mod::lemma_div_basics(
                        total * total * 1_000_000_000_000,
                    );
                }
                let spread: u64 = integer_sqrt(ratio);
                assert(spread <= 3_000_000_000_000_000) by (nonlinear_arith)
                    requires
                        is_sqrt_floor(ratio as int, spread as int),
                        ratio <= 2_103_711_265 * 2_103_711_265 * 1_000_000_000_000,
                ;
                let size: u128 = if t < 0 {
                    (-t) as u128
                } else {
                    t as u128
                };
                assert(3 * size * spread <= 3 * 1_000_000 * 3_000_000_000_000_000)
                    by (nonlinear_arith)
                    requires
                        0 <= size <= 1_000_000,
                        0 <= spread <= 3_000_000_000_000_000,
                ;
                let parts: u128 = (3 * size * (spread as u128)) / 2_000_000;
                if t < 0 {
                    Some(-(parts as i128))
                } else {
                    Some(parts as i128)
                }
            }
        },
    }
}

/// The z-scores of a field of scores, in millionths.
pub fn z_scores(field: &Vec<PixelScore>) -> (z: Vec<Option<i128>>)
    requires
        forall|j: int| 0 <= j < field@.len() ==> well_scored(#[trigger] field@[j]),
    ensures
        z@.len() == field@.len(),
        forall|j: int| 0 <= j < z@.len() ==> same_value(#[trigger] z@[j], z_micro_of(field@[j])),
{
    let mut z: Vec<Option<i128>> = Vec::with_capacity(field.len());
    let mut j: usize = 0;
    while j < field.len()
        invariant
            j <= field@.len(),
            z@.len() == j,
            forall|i: int| 0 <= i < field@.len() ==> well_scored(#[trigger] field@[i]),
            forall|i: int| 0 <= i < j ==> same_value(#[trigger] z@[i], z_micro_of(field@[i])),
        decreases field@.len() - j,
    {
        let v: Option<i128> = z_score(&field[j]);
        z.push(v);
        j += 1;
    }
    z
}

/// A z-score is significant where it is there and greater in size than the
/// critical value.
pub open spec fn significant(z: Option<i128>, critical: u64) -> bool {
    z matches Some(v) && (v > critical || v < -(critical as int))
}

/// Whether a z-score is there and greater in size than the critical value.
pub fn is_significant(z: Option<i128>, critical: u64) -> (yes: bool)
    ensures
        yes == significant(z, critical),
{
    match z {
        Some(v) => v > critical as i128 || v < -(critical as i128),
        None => false,
    }
}

/// `collect_into_vec` of rayon's indexed parallel iterators, on the z-scores
/// in order, each mapped by [`is_significant`]. The contract says what rayon
/// documents of it: the vector holds, for each position in order, what the
/// mapping gives for the z-score there; and of the mapping, what the
/// contract of `is_significant` says.
#[verifier::external_body]
fn mask_in_parallel(z: &Vec<Option<i128>>, critical: u64) -> (mask: Vec<bool>)
    ensures
        mask@.len() == z@.len(),
        forall|j: int| 0 <= j < mask@.len() ==> #[trigger] mask@[j] == significant(z@[j], critical),
{
    let mut mask: Vec<bool> = Vec::new();
    z.par_iter().map(|v| is_significant(*v, critical)).collect_into_vec(&mut mask);
    mask
}

/// The mask of the significant samples of a field of z-scores: `true` where
/// the z-score is greater in size than the critical value, `false` elsewhere
/// and wherever there is no z-score. The critical value is in the unit of the
/// z-scores; for `n` samples tested at once at level `alpha` it is the
/// quantile of the standard normal distribution at `1 - alpha / (2 n)`.
pub fn saca_significance_mask(z: &Vec<Option<i128>>, critical: u64, parallel: bool) -> (mask: Vec<
    bool,
>)
    ensures
        mask@.len() == z@.len(),
        forall|j: int| 0 <= j < mask@.len() ==> #[trigger] mask@[j] == significant(z@[j], critical),
        forall|j: int| 0 <= j < mask@.len() && z@[j].is_none() ==> !(#[trigger] mask@[j]),
{
    if parallel {
        mask_in_parallel(z, critical)
    } else {
        let mut mask: Vec<bool> = Vec::with_capacity(z.len());
        let mut j: usize = 0;
        while j < z.len()
            invariant
                j <= z@.len(),
                mask@.len() == j,
                forall|i: int|
                    0 <= i < j ==> #[trigger] mask@[i] == significant(z@[i], critical),
            decreases z@.len() - j,
        {
            mask.push(is_significant(z[j], critical));
            j += 1;
        }
        mask
    }
}

} // verus!
