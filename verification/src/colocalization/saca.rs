//! Spatially adaptive colocalization analysis: for every sample of two images
//! of the same shape, the rank correlation of the two images over a
//! neighbourhood that grows until the correlation settles.
use crate::colocalization::neighborhood::{
    gather, neighborhood, Kernel, MAX_NEIGHBORHOOD_WEIGHT, MAX_RADIUS,
};
use crate::error::ImgalError;
use crate::image::{lemma_coordinates, Image};
use crate::statistics::kendall_tau::{
    lemma_obs_weight_sum, lemma_tau_b_bounds, observations, tau_b_of, weighted_kendall_tau_b,
    TauB,
};
use crate::statistics::root::{scalable, scaled, tau_scaled};
use crate::statistics::sort::{lemma_weight_sum_prefix, weight_sum};
use rayon::iter::{IndexedParallelIterator, IntoParallelIterator, ParallelIterator};
use vstd::prelude::*;

verus! {

/// How far a neighbourhood may grow, and by how much the coefficient must
/// change from one radius to the next for the growth to go on, in parts per
/// million.
#[derive(Debug, Clone, Copy, PartialEq, Eq, Structural)]
pub struct SacaConfig {
    pub max_radius: usize,
    pub tolerance: u32,
}

/// What the analysis finds at one sample: the coefficient over the
/// neighbourhood at which the growth ended, the radius of that
/// neighbourhood, the sum of its weights and the sum of their squares.
#[derive(Debug, Clone, Copy, PartialEq, Eq, Structural)]
pub struct PixelScore {
    pub tau: TauB,
    pub radius: usize,
    pub weight_sum: u64,
    pub weight_square_sum: u64,
}

/// The parts of a score are within the bounds that a neighbourhood of at most
/// `MAX_RADIUS` keeps.
pub open spec fn well_scored(s: PixelScore) -> bool {
    scalable(s.tau) && s.weight_sum <= MAX_NEIGHBORHOOD_WEIGHT
}

/// The sum of the squares of a sequence of weights.
pub open spec fn square_sum(w: Seq<u64>) -> int
    decreases w.len(),
{
    if w.len() == 0 {
        0
    } else {
        square_sum(w.drop_last()) + w.last() * w.last()
    }
}

/// The weights of a sequence of observations.
pub open spec fn weights_of(s: Seq<(i64, i64, u64)>) -> Seq<u64> {
    s.map_values(|e: (i64, i64, u64)| e.2)
}

/// The configuration is one that the analysis accepts.
pub open spec fn valid_config(cfg: SacaConfig) -> bool {
    1 <= cfg.max_radius <= MAX_RADIUS
}

/// The configuration that the analysis uses where none is given: a greatest
/// radius of eight, and a tolerance of a fiftieth.
pub fn default_config() -> (cfg: SacaConfig)
    ensures
        cfg == (SacaConfig { max_radius: 8, tolerance: 20_000 }),
        valid_config(cfg),
{
    SacaConfig { max_radius: 8, tolerance: 20_000 }
}

/// The kernel `k` with another radius.
pub open spec fn with_radius(k: Kernel, radius: int) -> Kernel {
    Kernel {
        plane: k.plane,
        row: k.row,
        col: k.col,
        radius: radius as usize,
        threshold_a: k.threshold_a,
        threshold_b: k.threshold_b,
    }
}

/// The score of the neighbourhood of the kernel's centre.
pub open spec fn score_of(a: Image, b: Image, k: Kernel) -> PixelScore {
    let nb = neighborhood(a, b, k);
    PixelScore {
        tau: tau_b_of(nb),
        radius: k.radius,
        weight_sum: weight_sum(weights_of(nb)) as u64,
        weight_square_sum: square_sum(weights_of(nb)) as u64,
    }
}

/// Whether the coefficient changed enough from one radius to the next for
/// the neighbourhood to go on growing: by more than the tolerance, or one of
/// the two is undefined.
pub open spec fn keeps_growing(prev: TauB, next: TauB, tolerance: int) -> bool {
    match (tau_scaled(prev), tau_scaled(next)) {
        (Some(x), Some(y)) => (if y >= x {
            y - x
        } else {
            x - y
        }) > tolerance,
        _ => true,
    }
}

/// The radius at which the growth that has reached the kernel `k` ends: the
/// first radius from that of `k` on whose coefficient is within the tolerance
/// of the one before it, or the greatest radius.
pub open spec fn grown_radius(a: Image, b: Image, k: Kernel, cfg: SacaConfig) -> int
    decreases cfg.max_radius - k.radius,
{
    if k.radius >= cfg.max_radius {
        k.radius as int
    } else {
        let next = with_radius(k, k.radius + 1);
        if keeps_growing(
            tau_b_of(neighborhood(a, b, k)),
            tau_b_of(neighborhood(a, b, next)),
            cfg.tolerance as int,
        ) {
            grown_radius(a, b, next, cfg)
        } else {
            k.radius + 1
        }
    }
}

/// The kernel of radius one at a sample.
pub open spec fn first_kernel(
    plane: usize,
    row: usize,
    col: usize,
    threshold_a: i64,
    threshold_b: i64,
) -> Kernel {
    Kernel { plane, row, col, radius: 1, threshold_a, threshold_b }
}

/// The score at a sample: that of the neighbourhood at which the growth from
/// radius one ends.
pub open spec fn pixel_score_of(
    a: Image,
    b: Image,
    plane: usize,
    row: usize,
    col: usize,
    threshold_a: i64,
    threshold_b: i64,
    cfg: SacaConfig,
) -> PixelScore {
    let k = first_kernel(plane, row, col, threshold_a, threshold_b);
    score_of(a, b, with_radius(k, grown_radius(a, b, k, cfg)))
}

/// The sum of the squares of weights is at most the square of their sum.
pub proof fn lemma_square_sum_bound(w: Seq<u64>)
    ensures
        0 <= square_sum(w) <= weight_sum(w) * weight_sum(w),
        0 <= weight_sum(w),
    decreases w.len(),
{
    if w.len() > 0 {
        lemma_square_sum_bound(w.drop_last());
        let q = square_sum(w.drop_last());
        let t = weight_sum(w.drop_last());
        let x = w.last() as int;
        assert(0 <= x * x && q + x * x <= (t + x) * (t + x)) by (nonlinear_arith)
            requires
                0 <= q <= t * t,
                0 <= t,
                0 <= x,
        ;
    } else {
        assert(0 * 0 == 0int);
    }
}

/// The sum of the squares of the weights.
fn sum_of_squares(w: &Vec<u64>) -> (q: u64)
    requires
        weight_sum(w@) <= MAX_NEIGHBORHOOD_WEIGHT,
    ensures
        q == square_sum(w@),
{
    let mut q: u64 = 0;
    let mut i: usize = 0;
    while i < w.len()
        invariant
            i <= w.len(),
            weight_sum(w@) <= MAX_NEIGHBORHOOD_WEIGHT,
            q == square_sum(w@.subrange(0, i as int)),
        decreases w.len() - i,
    {
        proof {
            let next = w@.subrange(0, i + 1);
            assert(next.drop_last() =~= w@.subrange(0, i as int));
            lemma_square_sum_bound(next);
            lemma_weight_sum_prefix(w@, i + 1);
            let t = weight_sum(next);
            assert(t * t <= 2_103_711_265 * 2_103_711_265) by (nonlinear_arith)
                requires
                    0 <= t <= 2_103_711_265,
            ;
            lemma_square_sum_bound(w@.subrange(0, i as int));
            let x = w@[i as int] as int;
            assert(0 <= x * x) by (nonlinear_arith);
        }
        q = q + w[i] * w[i];
        i += 1;
    }
    proof {
        assert(w@.subrange(0, i as int) =~= w@);
    }
    q
}

/// The sum of the weights.
fn sum_of_weights(w: &Vec<u64>) -> (t: u64)
    requires
        weight_sum(w@) <= MAX_NEIGHBORHOOD_WEIGHT,
    ensures
        t == weight_sum(w@),
{
    let mut t: u64 = 0;
    let mut i: usize = 0;
    while i < w.len()
        invariant
            i <= w.len(),
            weight_sum(w@) <= MAX_NEIGHBORHOOD_WEIGHT,
            t == weight_sum(w@.subrange(0, i as int)),
        decreases w.len() - i,
    {
        proof {
            assert(w@.subrange(0, i + 1).drop_last() =~= w@.subrange(0, i as int));
            lemma_weight_sum_prefix(w@, i + 1);
        }
        t = t + w[i];
        i += 1;
    }
    proof {
        assert(w@.subrange(0, i as int) =~= w@);
    }
    t
}

/// The score of the neighbourhood of the kernel's centre.
pub fn score_at(a: &Image, b: &Image, k: &Kernel) -> (score: PixelScore)
    requires
        a.wf(),
        b.wf(),
        a.shape() == b.shape(),
        k.plane < a.planes,
        k.row < a.rows,
        k.col < a.cols,
        k.radius <= MAX_RADIUS,
    ensures
        score == score_of(*a, *b, *k),
        well_scored(score),
{
    let (va, vb, w) = gather(a, b, k);
    let ghost nb = neighborhood(*a, *b, *k);
    proof {
        assert(weights_of(nb) =~= w@);
        lemma_obs_weight_sum(va@, vb@, w@, w@.len() as int);
        assert(nb.subrange(0, w@.len() as int) =~= nb);
        assert(w@.subrange(0, w@.len() as int) =~= w@);
        lemma_tau_b_bounds(nb);
        lemma_square_sum_bound(w@);
        let m = weight_sum(w@);
        assert(m * m <= 2_103_711_265 * 2_103_711_265) by (nonlinear_arith)
            requires
                0 <= m <= 2_103_711_265,
        ;
    }
    let weight_sum: u64 = sum_of_weights(&w);
    let weight_square_sum: u64 = sum_of_squares(&w);
    // the lengths agree and the weights fit: the coefficient is there
    let tau: TauB = weighted_kendall_tau_b(&va, &vb, &w).unwrap();
    PixelScore { tau, radius: k.radius, weight_sum, weight_square_sum }
}

/// Whether the coefficient changed by more than the tolerance, or is
/// undefined at one of the two radii.
pub fn separated(prev: TauB, next: TauB, tolerance: u32) -> (grow: bool)
    requires
        scalable(prev),
        scalable(next),
    ensures
        grow == keeps_growing(prev, next, tolerance as int),
{
    match (scaled(prev), scaled(next)) {
        (Some(x), Some(y)) => {
            let change: i128 = if y >= x {
                y - x
            } else {
                x - y
            };
            change > tolerance as i128
        },
        _ => true,
    }
}

/// The score at a sample: grows the neighbourhood from radius one, one step at
/// a time, until the coefficient changes by no more than the tolerance from
/// one radius to the next or the greatest radius is reached, and scores the
/// neighbourhood reached.
pub fn pixel_score(
    a: &Image,
    b: &Image,
    plane: usize,
    row: usize,
    col: usize,
    threshold_a: i64,
    threshold_b: i64,
    cfg: &SacaConfig,
) -> (score: PixelScore)
    requires
        a.wf(),
        b.wf(),
        a.shape() == b.shape(),
        plane < a.planes,
        row < a.rows,
        col < a.cols,
        valid_config(*cfg),
    ensures
        score == pixel_score_of(*a, *b, plane, row, col, threshold_a, threshold_b, *cfg),
        well_scored(score),
{
    let ghost k1 = first_kernel(plane, row, col, threshold_a, threshold_b);
    let mut k = Kernel { plane, row, col, radius: 1, threshold_a, threshold_b };
    let mut score: PixelScore = score_at(a, b, &k);
    let mut settled: bool = false;
    while !settled && k.radius < cfg.max_radius
        invariant
            a.wf(),
            b.wf(),
            a.shape() == b.shape(),
            plane < a.planes,
            row < a.rows,
            col < a.cols,
            valid_config(*cfg),
            k1 == first_kernel(plane, row, col, threshold_a, threshold_b),
            k == with_radius(k1, k.radius as int),
            1 <= k.radius <= cfg.max_radius,
            score == score_of(*a, *b, k),
            well_scored(score),
            settled ==> grown_radius(*a, *b, k1, *cfg) == k.radius,
            !settled ==> grown_radius(*a, *b, k1, *cfg) == grown_radius(*a, *b, k, *cfg),
        decreases cfg.max_radius - k.radius,
    {
        let next_k = Kernel { plane, row, col, radius: k.radius + 1, threshold_a, threshold_b };
        let next: PixelScore = score_at(a, b, &next_k);
        let grow: bool = separated(score.tau, next.tau, cfg.tolerance);
        proof {
            assert(next_k == with_radius(k, k.radius + 1));
        }
        k = next_k;
        score = next;
        if !grow {
            settled = true;
        }
    }
    score
}

/// The score at the sample at position `j` of the data.
pub open spec fn flat_score_of(
    a: Image,
    b: Image,
    j: int,
    threshold_a: i64,
    threshold_b: i64,
    cfg: SacaConfig,
) -> PixelScore {
    pixel_score_of(
        a,
        b,
        ((j / a.cols as int) / a.rows as int) as usize,
        ((j / a.cols as int) % a.rows as int) as usize,
        (j % a.cols as int) as usize,
        threshold_a,
        threshold_b,
        cfg,
    )
}

/// The score at the sample at position `j` of the data.
pub fn flat_score(
    a: &Image,
    b: &Image,
    j: usize,
    threshold_a: i64,
    threshold_b: i64,
    cfg: &SacaConfig,
) -> (score: PixelScore)
    requires
        a.wf(),
        b.wf(),
        a.shape() == b.shape(),
        j < a.data@.len(),
        valid_config(*cfg),
    ensures
        score == flat_score_of(*a, *b, j as int, threshold_a, threshold_b, *cfg),
        well_scored(score),
{
    proof {
        lemma_coordinates(a.planes as int, a.rows as int, a.cols as int, j as int);
    }
    let col: usize = j % a.cols;
    let q: usize = j / a.cols;
    let row: usize = q % a.rows;
    let plane: usize = q / a.rows;
    pixel_score(a, b, plane, row, col, threshold_a, threshold_b, cfg)
}

/// The scores of all samples, in the order of the data, each within the
/// bounds of a neighbourhood.
pub open spec fn is_score_field(
    a: Image,
    b: Image,
    threshold_a: i64,
    threshold_b: i64,
    cfg: SacaConfig,
    field: Seq<PixelScore>,
) -> bool {
    &&& field.len() == a.data@.len()
    &&& forall|j: int|
        0 <= j < field.len() ==> #[trigger] field[j] == flat_score_of(
            a,
            b,
            j,
            threshold_a,
            threshold_b,
            cfg,
        ) && well_scored(field[j])
}

/// The field of scores of two images is one: whatever way it was computed,
/// in parallel or in sequence, it is the same field.
pub proof fn lemma_score_field_unique(
    a: Image,
    b: Image,
    threshold_a: i64,
    threshold_b: i64,
    cfg: SacaConfig,
    one: Seq<PixelScore>,
    other: Seq<PixelScore>,
)
    requires
        is_score_field(a, b, threshold_a, threshold_b, cfg, one),
        is_score_field(a, b, threshold_a, threshold_b, cfg, other),
    ensures
        one == other,
{
    assert(one =~= other);
}

/// `collect_into_vec` of rayon's indexed parallel iterators, on the range of
/// the positions of the data, each mapped to its score by [`flat_score`].
/// The contract says what rayon documents of it: the vector holds, for each
/// position in order, what the mapping gives for it; and of the mapping, what
/// the contract of `flat_score` says.
#[verifier::external_body]
fn scores_in_parallel(
    a: &Image,
    b: &Image,
    threshold_a: i64,
    threshold_b: i64,
    cfg: &SacaConfig,
) -> (field: Vec<PixelScore>)
    requires
        a.wf(),
        b.wf(),
        a.shape() == b.shape(),
        valid_config(*cfg),
    ensures
        is_score_field(*a, *b, threshold_a, threshold_b, *cfg, field@),
{
    let mut field: Vec<PixelScore> = Vec::new();
    (0..a.data.len()).into_par_iter().map(
        |j| flat_score(a, b, j, threshold_a, threshold_b, cfg),
    ).collect_into_vec(&mut field);
    field
}

/// The scores of all samples, one after the other in the order of the data.
fn scores_in_sequence(
    a: &Image,
    b: &Image,
    threshold_a: i64,
    threshold_b: i64,
    cfg: &SacaConfig,
) -> (field: Vec<PixelScore>)
    requires
        a.wf(),
        b.wf(),
        a.shape() == b.shape(),
        valid_config(*cfg),
    ensures
        is_score_field(*a, *b, threshold_a, threshold_b, *cfg, field@),
{
    let n: usize = a.data.len();
    let mut field: Vec<PixelScore> = Vec::with_capacity(n);
    let mut j: usize = 0;
    while j < n
        invariant
            a.wf(),
            b.wf(),
            a.shape() == b.shape(),
            valid_config(*cfg),
            n == a.data@.len(),
            j <= n,
            field@.len() == j,
            forall|i: int|
                0 <= i < j ==> #[trigger] field@[i] == flat_score_of(
                    *a,
                    *b,
                    i,
                    threshold_a,
                    threshold_b,
                    *cfg,
                ) && well_scored(field@[i]),
        decreases n - j,
    {
        let score: PixelScore = flat_score(a, b, j, threshold_a, threshold_b, cfg);
        field.push(score);
        j += 1;
    }
    field
}

/// What the analysis of two images returns: an error for images of different
/// shapes, for a greatest radius of zero, and for one above `MAX_RADIUS`, in
/// this order; else the score of every sample, in the order of the data.
pub open spec fn saca_outcome(
    a: Image,
    b: Image,
    shape_a: Seq<usize>,
    shape_b: Seq<usize>,
    threshold_a: i64,
    threshold_b: i64,
    cfg: SacaConfig,
    res: Result<Vec<PixelScore>, ImgalError>,
) -> bool {
    if a.shape() != b.shape() {
        res matches Err(
            ImgalError::MismatchedArrayShapes { a_arr_name, a_shape, b_arr_name, b_shape },
        ) && a_shape@ == shape_a && b_shape@ == shape_b && a_arr_name@ == "data_a"@
            && b_arr_name@ == "data_b"@
    } else if cfg.max_radius == 0 {
        res matches Err(ImgalError::InvalidParameterValueEqual { param_name, value }) && value
            == 0 && param_name@ == "max_radius"@
    } else if cfg.max_radius > MAX_RADIUS {
        res matches Err(ImgalError::InvalidParameterValueGreater { param_name, value }) && value
            == MAX_RADIUS && param_name@ == "max_radius"@
    } else {
        res matches Ok(field) && is_score_field(a, b, threshold_a, threshold_b, cfg, field@)
    }
}

/// Checks the configuration, then scores every sample.
fn saca_checked(
    a: &Image,
    b: &Image,
    threshold_a: i64,
    threshold_b: i64,
    cfg: &SacaConfig,
    parallel: bool,
) -> (res: Result<Vec<PixelScore>, ImgalError>)
    requires
        a.wf(),
        b.wf(),
        a.shape() == b.shape(),
    ensures
        saca_outcome(*a, *b, a.shape(), b.shape(), threshold_a, threshold_b, *cfg, res),
{
    if cfg.max_radius == 0 {
        return Err(ImgalError::InvalidParameterValueEqual { param_name: "max_radius", value: 0 });
    }
    if cfg.max_radius > MAX_RADIUS {
        return Err(
            ImgalError::InvalidParameterValueGreater {
                param_name: "max_radius",
                value: MAX_RADIUS,
            },
        );
    }
    if parallel {
        Ok(scores_in_parallel(a, b, threshold_a, threshold_b, cfg))
    } else {
        Ok(scores_in_sequence(a, b, threshold_a, threshold_b, cfg))
    }
}

/// Spatially adaptive colocalization analysis of two images of three
/// dimensions: the score of every sample, in the order of the data, whether
/// computed in parallel or in sequence.
///
/// Fails, before any score is computed, if the shapes of the images differ
/// or the greatest radius is not between one and `MAX_RADIUS`.
pub fn saca_3d(
    a: &Image,
    b: &Image,
    threshold_a: i64,
    threshold_b: i64,
    cfg: &SacaConfig,
    parallel: bool,
) -> (res: Result<Vec<PixelScore>, ImgalError>)
    requires
        a.wf(),
        b.wf(),
    ensures
        saca_outcome(*a, *b, a.shape(), b.shape(), threshold_a, threshold_b, *cfg, res),
{
    if !a.same_shape(b) {
        return Err(
            ImgalError::MismatchedArrayShapes {
                a_arr_name: "data_a",
                a_shape: vec![a.planes, a.rows, a.cols],
                b_arr_name: "data_b",
                b_shape: vec![b.planes, b.rows, b.cols],
            },
        );
    }
    saca_checked(a, b, threshold_a, threshold_b, cfg, parallel)
}

/// Spatially adaptive colocalization analysis of two images of two
/// dimensions, each a stack of one plane: the score of every sample, row
/// after row, whether computed in parallel or in sequence.
///
/// Fails, before any score is computed, if the shapes of the images differ,
/// naming the two shapes by rows and columns, or if the greatest radius is
/// not between one and `MAX_RADIUS`.
pub fn saca_2d(
    a: &Image,
    b: &Image,
    threshold_a: i64,
    threshold_b: i64,
    cfg: &SacaConfig,
    parallel: bool,
) -> (res: Result<Vec<PixelScore>, ImgalError>)
    requires
        a.wf(),
        b.wf(),
        a.planes == 1,
        b.planes == 1,
    ensures
        saca_outcome(
            *a,
            *b,
            seq![a.rows, a.cols],
            seq![b.rows, b.cols],
            threshold_a,
            threshold_b,
            *cfg,
            res,
        ),
{
    if !a.same_shape(b) {
        return Err(
            ImgalError::MismatchedArrayShapes {
                a_arr_name: "data_a",
                a_shape: vec![a.rows, a.cols],
                b_arr_name: "data_b",
                b_shape: vec![b.rows, b.cols],
            },
        );
    }
    saca_checked(a, b, threshold_a, threshold_b, cfg, parallel)
}

} // verus!
