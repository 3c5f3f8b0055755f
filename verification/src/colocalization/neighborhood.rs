//! The weighted neighbourhood of a sample: what lies within a distance of it,
//! weighted by nearness and gated by the thresholds of the two images.
use crate::image::Image;
use crate::statistics::kendall_tau::observations;
use crate::statistics::sort::weight_sum;
use vstd::prelude::*;

verus! {

/// The greatest radius of a neighbourhood: the greatest for which the square
/// of the total weight of a neighbourhood in a stack is sure to be at most
/// two to the power of 62, so that the coefficient can be brought to fixed
/// point (see [`lemma_radius_limit`]).
pub const MAX_RADIUS: usize = 48;

/// A centre, a radius, and the two thresholds below which a sample has no
/// weight.
#[derive(Debug, Clone, Copy)]
pub struct Kernel {
    pub plane: usize,
    pub row: usize,
    pub col: usize,
    pub radius: usize,
    pub threshold_a: i64,
    pub threshold_b: i64,
}

/// The first position along an axis that the kernel reaches.
pub open spec fn window_lo(center: int, radius: int) -> int {
    if center >= radius {
        center - radius
    } else {
        0
    }
}

/// The position after the last one along an axis of length `len` that the
/// kernel reaches.
pub open spec fn window_hi(center: int, radius: int, len: int) -> int {
    if center + radius + 1 <= len {
        center + radius + 1
    } else {
        len
    }
}

/// The square of the distance of a position from the centre.
pub open spec fn squared_distance(k: Kernel, p: int, r: int, c: int) -> int {
    (p - k.plane) * (p - k.plane) + (r - k.row) * (r - k.row) + (c - k.col) * (c - k.col)
}

/// The position lies within the radius of the centre.
pub open spec fn in_kernel(k: Kernel, p: int, r: int, c: int) -> bool {
    squared_distance(k, p, r, c) <= k.radius * k.radius
}

/// The weight of a position by its nearness alone: one at the rim of the
/// kernel, and greater by the difference of the squares of the distances
/// further in.
pub open spec fn spatial_weight(k: Kernel, p: int, r: int, c: int) -> int {
    k.radius * k.radius + 1 - squared_distance(k, p, r, c)
}

/// Within the kernel the spatial weight is at least one, and no position has
/// more weight than one that is nearer to the centre.
pub proof fn lemma_spatial_weight_falls(
    k: Kernel,
    p: int,
    r: int,
    c: int,
    far_p: int,
    far_r: int,
    far_c: int,
)
    requires
        in_kernel(k, far_p, far_r, far_c),
        squared_distance(k, p, r, c) <= squared_distance(k, far_p, far_r, far_c),
    ensures
        in_kernel(k, p, r, c),
        spatial_weight(k, p, r, c) >= spatial_weight(k, far_p, far_r, far_c) >= 1,
{
}

/// The observation at a position: the two samples and their weight, which is
/// the spatial weight unless a sample is below its threshold.
pub open spec fn sample(a: Image, b: Image, k: Kernel, p: int, r: int, c: int) -> (i64, i64, u64) {
    let va = a.at(p, r, c);
    let vb = b.at(p, r, c);
    (
        va,
        vb,
        if va >= k.threshold_a && vb >= k.threshold_b {
            spatial_weight(k, p, r, c) as u64
        } else {
            0u64
        },
    )
}

/// The observations of row `r` of plane `p` before column `c_end`, in the
/// order of the columns.
pub open spec fn row_samples(a: Image, b: Image, k: Kernel, p: int, r: int, c_end: int) -> Seq<
    (i64, i64, u64),
>
    decreases c_end - window_lo(k.col as int, k.radius as int),
{
    if c_end <= window_lo(k.col as int, k.radius as int) {
        Seq::empty()
    } else {
        let before = row_samples(a, b, k, p, r, c_end - 1);
        if in_kernel(k, p, r, c_end - 1) {
            before.push(sample(a, b, k, p, r, c_end - 1))
        } else {
            before
        }
    }
}

/// The observations of plane `p` before row `r_end`, row after row.
pub open spec fn plane_samples(a: Image, b: Image, k: Kernel, p: int, r_end: int) -> Seq<
    (i64, i64, u64),
>
    decreases r_end - window_lo(k.row as int, k.radius as int),
{
    if r_end <= window_lo(k.row as int, k.radius as int) {
        Seq::empty()
    } else {
        plane_samples(a, b, k, p, r_end - 1) + row_samples(
            a,
            b,
            k,
            p,
            r_end - 1,
            window_hi(k.col as int, k.radius as int, a.cols as int),
        )
    }
}

/// The observations of the planes before `p_end`, plane after plane.
pub open spec fn stack_samples(a: Image, b: Image, k: Kernel, p_end: int) -> Seq<(i64, i64, u64)>
    decreases p_end - window_lo(k.plane as int, k.radius as int),
{
    if p_end <= window_lo(k.plane as int, k.radius as int) {
        Seq::empty()
    } else {
        stack_samples(a, b, k, p_end - 1) + plane_samples(
            a,
            b,
            k,
            p_end - 1,
            window_hi(k.row as int, k.radius as int, a.rows as int),
        )
    }
}

/// The neighbourhood of the kernel's centre: the observations at all
/// positions of the image within the radius, in the order of the data.
/// Positions outside the image are passed over. In an image of one plane the
/// neighbourhood is a disc.
pub open spec fn neighborhood(a: Image, b: Image, k: Kernel) -> Seq<(i64, i64, u64)> {
    stack_samples(a, b, k, window_hi(k.plane as int, k.radius as int, a.planes as int))
}

/// The greatest total weight of a neighbourhood: at most 97 positions along
/// each axis, each of a weight of at most 2305.
pub const MAX_NEIGHBORHOOD_WEIGHT: u64 = 2_103_711_265;

/// The greatest total weight that a neighbourhood of radius `r` in a stack
/// can have: all positions of the cube around the centre, each with the
/// weight of the centre.
pub open spec fn cube_weight(r: int) -> int {
    (2 * r + 1) * (2 * r + 1) * (2 * r + 1) * (r * r + 1)
}

/// `MAX_RADIUS` is the greatest radius whose cube weight, squared, is at most
/// two to the power of 62; and `MAX_NEIGHBORHOOD_WEIGHT` is that cube weight.
pub proof fn lemma_radius_limit()
    ensures
        cube_weight(MAX_RADIUS as int) == MAX_NEIGHBORHOOD_WEIGHT,
        cube_weight(MAX_RADIUS as int) * cube_weight(MAX_RADIUS as int)
            <= 0x4000_0000_0000_0000,
        cube_weight(MAX_RADIUS + 1) * cube_weight(MAX_RADIUS + 1) > 0x4000_0000_0000_0000,
{
    assert(cube_weight(48) == 2_103_711_265) by (nonlinear_arith);
    assert(cube_weight(49) == 2_330_658_198) by (nonlinear_arith);
    assert(2_103_711_265int * 2_103_711_265int <= 0x4000_0000_0000_0000) by (nonlinear_arith);
    assert(2_330_658_198int * 2_330_658_198int > 0x4000_0000_0000_0000) by (nonlinear_arith);
}

proof fn lemma_square_of_difference(x: int, d: int)
    requires
        d == x || d == -x,
    ensures
        d * d == x * x,
{
    assert(d * d == x * x) by (nonlinear_arith)
        requires
            d == x || d == -x,
    ;
}

/// The first position along an axis that a kernel at `center` reaches.
fn lo_of(center: usize, radius: usize) -> (lo: usize)
    ensures
        lo == window_lo(center as int, radius as int),
        lo <= center,
{
    if center >= radius {
        center - radius
    } else {
        0
    }
}

/// The position after the last one along an axis that a kernel at `center`
/// reaches.
fn hi_of(center: usize, radius: usize, len: usize) -> (hi: usize)
    requires
        center < len,
    ensures
        hi == window_hi(center as int, radius as int, len as int),
        center < hi <= len,
{
    if radius < len - center {
        center + radius + 1
    } else {
        len
    }
}

/// The distance between two positions along an axis.
fn gap(x: usize, center: usize) -> (d: usize)
    ensures
        d == x - center || d == center - x,
        d >= 0,
        d * d == (x - center) * (x - center),
{
    let d: usize = if x >= center {
        x - center
    } else {
        center - x
    };
    proof {
        lemma_square_of_difference(x - center, d as int);
    }
    d
}

/// Collects the neighbourhood of the kernel's centre: the two samples and the
/// weight of every position of the image within the radius, in the order of
/// the data.
pub fn gather(a: &Image, b: &Image, k: &Kernel) -> (res: (Vec<i64>, Vec<i64>, Vec<u64>))
    requires
        a.wf(),
        b.wf(),
        a.shape() == b.shape(),
        k.plane < a.planes,
        k.row < a.rows,
        k.col < a.cols,
        k.radius <= MAX_RADIUS,
    ensures
        res.0@.len() == res.2@.len(),
        res.1@.len() == res.2@.len(),
        observations(res.0@, res.1@, res.2@) == neighborhood(*a, *b, *k),
        weight_sum(res.2@) <= MAX_NEIGHBORHOOD_WEIGHT,
{
    proof {
        assert(a.shape()[0] == b.shape()[0]);
        assert(a.shape()[1] == b.shape()[1]);
        assert(a.shape()[2] == b.shape()[2]);
    }
    let radius: usize = k.radius;
    proof {
        assert(radius * radius <= 48 * 48) by (nonlinear_arith)
            requires
                0 <= radius <= 48,
        ;
    }
    let reach: usize = radius * radius;
    let lo_p: usize = lo_of(k.plane, radius);
    let hi_p: usize = hi_of(k.plane, radius, a.planes);
    let lo_r: usize = lo_of(k.row, radius);
    let hi_r: usize = hi_of(k.row, radius, a.rows);
    let lo_c: usize = lo_of(k.col, radius);
    let hi_c: usize = hi_of(k.col, radius, a.cols);
    let mut va: Vec<i64> = Vec::new();
    let mut vb: Vec<i64> = Vec::new();
    let mut w: Vec<u64> = Vec::new();
    let mut p: usize = lo_p;
    while p < hi_p
        invariant
            a.wf(),
            b.wf(),
            a.planes == b.planes,
            a.rows == b.rows,
            a.cols == b.cols,
            k.plane < a.planes,
            k.row < a.rows,
            k.col < a.cols,
            radius == k.radius,
            radius <= 48,
            reach == radius * radius,
            lo_p == window_lo(k.plane as int, radius as int),
            hi_p == window_hi(k.plane as int, radius as int, a.planes as int),
            lo_r == window_lo(k.row as int, radius as int),
            hi_r == window_hi(k.row as int, radius as int, a.rows as int),
            lo_c == window_lo(k.col as int, radius as int),
            hi_c == window_hi(k.col as int, radius as int, a.cols as int),
            lo_p <= p <= hi_p,
            hi_p <= a.planes,
            va@.len() == w@.len(),
            vb@.len() == w@.len(),
            observations(va@, vb@, w@) == stack_samples(*a, *b, *k, p as int),
            w@.len() <= (p - lo_p) * 9409,
            weight_sum(w@) <= w@.len() * 2305,
        decreases hi_p - p,
    {
        let ghost done = stack_samples(*a, *b, *k, p as int);
        let mut r: usize = lo_r;
        proof {
            assert(done + plane_samples(*a, *b, *k, p as int, lo_r as int) =~= done);
        }
        while r < hi_r
            invariant
                a.wf(),
                b.wf(),
                a.planes == b.planes,
                a.rows == b.rows,
                a.cols == b.cols,
                k.plane < a.planes,
                k.row < a.rows,
                k.col < a.cols,
                radius == k.radius,
                radius <= 48,
                reach == radius * radius,
                lo_p == window_lo(k.plane as int, radius as int),
                lo_r == window_lo(k.row as int, radius as int),
                hi_r == window_hi(k.row as int, radius as int, a.rows as int),
                lo_c == window_lo(k.col as int, radius as int),
                hi_c == window_hi(k.col as int, radius as int, a.cols as int),
                lo_p <= p < a.planes,
                p <= k.plane + radius,
                lo_r <= r <= hi_r,
                hi_r <= a.rows,
                done == stack_samples(*a, *b, *k, p as int),
                va@.len() == w@.len(),
                vb@.len() == w@.len(),
                observations(va@, vb@, w@) == done + plane_samples(*a, *b, *k, p as int, r as int),
                w@.len() <= (p - lo_p) * 9409 + (r - lo_r) * 97,
                weight_sum(w@) <= w@.len() * 2305,
            decreases hi_r - r,
        {
            let ghost rows_done = plane_samples(*a, *b, *k, p as int, r as int);
            let mut c: usize = lo_c;
            proof {
                assert(done + rows_done + row_samples(*a, *b, *k, p as int, r as int, lo_c as int)
                    =~= done + rows_done);
            }
            while c < hi_c
                invariant
                    a.wf(),
                    b.wf(),
                    a.planes == b.planes,
                    a.rows == b.rows,
                    a.cols == b.cols,
                    radius == k.radius,
                    radius <= 48,
                    reach == radius * radius,
                    lo_p == window_lo(k.plane as int, radius as int),
                    lo_r == window_lo(k.row as int, radius as int),
                    lo_c == window_lo(k.col as int, radius as int),
                    hi_c == window_hi(k.col as int, radius as int, a.cols as int),
                    lo_p <= p < a.planes,
                    p <= k.plane + radius,
                    lo_r <= r < a.rows,
                    r <= k.row + radius,
                    lo_c <= c <= hi_c,
                    hi_c <= a.cols,
                    k.col < a.cols,
                    va@.len() == w@.len(),
                    vb@.len() == w@.len(),
                    observations(va@, vb@, w@) == done + rows_done + row_samples(
                        *a,
                        *b,
                        *k,
                        p as int,
                        r as int,
                        c as int,
                    ),
                    w@.len() <= (p - lo_p) * 9409 + (r - lo_r) * 97 + (c - lo_c),
                    weight_sum(w@) <= w@.len() * 2305,
                decreases hi_c - c,
            {
                let dp: usize = gap(p, k.plane);
                let dr: usize = gap(r, k.row);
                let dc: usize = gap(c, k.col);
                proof {
                    assert(dp * dp <= 48 * 48 && dr * dr <= 48 * 48 && dc * dc <= 48 * 48
                        && radius * radius <= 48 * 48) by (nonlinear_arith)
                        requires
                            0 <= dp <= 48,
                            0 <= dr <= 48,
                            0 <= dc <= 48,
                            0 <= radius <= 48,
                    ;
                }
                let d2: usize = dp * dp + dr * dr + dc * dc;
                if d2 <= reach {
                    let sa: i64 = a.get(p, r, c);
                    let sb: i64 = b.get(p, r, c);
                    // a sample below its threshold is kept, without weight
                    let weight: u64 = if sa >= k.threshold_a && sb >= k.threshold_b {
                        (reach + 1 - d2) as u64
                    } else {
                        0
                    };
                    let ghost before = observations(va@, vb@, w@);
                    let ghost w_before = w@;
                    va.push(sa);
                    vb.push(sb);
                    w.push(weight);
                    proof {
                        assert(observations(va@, vb@, w@) =~= before.push((sa, sb, weight)));
                        assert(w@.drop_last() =~= w_before);
                        let row_before = row_samples(*a, *b, *k, p as int, r as int, c as int);
                        assert((done + rows_done + row_before).push((sa, sb, weight)) =~= done
                            + rows_done + row_before.push((sa, sb, weight)));
                    }
                }
                c += 1;
            }
            proof {
                let row = row_samples(*a, *b, *k, p as int, r as int, hi_c as int);
                assert(done + rows_done + row =~= done + (rows_done + row));
            }
            r += 1;
        }
        p += 1;
    }
    (va, vb, w)
}

} // verus!
