//! The positions of the tiles of a regular grid.
use crate::error::ImgalError;
use vstd::prelude::*;

verus! {

/// The start and stop positions of `div` equal segments of an axis of length
/// `axis_len`, in order: segment `i` runs from `i * (axis_len / div)` to
/// `(i + 1) * (axis_len / div)`.
pub fn get_div_start_stop_positions(div: usize, axis_len: usize) -> (positions: Vec<(isize, isize)>)
    requires
        div > 0,
        axis_len <= isize::MAX,
    ensures
        positions@.len() == div,
        forall|i: int|
            0 <= i < div ==> (#[trigger] positions@[i]).0 == i * (axis_len as int / div as int)
                && positions@[i].1 == (i + 1) * (axis_len as int / div as int),
{
    let mut start_stop_arr: Vec<(isize, isize)> = Vec::with_capacity(div);
    let inc: isize = (axis_len / div) as isize;
    let mut acc: isize = 0;
    let mut i: usize = 0;
    while i < div
        invariant
            div > 0,
            axis_len <= isize::MAX,
            i <= div,
            inc == axis_len as int / div as int,
            acc == i * inc,
            start_stop_arr@.len() == i,
            forall|m: int|
                0 <= m < i ==> (#[trigger] start_stop_arr@[m]).0 == m * inc
                    && start_stop_arr@[m].1 == (m + 1) * inc,
        decreases div - i,
    {
        proof {
            let q = axis_len as int / div as int;
            vstd::arithmetic::div_mod::lemma_fundamental_div_mod(axis_len as int, div as int);
            assert(0 <= q && (i + 1) * q <= axis_len && (i + 1) * q == i * q + q)
                by (nonlinear_arith)
                requires
                    0 <= i < div,
                    0 <= axis_len,
                    axis_len == div * q + (axis_len as int % div as int),
                    0 <= (axis_len as int % div as int) < div,
            ;
        }
        let start: isize = acc;
        let stop: isize = acc + inc;
        start_stop_arr.push((start, stop));
        acc = stop;
        i += 1;
    }
    start_stop_arr
}

/// The number of tiles of an array of `n` axes, each cut into `div`
/// segments: `div` to the power of `n`.
pub open spec fn tile_count_of(div: int, n: nat) -> int
    decreases n,
{
    if n == 0 {
        1
    } else {
        div * tile_count_of(div, (n - 1) as nat)
    }
}

/// The segment along `axis` in which tile `t` lies, where the tiles of an
/// array of `n` axes are numbered in row-major order: the digit of `t` at
/// `axis` when `t` is written with `n` digits to the base `div`, the first
/// axis first.
pub open spec fn axis_digit(t: int, div: int, n: int, axis: int) -> int
    decreases n,
{
    if n <= 0 {
        0
    } else if axis == n - 1 {
        t % div
    } else {
        axis_digit(t / div, div, n - 1, axis)
    }
}

/// The bounds of tile `t` along `axis`: the segment given by the tile's
/// digit, of the length of the axis divided by `div`.
pub open spec fn tile_bounds_of(shape: Seq<usize>, div: int, t: int, axis: int) -> (int, int) {
    let inc = shape[axis] as int / div;
    let digit = axis_digit(t, div, shape.len() as int, axis);
    (digit * inc, (digit + 1) * inc)
}

/// Axis `i` is the first whose length is no multiple of `div`.
pub open spec fn first_uneven_axis(shape: Seq<usize>, div: int, i: int) -> bool {
    &&& 0 <= i < shape.len()
    &&& shape[i] as int % div != 0
    &&& forall|k: int| 0 <= k < i ==> #[trigger] shape[k] as int % div == 0
}

/// Every axis has a length that is a multiple of `div`.
pub open spec fn all_axes_even(shape: Seq<usize>, div: int) -> bool {
    forall|k: int| 0 <= k < shape.len() ==> #[trigger] shape[k] as int % div == 0
}

/// The tiles `tiles` are those of an array of shape `shape` with `div`
/// segments along each axis, in row-major order.
pub open spec fn is_tiling(shape: Seq<usize>, div: int, tiles: Seq<Vec<(isize, isize)>>) -> bool {
    &&& tiles.len() == tile_count_of(div, shape.len())
    &&& forall|t: int| 0 <= t < tiles.len() ==> (#[trigger] tiles[t])@.len() == shape.len()
    &&& forall|t: int, a: int|
        0 <= t < tiles.len() && 0 <= a < shape.len() ==> {
            &&& (#[trigger] tiles[t]@[a]).0 == tile_bounds_of(shape, div, t, a).0
            &&& tiles[t]@[a].1 == tile_bounds_of(shape, div, t, a).1
        }
}

/// The number of tiles grows with the number of axes.
pub proof fn lemma_tile_count_grows(div: int, m: nat, n: nat)
    requires
        div >= 1,
        m <= n,
    ensures
        1 <= tile_count_of(div, m) <= tile_count_of(div, n),
    decreases n,
{
    if m == 0 && n == 0 {
    } else if m < n {
        lemma_tile_count_grows(div, m, (n - 1) as nat);
        let c = tile_count_of(div, (n - 1) as nat);
        assert(c <= div * c) by (nonlinear_arith)
            requires
                div >= 1,
                c >= 1,
        ;
    } else {
        lemma_tile_count_grows(div, (m - 1) as nat, (n - 1) as nat);
        let c = tile_count_of(div, (n - 1) as nat);
        assert(1 <= div * c) by (nonlinear_arith)
            requires
                div >= 1,
                c >= 1,
        ;
    }
}

/// The first axis whose length is no multiple of `div`, if there is one.
fn find_uneven_axis(shape: &[usize], div: usize) -> (found: Option<usize>)
    requires
        div > 0,
    ensures
        found matches Some(i) ==> first_uneven_axis(shape@, div as int, i as int),
        found.is_none() ==> all_axes_even(shape@, div as int),
{
    let mut i: usize = 0;
    while i < shape.len()
        invariant
            div > 0,
            i <= shape@.len(),
            forall|k: int| 0 <= k < i ==> #[trigger] shape@[k] as int % div as int == 0,
        decreases shape@.len() - i,
    {
        if shape[i] % div != 0 {
            return Some(i);
        }
        i += 1;
    }
    None
}

/// The bounds of tile `t` along every axis, from the positions of the
/// segments of each axis.
fn bounds_of_tile(
    positions: &Vec<Vec<(isize, isize)>>,
    shape: &[usize],
    div: usize,
    t: usize,
) -> (bounds: Vec<(isize, isize)>)
    requires
        div > 0,
        positions@.len() == shape@.len(),
        forall|a: int|
            0 <= a < shape@.len() ==> (#[trigger] positions@[a])@.len() == div && forall|d: int|
                0 <= d < div ==> (#[trigger] positions@[a]@[d]).0 == d * (shape@[a] as int
                    / div as int) && positions@[a]@[d].1 == (d + 1) * (shape@[a] as int
                    / div as int),
    ensures
        bounds@.len() == shape@.len(),
        forall|a: int|
            0 <= a < shape@.len() ==> {
                &&& (#[trigger] bounds@[a]).0 == tile_bounds_of(shape@, div as int, t as int, a).0
                &&& bounds@[a].1 == tile_bounds_of(shape@, div as int, t as int, a).1
            },
{
    let n: usize = shape.len();
    let mut bounds: Vec<(isize, isize)> = vec![(0isize, 0isize); n];
    let mut remaining: usize = t;
    let mut a: usize = n;
    while a > 0
        invariant
            div > 0,
            n == shape@.len(),
            positions@.len() == n,
            bounds@.len() == n,
            a <= n,
            forall|x: int|
                0 <= x < shape@.len() ==> (#[trigger] positions@[x])@.len() == div && forall|d: int|
                    0 <= d < div ==> (#[trigger] positions@[x]@[d]).0 == d * (shape@[x] as int
                        / div as int) && positions@[x]@[d].1 == (d + 1) * (shape@[x] as int
                        / div as int),
            forall|x: int|
                0 <= x < a ==> axis_digit(t as int, div as int, n as int, x) == axis_digit(
                    remaining as int,
                    div as int,
                    a as int,
                    x,
                ),
            forall|x: int|
                a <= x < n ==> {
                    &&& (#[trigger] bounds@[x]).0 == tile_bounds_of(
                        shape@,
                        div as int,
                        t as int,
                        x,
                    ).0
                    &&& bounds@[x].1 == tile_bounds_of(shape@, div as int, t as int, x).1
                },
        decreases a,
    {
        a -= 1;
        let digit: usize = remaining % div;
        proof {
            assert(axis_digit(t as int, div as int, n as int, a as int) == axis_digit(
                remaining as int,
                div as int,
                a + 1,
                a as int,
            ));
            assert forall|x: int| 0 <= x < a implies axis_digit(
                t as int,
                div as int,
                n as int,
                x,
            ) == axis_digit(remaining as int / div as int, div as int, a as int, x) by {
                assert(axis_digit(t as int, div as int, n as int, x) == axis_digit(
                    remaining as int,
                    div as int,
                    a + 1,
                    x,
                ));
            }
            assert(positions@[a as int]@.len() == div);
        }
        let segment: (isize, isize) = positions[a][digit];
        proof {
            assert(positions@[a as int]@[digit as int].0 == digit * (shape@[a as int] as int
                / div as int));
        }
        bounds.set(a, segment);
        remaining = remaining / div;
    }
    bounds
}

/// The number of tiles of an array of `n` axes with `div` segments along
/// each.
///
/// The number must be at most `usize::MAX`.
pub fn tile_count(div: usize, n: usize) -> (count: usize)
    requires
        tile_count_of(div as int, n as nat) <= usize::MAX,
    ensures
        count == tile_count_of(div as int, n as nat),
{
    if div == 0 {
        proof {
            if n > 0 {
                assert(tile_count_of(0, n as nat) == 0) by {
                    assert(0 * tile_count_of(0, (n - 1) as nat) == 0) by (nonlinear_arith);
                }
            }
        }
        return if n == 0 {
            1
        } else {
            0
        };
    }
    let mut count: usize = 1;
    let mut i: usize = 0;
    while i < n
        invariant
            div >= 1,
            i <= n,
            count == tile_count_of(div as int, i as nat),
            tile_count_of(div as int, n as nat) <= usize::MAX,
        decreases n - i,
    {
        proof {
            lemma_tile_count_grows(div as int, (i + 1) as nat, n as nat);
        }
        count = count * div;
        proof {
            assert(count == div * tile_count_of(div as int, i as nat)) by (nonlinear_arith)
                requires
                    count == tile_count_of(div as int, i as nat) * div,
            ;
        }
        i += 1;
    }
    count
}

/// The tiles of an array of shape `shape` cut into `div` equal segments along
/// every axis: for each tile, in row-major order, its start and stop
/// positions along each axis.
///
/// Fails if `div` is zero, and else if an axis has a length that is no
/// multiple of `div`, naming the first such axis and its length. No length
/// may exceed `isize::MAX`, nor the number of tiles `usize::MAX`.
pub fn div_tile(shape: &[usize], div: usize) -> (res: Result<Vec<Vec<(isize, isize)>>, ImgalError>)
    requires
        forall|a: int| 0 <= a < shape@.len() ==> #[trigger] shape@[a] <= isize::MAX,
        tile_count_of(div as int, shape@.len()) <= usize::MAX,
    ensures
        div == 0 ==> (res matches Err(
            ImgalError::InvalidParameterValueEqual { param_name, value },
        ) && value == 0 && param_name@ == "div"@),
        div != 0 && !all_axes_even(shape@, div as int) ==> (res matches Err(
            ImgalError::InvalidAxisValueNotAMultipleOf { arr_name, axis_idx, multiple },
        ) && first_uneven_axis(shape@, div as int, axis_idx as int) && multiple
            == shape@[axis_idx as int] && arr_name@ == "shape"@),
        div != 0 && all_axes_even(shape@, div as int) ==> (res matches Ok(tiles) && is_tiling(
            shape@,
            div as int,
            tiles@,
        )),
{
    if div == 0 {
        return Err(ImgalError::InvalidParameterValueEqual { param_name: "div", value: 0 });
    }
    match find_uneven_axis(shape, div) {
        Some(i) => {
            return Err(
                ImgalError::InvalidAxisValueNotAMultipleOf {
                    arr_name: "shape",
                    axis_idx: i,
                    multiple: shape[i],
                },
            );
        },
        None => {},
    }
    Ok(tiles_of(shape, div))
}

/// The tiles of an array whose axes all have lengths that `div` divides.
fn tiles_of(shape: &[usize], div: usize) -> (tiles: Vec<Vec<(isize, isize)>>)
    requires
        div > 0,
        forall|a: int| 0 <= a < shape@.len() ==> #[trigger] shape@[a] <= isize::MAX,
        tile_count_of(div as int, shape@.len()) <= usize::MAX,
    ensures
        is_tiling(shape@, div as int, tiles@),
{
    let n: usize = shape.len();
    // the segments of each axis
    let mut positions: Vec<Vec<(isize, isize)>> = Vec::with_capacity(n);
    let mut a: usize = 0;
    while a < n
        invariant
            div > 0,
            n == shape@.len(),
            a <= n,
            positions@.len() == a,
            forall|x: int| 0 <= x < shape@.len() ==> #[trigger] shape@[x] <= isize::MAX,
            forall|x: int|
                0 <= x < a ==> (#[trigger] positions@[x])@.len() == div && forall|d: int|
                    0 <= d < div ==> (#[trigger] positions@[x]@[d]).0 == d * (shape@[x] as int
                        / div as int) && positions@[x]@[d].1 == (d + 1) * (shape@[x] as int
                        / div as int),
        decreases n - a,
    {
        let axis_positions = get_div_start_stop_positions(div, shape[a]);
        positions.push(axis_positions);
        a += 1;
    }
    // the tiles, in row-major order
    let n_tiles: usize = tile_count(div, n);
    let mut tiles: Vec<Vec<(isize, isize)>> = Vec::with_capacity(n_tiles);
    let mut t: usize = 0;
    while t < n_tiles
        invariant
            div > 0,
            n == shape@.len(),
            positions@.len() == n,
            n_tiles == tile_count_of(div as int, shape@.len()),
            t <= n_tiles,
            tiles@.len() == t,
            forall|x: int|
                0 <= x < shape@.len() ==> (#[trigger] positions@[x])@.len() == div && forall|d: int|
                    0 <= d < div ==> (#[trigger] positions@[x]@[d]).0 == d * (shape@[x] as int
                        / div as int) && positions@[x]@[d].1 == (d + 1) * (shape@[x] as int
                        / div as int),
            forall|k: int| 0 <= k < t ==> (#[trigger] tiles@[k])@.len() == shape@.len(),
            forall|k: int, x: int|
                0 <= k < t && 0 <= x < shape@.len() ==> {
                    &&& (#[trigger] tiles@[k]@[x]).0 == tile_bounds_of(shape@, div as int, k, x).0
                    &&& tiles@[k]@[x].1 == tile_bounds_of(shape@, div as int, k, x).1
                },
        decreases n_tiles - t,
    {
        let bounds = bounds_of_tile(&positions, shape, div, t);
        tiles.push(bounds);
        t += 1;
    }
    tiles
}

/// The shape of one tile: each length of `shape` divided by `div`.
pub open spec fn tile_shape_of(shape: Seq<usize>, div: int) -> Seq<usize> {
    Seq::new(shape.len(), |a: int| (shape[a] as int / div) as usize)
}

/// What putting tiles together returns: the first of six errors that
/// applies, or the place of every tile.
pub open spec fn untile_outcome(
    n_given: usize,
    tile_shape: Seq<usize>,
    div: usize,
    shape: Seq<usize>,
    res: Result<Vec<Vec<(isize, isize)>>, ImgalError>,
) -> bool {
    if n_given == 0 {
        res matches Err(ImgalError::InvalidParameterEmptyArray { param_name }) && param_name@
            == "tile_stack"@
    } else if div == 0 {
        res matches Err(ImgalError::InvalidParameterValueEqual { param_name, value }) && value
            == 0 && param_name@ == "div"@
    } else if shape.len() != tile_shape.len() {
        res matches Err(
            ImgalError::MismatchedArrayLengths { a_arr_name, a_arr_len, b_arr_name, b_arr_len },
        ) && a_arr_len == tile_shape.len() && b_arr_len == shape.len() && a_arr_name@
            == "tile shape"@ && b_arr_name@ == "shape"@
    } else if !all_axes_even(shape, div as int) {
        res matches Err(
            ImgalError::InvalidAxisValueNotAMultipleOf { arr_name, axis_idx, multiple },
        ) && first_uneven_axis(shape, div as int, axis_idx as int) && multiple == div
            && arr_name@ == "shape"@
    } else if tile_count_of(div as int, shape.len()) != n_given {
        res matches Err(ImgalError::InvalidArrayLength { arr_name, expected, got }) && expected
            == tile_count_of(div as int, shape.len()) && got == n_given && arr_name@
            == "tile_stack"@
    } else if tile_shape != tile_shape_of(shape, div as int) {
        res matches Err(
            ImgalError::MismatchedArrayShapes { a_arr_name, a_shape, b_arr_name, b_shape },
        ) && a_shape@ == tile_shape_of(shape, div as int) && b_shape@ == tile_shape
            && a_arr_name@ == "expected tile"@ && b_arr_name@ == "input tile"@
    } else {
        res matches Ok(tiles) && is_tiling(shape, div as int, tiles@)
    }
}

/// A copy of a shape.
fn shape_to_vec(shape: &[usize]) -> (v: Vec<usize>)
    ensures
        v@ == shape@,
{
    let mut v: Vec<usize> = Vec::with_capacity(shape.len());
    let mut a: usize = 0;
    while a < shape.len()
        invariant
            a <= shape@.len(),
            v@ == shape@.subrange(0, a as int),
        decreases shape@.len() - a,
    {
        v.push(shape[a]);
        proof {
            assert(v@ =~= shape@.subrange(0, a + 1));
        }
        a += 1;
    }
    proof {
        assert(shape@.subrange(0, shape@.len() as int) =~= shape@);
    }
    v
}

/// Where every tile of a stack goes in the array of shape `shape` that the
/// tiles are put together to: for each tile, in row-major order, its start
/// and stop positions along each axis.
///
/// `n_given` is the number of tiles in the stack and `tile_shape` the shape
/// of its first tile. Fails, in this order: if the stack is empty; if `div`
/// is zero; if `shape` has another number of axes than the tile; if an axis
/// of `shape` has a length that is no multiple of `div`, naming the first
/// such axis; if the stack does not hold `div` to the power of the number of
/// axes tiles; if the tile has another shape than `shape` divided by `div`.
/// No length may exceed `isize::MAX`, nor the number of tiles `usize::MAX`.
pub fn div_untile(n_given: usize, tile_shape: &[usize], div: usize, shape: &[usize]) -> (res:
    Result<Vec<Vec<(isize, isize)>>, ImgalError>)
    requires
        forall|a: int| 0 <= a < shape@.len() ==> #[trigger] shape@[a] <= isize::MAX,
        tile_count_of(div as int, shape@.len()) <= usize::MAX,
    ensures
        untile_outcome(n_given, tile_shape@, div, shape@, res),
{
    if n_given == 0 {
        return Err(ImgalError::InvalidParameterEmptyArray { param_name: "tile_stack" });
    }
    if div == 0 {
        return Err(ImgalError::InvalidParameterValueEqual { param_name: "div", value: 0 });
    }
    let n_dims: usize = tile_shape.len();
    if shape.len() != n_dims {
        return Err(
            ImgalError::MismatchedArrayLengths {
                a_arr_name: "tile shape",
                a_arr_len: n_dims,
                b_arr_name: "shape",
                b_arr_len: shape.len(),
            },
        );
    }
    match find_uneven_axis(shape, div) {
        Some(i) => {
            return Err(
                ImgalError::InvalidAxisValueNotAMultipleOf {
                    arr_name: "shape",
                    axis_idx: i,
                    multiple: div,
                },
            );
        },
        None => {},
    }
    let n_tiles: usize = tile_count(div, n_dims);
    if n_tiles != n_given {
        return Err(
            ImgalError::InvalidArrayLength {
                arr_name: "tile_stack",
                expected: n_tiles,
                got: n_given,
            },
        );
    }
    // the shape that every tile must have
    let mut expected: Vec<usize> = Vec::with_capacity(n_dims);
    let mut same: bool = true;
    let mut a: usize = 0;
    proof {
        assert(tile_shape@.subrange(0, 0) =~= expected@);
        assert(tile_shape_of(shape@, div as int).subrange(0, 0) =~= expected@);
    }
    while a < n_dims
        invariant
            div > 0,
            n_dims == shape@.len(),
            n_dims == tile_shape@.len(),
            a <= n_dims,
            expected@ == tile_shape_of(shape@, div as int).subrange(0, a as int),
            same == (tile_shape@.subrange(0, a as int) == expected@),
        decreases n_dims - a,
    {
        let len: usize = shape[a] / div;
        let ghost before = expected@;
        expected.push(len);
        proof {
            let want = tile_shape_of(shape@, div as int);
            assert(expected@ =~= want.subrange(0, a + 1));
            let got_now = tile_shape@.subrange(0, a + 1);
            let got_before = tile_shape@.subrange(0, a as int);
            assert(got_before =~= got_now.subrange(0, a as int));
            assert(before =~= expected@.subrange(0, a as int));
            if got_now == expected@ {
                assert(got_before == before);
                assert(got_now[a as int] == expected@[a as int]);
            }
            if got_before == before && tile_shape@[a as int] == len {
                assert(got_now =~= expected@);
            }
        }
        if tile_shape[a] != len {
            same = false;
        }
        a += 1;
    }
    proof {
        assert(tile_shape@.subrange(0, n_dims as int) =~= tile_shape@);
        assert(tile_shape_of(shape@, div as int).subrange(0, n_dims as int) =~= tile_shape_of(
            shape@,
            div as int,
        ));
    }
    if !same {
        return Err(
            ImgalError::MismatchedArrayShapes {
                a_arr_name: "expected tile",
                a_shape: expected,
                b_arr_name: "input tile",
                b_shape: shape_to_vec(tile_shape),
            },
        );
    }
    Ok(tiles_of(shape, div))
}

} // verus!
