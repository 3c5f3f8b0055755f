//! The shapes of padded arrays.
use crate::image::{lemma_coordinates, Image};
use vstd::prelude::*;

verus! {

/// Whether `axis` is among `axes`.
pub open spec fn axis_named(axes: Seq<usize>, axis: int) -> bool {
    exists|k: int| 0 <= k < axes.len() && #[trigger] axes[k] as int == axis
}

/// The length of one axis after padding: with `axes` given, the axes it names
/// grow by `pad` and the others stay; without, every axis grows by `pad` on
/// both sides.
pub open spec fn padded_len(pad: int, len: int, axis: int, axes: Option<Seq<usize>>) -> int {
    match axes {
        Some(ax) => if axis_named(ax, axis) {
            len + pad
        } else {
            len
        },
        None => len + 2 * pad,
    }
}

/// The view of an optional slice of axes.
pub open spec fn axes_view(axes: Option<&[usize]>) -> Option<Seq<usize>> {
    match axes {
        Some(ax) => Some(ax@),
        None => None,
    }
}

/// Whether `axes` names `axis`.
fn names_axis(axes: &[usize], axis: usize) -> (found: bool)
    ensures
        found == axis_named(axes@, axis as int),
{
    let mut k: usize = 0;
    while k < axes.len()
        invariant
            k <= axes.len(),
            forall|m: int| 0 <= m < k ==> #[trigger] axes@[m] as int != axis as int,
        decreases axes.len() - k,
    {
        if axes[k] == axis {
            return true;
        }
        k += 1;
    }
    false
}

/// The shape of an array of shape `shape` after padding by `pad`.
///
/// No padded length may exceed `usize::MAX`.
pub fn create_pad_shape(pad: usize, shape: &[usize], axes: Option<&[usize]>) -> (pad_shape: Vec<
    usize,
>)
    requires
        forall|i: int|
            0 <= i < shape@.len() ==> padded_len(
                pad as int,
                #[trigger] shape@[i] as int,
                i,
                axes_view(axes),
            ) <= usize::MAX,
    ensures
        pad_shape@.len() == shape@.len(),
        forall|i: int|
            0 <= i < shape@.len() ==> #[trigger] pad_shape@[i] == padded_len(
                pad as int,
                shape@[i] as int,
                i,
                axes_view(axes),
            ),
{
    let n: usize = shape.len();
    let mut pad_shape: Vec<usize> = Vec::with_capacity(n);
    let mut i: usize = 0;
    while i < n
        invariant
            n == shape@.len(),
            i <= n,
            pad_shape@.len() == i,
            forall|m: int|
                0 <= m < shape@.len() ==> padded_len(
                    pad as int,
                    #[trigger] shape@[m] as int,
                    m,
                    axes_view(axes),
                ) <= usize::MAX,
            forall|m: int|
                0 <= m < i ==> #[trigger] pad_shape@[m] == padded_len(
                    pad as int,
                    shape@[m] as int,
                    m,
                    axes_view(axes),
                ),
        decreases n - i,
    {
        let s: usize = shape[i];
        proof {
            assert(padded_len(pad as int, shape@[i as int] as int, i as int, axes_view(axes))
                <= usize::MAX);
        }
        let d: usize = match axes {
            Some(ax) => {
                // asymmetrical: only the named axes grow, at their end
                if names_axis(ax, i) {
                    s + pad
                } else {
                    s
                }
            },
            None => {
                // symmetrical: every axis grows at both ends
                s + 2 * pad
            },
        };
        pad_shape.push(d);
        i += 1;
    }
    pad_shape
}

/// Where the sample at position `i` of a padded axis comes from: a position
/// of the axis before padding, or none where the padding is filled with a
/// value. The axis had the length `len` and its samples now start at
/// `offset`. Padding that reflects takes the samples next to the edge in
/// reverse order, the edge itself left out.
pub open spec fn source_position(reflect: bool, len: int, offset: int, i: int) -> Option<int> {
    if i < offset {
        if reflect {
            Some(offset - i)
        } else {
            None
        }
    } else if i < offset + len {
        Some(i - offset)
    } else {
        if reflect {
            Some(2 * len + offset - 2 - i)
        } else {
            None
        }
    }
}

/// Where the samples of an axis start after padding: at `pad` where every
/// axis is padded on both sides, at zero where axes are named.
pub open spec fn source_offset(pad: int, axes: Option<Seq<usize>>) -> int {
    match axes {
        Some(_) => 0,
        None => pad,
    }
}

/// The length after padding of axis `axis` of the stack that holds an image
/// of `n_dims` dimensions. The image's own axes are the last `n_dims` of the
/// stack, numbered from zero; the axes in front of them are not the image's
/// and stay as they are.
pub open spec fn stack_len_after(
    pad: int,
    len: int,
    axis: int,
    n_dims: int,
    axes: Option<Seq<usize>>,
) -> int {
    if axis < 3 - n_dims {
        len
    } else {
        padded_len(pad, len, axis - (3 - n_dims), axes)
    }
}

/// Where the samples of axis `axis` of the stack start after padding.
pub open spec fn stack_offset(pad: int, axis: int, n_dims: int, axes: Option<Seq<usize>>) -> int {
    if axis < 3 - n_dims {
        0
    } else {
        source_offset(pad, axes)
    }
}

/// The sample at position `j` of the data of the padded image.
pub open spec fn padded_value(
    data: Image,
    n_dims: int,
    fill: i64,
    reflect: bool,
    pad: int,
    axes: Option<Seq<usize>>,
    j: int,
) -> i64 {
    let rows = stack_len_after(pad, data.rows as int, 1, n_dims, axes);
    let cols = stack_len_after(pad, data.cols as int, 2, n_dims, axes);
    match (
        source_position(
            reflect,
            data.planes as int,
            stack_offset(pad, 0, n_dims, axes),
            (j / cols) / rows,
        ),
        source_position(
            reflect,
            data.rows as int,
            stack_offset(pad, 1, n_dims, axes),
            (j / cols) % rows,
        ),
        source_position(reflect, data.cols as int, stack_offset(pad, 2, n_dims, axes), j % cols),
    ) {
        (Some(p), Some(r), Some(c)) => data.at(p, r, c),
        _ => fill,
    }
}

/// The padded image of `data`: its three lengths, and every one of its
/// samples.
pub open spec fn is_padded(
    data: Image,
    n_dims: int,
    fill: i64,
    reflect: bool,
    pad: int,
    axes: Option<Seq<usize>>,
    out: Image,
) -> bool {
    &&& out.wf()
    &&& out.planes == stack_len_after(pad, data.planes as int, 0, n_dims, axes)
    &&& out.rows == stack_len_after(pad, data.rows as int, 1, n_dims, axes)
    &&& out.cols == stack_len_after(pad, data.cols as int, 2, n_dims, axes)
    &&& forall|j: int|
        0 <= j < out.data@.len() ==> #[trigger] out.data@[j] == padded_value(
            data,
            n_dims,
            fill,
            reflect,
            pad,
            axes,
            j,
        )
}

/// The image has `n_dims` dimensions, between one and three: with fewer than
/// three it is a single plane, and with one a single row.
pub open spec fn has_dims(data: Image, n_dims: int) -> bool {
    &&& data.wf()
    &&& 1 <= n_dims <= 3
    &&& n_dims < 3 ==> data.planes == 1
    &&& n_dims < 2 ==> data.rows == 1
}

/// The image can be padded: it has `n_dims` dimensions, no axis is named
/// that it does not have, and the padded image is not too large for its
/// number of samples to be counted.
pub open spec fn can_pad(data: Image, n_dims: int, pad: int, axes: Option<Seq<usize>>) -> bool {
    &&& has_dims(data, n_dims)
    &&& axes matches Some(ax) ==> forall|k: int| 0 <= k < ax.len() ==> #[trigger] ax[k] < n_dims
    &&& stack_len_after(pad, data.planes as int, 0, n_dims, axes) * stack_len_after(
        pad,
        data.rows as int,
        1,
        n_dims,
        axes,
    ) * stack_len_after(pad, data.cols as int, 2, n_dims, axes) <= usize::MAX
    &&& stack_len_after(pad, data.planes as int, 0, n_dims, axes) <= usize::MAX
    &&& stack_len_after(pad, data.rows as int, 1, n_dims, axes) <= usize::MAX
    &&& stack_len_after(pad, data.cols as int, 2, n_dims, axes) <= usize::MAX
}

/// Every axis that grows is longer than the padding, so that there is enough
/// to reflect.
pub open spec fn can_reflect(data: Image, n_dims: int, pad: int, axes: Option<Seq<usize>>) -> bool {
    pad == 0 || {
        &&& stack_len_after(pad, data.planes as int, 0, n_dims, axes) != data.planes ==> pad
            < data.planes
        &&& stack_len_after(pad, data.rows as int, 1, n_dims, axes) != data.rows ==> pad
            < data.rows
        &&& stack_len_after(pad, data.cols as int, 2, n_dims, axes) != data.cols ==> pad
            < data.cols
    }
}

/// Where the sample at position `i` of a padded axis comes from.
fn source_of(reflect: bool, len: usize, offset: usize, padded: usize, i: usize) -> (src: Option<
    usize,
>)
    requires
        i < padded,
        offset + len <= padded,
        reflect ==> offset < len || offset == 0,
        reflect ==> padded - offset - len < len || padded == offset + len,
    ensures
        src matches Some(v) ==> source_position(reflect, len as int, offset as int, i as int)
            == Some(v as int) && v < len,
        src.is_none() ==> source_position(reflect, len as int, offset as int, i as int).is_none(),
{
    if i < offset {
        if reflect {
            Some(offset - i)
        } else {
            None
        }
    } else if i - offset < len {
        Some(i - offset)
    } else {
        if reflect {
            Some(len - 2 - (i - offset - len))
        } else {
            None
        }
    }
}

/// The length after padding of axis `axis` of the stack, and where its
/// samples start.
fn pad_axis(len: usize, axis: usize, n_dims: usize, pad: usize, axes: Option<&[usize]>) -> (res: (
    usize,
    usize,
))
    requires
        axis < 3,
        1 <= n_dims <= 3,
        stack_len_after(pad as int, len as int, axis as int, n_dims as int, axes_view(axes))
            <= usize::MAX,
    ensures
        res.0 == stack_len_after(
            pad as int,
            len as int,
            axis as int,
            n_dims as int,
            axes_view(axes),
        ),
        res.1 == stack_offset(pad as int, axis as int, n_dims as int, axes_view(axes)),
        res.1 + len <= res.0,
        res.0 == len || res.0 == len + pad + res.1,
        res.1 == 0 || res.1 == pad,
{
    if axis < 3 - n_dims {
        // not an axis of the image
        return (len, 0);
    }
    let own: usize = axis - (3 - n_dims);
    match axes {
        Some(named) => {
            // asymmetrical: only the named axes grow, at their end
            if names_axis(named, own) {
                (len + pad, 0)
            } else {
                (len, 0)
            }
        },
        None => {
            // symmetrical: every axis grows at both ends
            (len + 2 * pad, pad)
        },
    }
}

/// Pads an image of `n_dims` dimensions: with `axes` given, the axes that it
/// names grow by `pad` at their end; without, every axis of the image grows
/// by `pad` on both sides. What is added holds `fill`, or, where `reflect` is
/// set, the samples next to the edge in reverse order.
fn pad_image(
    data: &Image,
    n_dims: usize,
    fill: i64,
    reflect: bool,
    pad: usize,
    axes: Option<&[usize]>,
) -> (out: Image)
    requires
        can_pad(*data, n_dims as int, pad as int, axes_view(axes)),
        reflect ==> can_reflect(*data, n_dims as int, pad as int, axes_view(axes)),
    ensures
        is_padded(*data, n_dims as int, fill, reflect, pad as int, axes_view(axes), out),
        n_dims < 3 ==> out.planes == data.planes,
        n_dims < 2 ==> out.rows == data.rows,
{
    let ghost ax = axes_view(axes);
    let (planes, off_p) = pad_axis(data.planes, 0, n_dims, pad, axes);
    let (rows, off_r) = pad_axis(data.rows, 1, n_dims, pad, axes);
    let (cols, off_c) = pad_axis(data.cols, 2, n_dims, pad, axes);
    if planes == 0 || rows == 0 || cols == 0 {
        proof {
            assert(planes * rows * cols == 0) by (nonlinear_arith)
                requires
                    planes == 0 || rows == 0 || cols == 0,
            ;
        }
        return Image { planes, rows, cols, data: Vec::new() };
    }
    proof {
        assert(planes * rows <= planes * rows * cols) by (nonlinear_arith)
            requires
                planes * rows >= 0,
                cols >= 1,
        ;
    }
    let n: usize = planes * rows * cols;
    let mut out: Vec<i64> = Vec::with_capacity(n);
    let mut j: usize = 0;
    while j < n
        invariant
            can_pad(*data, n_dims as int, pad as int, ax),
            reflect ==> can_reflect(*data, n_dims as int, pad as int, ax),
            ax == axes_view(axes),
            planes == stack_len_after(pad as int, data.planes as int, 0, n_dims as int, ax),
            rows == stack_len_after(pad as int, data.rows as int, 1, n_dims as int, ax),
            cols == stack_len_after(pad as int, data.cols as int, 2, n_dims as int, ax),
            off_p == stack_offset(pad as int, 0, n_dims as int, ax),
            off_r == stack_offset(pad as int, 1, n_dims as int, ax),
            off_c == stack_offset(pad as int, 2, n_dims as int, ax),
            off_p + data.planes <= planes,
            off_r + data.rows <= rows,
            off_c + data.cols <= cols,
            planes == data.planes || planes == data.planes + pad + off_p,
            rows == data.rows || rows == data.rows + pad + off_r,
            cols == data.cols || cols == data.cols + pad + off_c,
            off_p == 0 || off_p == pad,
            off_r == 0 || off_r == pad,
            off_c == 0 || off_c == pad,
            n == planes * rows * cols,
            j <= n,
            out@.len() == j,
            forall|i: int|
                0 <= i < j ==> #[trigger] out@[i] == padded_value(
                    *data,
                    n_dims as int,
                    fill,
                    reflect,
                    pad as int,
                    ax,
                    i,
                ),
        decreases n - j,
    {
        proof {
            lemma_coordinates(planes as int, rows as int, cols as int, j as int);
        }
        let c: usize = j % cols;
        let q: usize = j / cols;
        let r: usize = q % rows;
        let p: usize = q / rows;
        let sp: Option<usize> = source_of(reflect, data.planes, off_p, planes, p);
        let sr: Option<usize> = source_of(reflect, data.rows, off_r, rows, r);
        let sc: Option<usize> = source_of(reflect, data.cols, off_c, cols, c);
        let v: i64 = match (sp, sr, sc) {
            (Some(sp), Some(sr), Some(sc)) => data.get(sp, sr, sc),
            _ => fill,
        };
        out.push(v);
        j += 1;
    }
    Image { planes, rows, cols, data: out }
}

/// Pads an image of `n_dims` dimensions with a constant value: with `axes`
/// given, the axes that it names, numbered from zero among the image's own,
/// grow by `pad` at their end; without, every axis of the image grows by
/// `pad` on both sides. An image of two dimensions keeps its single plane.
pub fn constant_pad(
    data: &Image,
    n_dims: usize,
    value: i64,
    pad: usize,
    axes: Option<&[usize]>,
) -> (out: Image)
    requires
        can_pad(*data, n_dims as int, pad as int, axes_view(axes)),
    ensures
        is_padded(*data, n_dims as int, value, false, pad as int, axes_view(axes), out),
        n_dims < 3 ==> out.planes == data.planes,
        n_dims < 2 ==> out.rows == data.rows,
{
    pad_image(data, n_dims, value, false, pad, axes)
}

/// Pads an image of `n_dims` dimensions with zeros: with `axes` given, the
/// axes that it names, numbered from zero among the image's own, grow by
/// `pad` at their end; without, every axis of the image grows by `pad` on
/// both sides. An image of two dimensions keeps its single plane.
pub fn zero_pad(data: &Image, n_dims: usize, pad: usize, axes: Option<&[usize]>) -> (out: Image)
    requires
        can_pad(*data, n_dims as int, pad as int, axes_view(axes)),
    ensures
        is_padded(*data, n_dims as int, 0, false, pad as int, axes_view(axes), out),
        n_dims < 3 ==> out.planes == data.planes,
        n_dims < 2 ==> out.rows == data.rows,
{
    pad_image(data, n_dims, 0, false, pad, axes)
}

/// Pads an image of `n_dims` dimensions with its own samples, reflected at
/// its edges without repeating the edge: with `axes` given, the axes that it
/// names, numbered from zero among the image's own, grow by `pad` at their
/// end; without, every axis of the image grows by `pad` on both sides. Every
/// axis that grows must be longer than `pad`. An image of two dimensions
/// keeps its single plane.
pub fn reflect_pad(data: &Image, n_dims: usize, pad: usize, axes: Option<&[usize]>) -> (out: Image)
    requires
        can_pad(*data, n_dims as int, pad as int, axes_view(axes)),
        can_reflect(*data, n_dims as int, pad as int, axes_view(axes)),
    ensures
        is_padded(*data, n_dims as int, 0, true, pad as int, axes_view(axes), out),
        n_dims < 3 ==> out.planes == data.planes,
        n_dims < 2 ==> out.rows == data.rows,
{
    pad_image(data, n_dims, 0, true, pad, axes)
}

} // verus!
