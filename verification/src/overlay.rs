//! Overlays drawn into images.
use crate::image::{lemma_coordinates, Image};
use vstd::prelude::*;

verus! {

/// The position `j` of the data of an image with the given numbers of rows
/// and columns lies on a line of a grid with the given spacing: its row or
/// its column is a multiple of the spacing.
pub open spec fn on_grid(rows: int, cols: int, spacing: int, j: int) -> bool {
    ((j / cols) % rows) % spacing == 0 || (j % cols) % spacing == 0
}

/// Draws a grid into every plane of an image: the samples whose row or
/// column is a multiple of `spacing` are set to the greatest value, and the
/// others are left as they are.
pub fn grid_2d_mut(data: &mut Image, spacing: usize)
    requires
        old(data).wf(),
        spacing > 0,
    ensures
        final(data).wf(),
        final(data).shape() == old(data).shape(),
        forall|j: int|
            0 <= j < old(data).data@.len() ==> #[trigger] final(data).data@[j] == if on_grid(
                old(data).rows as int,
                old(data).cols as int,
                spacing as int,
                j,
            ) {
                i64::MAX
            } else {
                old(data).data@[j]
            },
{
    let n: usize = data.data.len();
    let rows: usize = data.rows;
    let cols: usize = data.cols;
    let mut j: usize = 0;
    while j < n
        invariant
            data.wf(),
            data.planes == old(data).planes,
            data.rows == old(data).rows,
            data.cols == old(data).cols,
            rows == data.rows,
            cols == data.cols,
            n == data.data@.len(),
            n == old(data).data@.len(),
            spacing > 0,
            j <= n,
            forall|i: int|
                0 <= i < j ==> #[trigger] data.data@[i] == if on_grid(
                    rows as int,
                    cols as int,
                    spacing as int,
                    i,
                ) {
                    i64::MAX
                } else {
                    old(data).data@[i]
                },
            forall|i: int| j <= i < n ==> #[trigger] data.data@[i] == old(data).data@[i],
        decreases n - j,
    {
        proof {
            lemma_coordinates(
                data.planes as int,
                rows as int,
                cols as int,
                j as int,
            );
        }
        let r: usize = (j / cols) % rows;
        let c: usize = j % cols;
        if r % spacing == 0 || c % spacing == 0 {
            data.data.set(j, i64::MAX);
        }
        j += 1;
    }
}

} // verus!
