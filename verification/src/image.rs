//! Dense images of integer samples.
use crate::error::ImgalError;
use vstd::prelude::*;

verus! {

/// A stack of `planes` planes of `rows` rows of `cols` samples, plane after
/// plane and row after row. An image of two dimensions is a stack of one
/// plane.
#[derive(Debug, Clone)]
pub struct Image {
    pub planes: usize,
    pub rows: usize,
    pub cols: usize,
    pub data: Vec<i64>,
}

/// The position of sample `(p, r, c)` in the data of a stack with the given
/// numbers of rows and columns.
pub open spec fn flat_index(rows: int, cols: int, p: int, r: int, c: int) -> int {
    (p * rows + r) * cols + c
}

/// A sample's position lies within the data.
pub proof fn lemma_flat_index_bounds(planes: int, rows: int, cols: int, p: int, r: int, c: int)
    requires
        0 <= p < planes,
        0 <= r < rows,
        0 <= c < cols,
    ensures
        0 <= p * rows + r < planes * rows,
        0 <= flat_index(rows, cols, p, r, c) < planes * rows * cols,
{
    assert(0 <= p * rows && p * rows + r < planes * rows) by (nonlinear_arith)
        requires
            0 <= p < planes,
            0 <= r < rows,
    ;
    let q = p * rows + r;
    let n = planes * rows;
    assert(0 <= q * cols && q * cols + c < n * cols) by (nonlinear_arith)
        requires
            0 <= q < n,
            0 <= c < cols,
    ;
}

/// The plane, row and column of a position of the data.
pub proof fn lemma_coordinates(planes: int, rows: int, cols: int, j: int)
    requires
        0 <= planes,
        0 <= rows,
        0 <= cols,
        0 <= j < planes * rows * cols,
    ensures
        0 < rows,
        0 < cols,
        0 <= (j / cols) / rows < planes,
        0 <= (j / cols) % rows < rows,
        0 <= j % cols < cols,
{
    if cols == 0 {
        assert(planes * rows * cols == 0) by (nonlinear_arith)
            requires
                cols == 0,
        ;
    }
    if rows == 0 {
        assert(planes * rows * cols == 0) by (nonlinear_arith)
            requires
                rows == 0,
        ;
    }
    let n = planes * rows;
    assert(cols * n == planes * rows * cols) by (nonlinear_arith)
        requires
            n == planes * rows,
    ;
    vstd::arithmetic::div_mod::lemma_multiply_divide_lt(j, cols, n);
    vstd::arithmetic::div_mod::lemma_div_pos_is_pos(j, cols);
    let q = j / cols;
    assert(rows * planes == n) by (nonlinear_arith)
        requires
            n == planes * rows,
    ;
    vstd::arithmetic::div_mod::lemma_multiply_divide_lt(q, rows, planes);
    vstd::arithmetic::div_mod::lemma_div_pos_is_pos(q, rows);
    vstd::arithmetic::div_mod::lemma_mod_division_less_than_divisor(q, rows);
    vstd::arithmetic::div_mod::lemma_mod_division_less_than_divisor(j, cols);
}

/// The sample at plane `p`, row `r` and column `c` stands at the position of
/// the data whose coordinates are `p`, `r` and `c`.
pub proof fn lemma_flat_index_coordinates(rows: int, cols: int, p: int, r: int, c: int)
    requires
        0 <= p,
        0 <= r < rows,
        0 <= c < cols,
    ensures
        (flat_index(rows, cols, p, r, c) / cols) / rows == p,
        (flat_index(rows, cols, p, r, c) / cols) % rows == r,
        flat_index(rows, cols, p, r, c) % cols == c,
{
    let q = p * rows + r;
    let j = q * cols + c;
    vstd::arithmetic::div_mod::lemma_fundamental_div_mod_converse(j, cols, q, c);
    vstd::arithmetic::div_mod::lemma_fundamental_div_mod_converse(q, rows, p, r);
}

impl Image {
    /// The data holds one sample for each position.
    pub open spec fn wf(&self) -> bool {
        self.data@.len() == self.planes * self.rows * self.cols
    }

    /// The sample at plane `p`, row `r` and column `c`.
    pub open spec fn at(&self, p: int, r: int, c: int) -> i64 {
        self.data@[flat_index(self.rows as int, self.cols as int, p, r, c)]
    }

    /// The three lengths, outermost first.
    pub open spec fn shape(&self) -> Seq<usize> {
        seq![self.planes, self.rows, self.cols]
    }

    /// An image of `planes` planes from its samples.
    ///
    /// Fails if `data` does not hold `planes * rows * cols` samples; the error
    /// names that number, or `usize::MAX` if it is greater than that.
    pub fn from_stack(planes: usize, rows: usize, cols: usize, data: Vec<i64>) -> (res: Result<
        Image,
        ImgalError,
    >)
        ensures
            data@.len() == planes * rows * cols ==> (res matches Ok(img) && img.wf() && img.planes
                == planes && img.rows == rows && img.cols == cols && img.data@ == data@),
            data@.len() != planes * rows * cols ==> (res matches Err(
                ImgalError::InvalidArrayLength { arr_name, expected, got },
            ) && got == data@.len() && expected == (if planes * rows * cols <= usize::MAX {
                (planes * rows * cols) as usize
            } else {
                usize::MAX
            }) && arr_name@ == "data"@),
    {
        let expected: usize = match planes.checked_mul(rows) {
            Some(pr) => match pr.checked_mul(cols) {
                Some(n) => n,
                None => usize::MAX,
            },
            None => {
                proof {
                    if cols > 0 {
                        assert(planes * rows * cols >= planes * rows) by (nonlinear_arith)
                            requires
                                planes * rows >= 0,
                                cols >= 1,
                        ;
                    }
                }
                if cols == 0 {
                    0
                } else {
                    usize::MAX
                }
            },
        };
        proof {
            if cols == 0 {
                assert(planes * rows * cols == 0) by (nonlinear_arith)
                    requires
                        cols == 0,
                ;
            }
        }
        if data.len() != expected || (expected == usize::MAX && !Self::exact(
            planes,
            rows,
            cols,
            expected,
        )) {
            return Err(
                ImgalError::InvalidArrayLength { arr_name: "data", expected, got: data.len() },
            );
        }
        Ok(Image { planes, rows, cols, data })
    }

    /// Whether `n` is the product of the three lengths.
    fn exact(planes: usize, rows: usize, cols: usize, n: usize) -> (res: bool)
        ensures
            res == (n == planes * rows * cols),
    {
        match planes.checked_mul(rows) {
            Some(pr) => match pr.checked_mul(cols) {
                Some(m) => m == n,
                None => false,
            },
            None => {
                proof {
                    if cols > 0 {
                        assert(planes * rows * cols >= planes * rows) by (nonlinear_arith)
                            requires
                                planes * rows >= 0,
                                cols >= 1,
                        ;
                    } else {
                        assert(planes * rows * cols == 0) by (nonlinear_arith)
                            requires
                                cols == 0,
                        ;
                    }
                }
                cols == 0 && n == 0
            },
        }
    }

    /// An image of two dimensions from its samples.
    ///
    /// Fails if `data` does not hold `rows * cols` samples.
    pub fn from_plane(rows: usize, cols: usize, data: Vec<i64>) -> (res: Result<Image, ImgalError>)
        ensures
            data@.len() == rows * cols ==> (res matches Ok(img) && img.wf() && img.planes == 1
                && img.rows == rows && img.cols == cols && img.data@ == data@),
            data@.len() != rows * cols ==> (res matches Err(
                ImgalError::InvalidArrayLength { arr_name, expected, got },
            ) && got == data@.len() && expected == (if rows * cols <= usize::MAX {
                (rows * cols) as usize
            } else {
                usize::MAX
            }) && arr_name@ == "data"@),
    {
        assert(1 * rows * cols == rows * cols) by (nonlinear_arith);
        Image::from_stack(1, rows, cols, data)
    }

    /// The sample at plane `p`, row `r` and column `c`.
    pub fn get(&self, p: usize, r: usize, c: usize) -> (v: i64)
        requires
            self.wf(),
            p < self.planes,
            r < self.rows,
            c < self.cols,
        ensures
            v == self.at(p as int, r as int, c as int),
    {
        let len: usize = self.data.len();
        proof {
            let planes = self.planes as int;
            let rows = self.rows as int;
            let cols = self.cols as int;
            lemma_flat_index_bounds(planes, rows, cols, p as int, r as int, c as int);
            assert(planes * rows <= planes * rows * cols) by (nonlinear_arith)
                requires
                    planes * rows >= 0,
                    cols >= 1,
            ;
            assert(0 <= p * rows <= p * rows + r) by (nonlinear_arith)
                requires
                    p >= 0,
                    rows >= 0,
                    r >= 0,
            ;
            assert(0 <= (p * rows + r) * cols) by (nonlinear_arith)
                requires
                    p * rows + r >= 0,
                    cols >= 1,
            ;
            assert(len == planes * rows * cols);
        }
        let row_index: usize = p * self.rows + r;
        self.data[row_index * self.cols + c]
    }

    /// Whether the two images have the same three lengths.
    pub fn same_shape(&self, other: &Image) -> (same: bool)
        ensures
            same == (self.shape() == other.shape()),
    {
        proof {
            if self.shape() == other.shape() {
                assert(self.shape()[0] == other.shape()[0]);
                assert(self.shape()[1] == other.shape()[1]);
                assert(self.shape()[2] == other.shape()[2]);
            }
        }
        self.planes == other.planes && self.rows == other.rows && self.cols == other.cols
    }
}

} // verus!
