//! Class masks: two-dimensional grids of class indices, held in an `ndarray` array.

use vstd::prelude::*;
use ndarray::Array2;

verus! {

/// A segmentation mask: a `rows x cols` grid of class indices.
///
/// The cells are held in an `ndarray::Array2<u8>`; Verus sees the grid only through
/// `mask_shape` and `mask_cells`, which the methods below speak of.
#[verifier::external_body]
pub struct SegmentationMask {
    array: Array2<u8>,
}

/// The product of the nonzero axis lengths of a `rows x cols` shape: ndarray holds an
/// array of that shape only when this is at most `isize::MAX`.
pub open spec fn nonzero_product(rows: int, cols: int) -> int {
    (if rows == 0 {
        1
    } else {
        rows
    }) * (if cols == 0 {
        1
    } else {
        cols
    })
}

/// The cells of a mask in row-major order: cell `(y, x)` is at `y * cols + x`.
pub uninterp spec fn mask_cells(m: SegmentationMask) -> Seq<u8>;

/// The number of rows and columns of a mask.
pub uninterp spec fn mask_shape(m: SegmentationMask) -> (nat, nat);

/// The row-major index of cell `q = (y, x)` in a grid `w` cells wide.
pub open spec fn rank(w: int, q: (int, int)) -> int {
    q.0 * w + q.1
}

pub proof fn lemma_rank_bounds(h: int, w: int, q: (int, int))
    requires
        0 <= q.0 < h,
        0 <= q.1 < w,
    ensures
        0 <= rank(w, q) < h * w,
{
    assert(0 <= q.0 * w + q.1 < h * w) by (nonlinear_arith)
        requires
            0 <= q.0 < h,
            0 <= q.1 < w,
    ;
}

pub proof fn lemma_rank_injective(w: int, a: (int, int), b: (int, int))
    requires
        0 <= a.0,
        0 <= b.0,
        0 <= a.1 < w,
        0 <= b.1 < w,
        rank(w, a) == rank(w, b),
    ensures
        a == b,
{
    if a.0 < b.0 {
        assert(a.0 * w + a.1 < b.0 * w) by (nonlinear_arith)
            requires
                a.0 < b.0,
                0 <= a.1 < w,
        ;
    } else if b.0 < a.0 {
        assert(b.0 * w + b.1 < a.0 * w) by (nonlinear_arith)
            requires
                b.0 < a.0,
                0 <= b.1 < w,
        ;
    }
}


impl SegmentationMask {
    pub open spec fn rows(self) -> nat {
        mask_shape(self).0
    }

    pub open spec fn cols(self) -> nat {
        mask_shape(self).1
    }

    /// The class of cell `(y, x)`.
    pub open spec fn cell(self, y: int, x: int) -> u8 {
        mask_cells(self)[y * self.cols() + x]
    }

    /// `Array2::zeros((rows, cols))`: a mask of the given shape whose cells all hold 0.
    /// ndarray panics when the product of the nonzero axis lengths exceeds `isize::MAX`,
    /// which `requires` rules out.
    #[verifier::external_body]
    pub fn zeros(rows: usize, cols: usize) -> (r: Self)
        requires
            nonzero_product(rows as int, cols as int) <= isize::MAX,
        ensures
            mask_shape(r) == (rows as nat, cols as nat),
            mask_cells(r) == Seq::new((rows * cols) as nat, |i: int| 0u8),
    {
        SegmentationMask { array: Array2::zeros((rows, cols)) }
    }

    /// `Array2::from_shape_vec((rows, cols), cells)`: the mask whose row-major cells are `cells`.
    /// ndarray accepts a vector whose length is `rows * cols` for a shape whose nonzero axis
    /// lengths have a product of at most `isize::MAX`.
    #[verifier::external_body]
    pub fn from_cells(rows: usize, cols: usize, cells: Vec<u8>) -> (r: Self)
        requires
            cells.len() == rows * cols,
            nonzero_product(rows as int, cols as int) <= isize::MAX,
        ensures
            mask_shape(r) == (rows as nat, cols as nat),
            mask_cells(r) == cells@,
    {
        SegmentationMask { array: Array2::from_shape_vec((rows, cols), cells).unwrap() }
    }

    /// `ArrayBase::shape`: the number of rows and columns. The product of the nonzero axis
    /// lengths of an ndarray array is at most `isize::MAX`.
    #[verifier::external_body]
    pub fn dims(&self) -> (r: (usize, usize))
        ensures
            r.0 == self.rows(),
            r.1 == self.cols(),
            mask_cells(*self).len() == r.0 * r.1,
            nonzero_product(r.0 as int, r.1 as int) <= isize::MAX,
            r.0 * r.1 <= isize::MAX,
    {
        let s = self.array.shape();
        (s[0], s[1])
    }

    /// Indexing with `[[y, x]]`: the class of cell `(y, x)`.
    #[verifier::external_body]
    pub fn get(&self, y: usize, x: usize) -> (r: u8)
        requires
            y < self.rows(),
            x < self.cols(),
        ensures
            r == self.cell(y as int, x as int),
    {
        self.array[[y, x]]
    }

    /// Assignment through `[[y, x]]`: cell `(y, x)` becomes `v`, every other cell stays.
    #[verifier::external_body]
    pub fn set(&mut self, y: usize, x: usize, v: u8)
        requires
            y < old(self).rows(),
            x < old(self).cols(),
        ensures
            mask_shape(*final(self)) == mask_shape(*old(self)),
            mask_cells(*final(self)) == mask_cells(*old(self)).update(
                y * old(self).cols() + x,
                v,
            ),
    {
        self.array[[y, x]] = v;
    }

    /// `ArrayBase::iter` collected: the cells in row-major order.
    #[verifier::external_body]
    pub fn to_cells(&self) -> (r: Vec<u8>)
        ensures
            r@ == mask_cells(*self),
    {
        self.array.iter().copied().collect()
    }
}

/// The nearest source cell of target cell `t` when a `rows x cols` grid is resized to
/// `new_rows x new_cols`: `(t.0 * rows / new_rows, t.1 * cols / new_cols)`.
pub open spec fn nearest_source(
    t: (int, int),
    rows: int,
    cols: int,
    new_rows: int,
    new_cols: int,
) -> (int, int) {
    (t.0 * rows / new_rows, t.1 * cols / new_cols)
}

/// Resize a mask to `new_h x new_w` cells (nearest neighbour): each cell takes the class of
/// its nearest source cell.
pub fn resize_mask(mask: &SegmentationMask, new_h: usize, new_w: usize) -> (r: SegmentationMask)
    requires
        nonzero_product(new_h as int, new_w as int) <= isize::MAX,
        new_h > 0 && new_w > 0 ==> mask.rows() > 0 && mask.cols() > 0,
        new_h > 0 && new_w > 0 ==> (new_h - 1) * mask.rows() <= usize::MAX,
        new_h > 0 && new_w > 0 ==> (new_w - 1) * mask.cols() <= usize::MAX,
    ensures
        mask_shape(r) == (new_h as nat, new_w as nat),
        forall|y: int, x: int|
            0 <= y < new_h && 0 <= x < new_w ==> {
                let s = nearest_source((y, x), mask.rows() as int, mask.cols() as int, new_h as int, new_w as int);
                #[trigger] r.cell(y, x) == mask.cell(s.0, s.1)
            },
{
    let (h, w) = mask.dims();
    let mut result = SegmentationMask::zeros(new_h, new_w);
    let mut y: usize = 0;
    while y < new_h
        invariant
            y <= new_h,
            h == mask.rows(),
            w == mask.cols(),
            mask_shape(result) == (new_h as nat, new_w as nat),
            mask_cells(result).len() == new_h * new_w,
            new_h > 0 && new_w > 0 ==> h > 0 && w > 0,
            new_h > 0 && new_w > 0 ==> (new_h - 1) * h <= usize::MAX,
            new_h > 0 && new_w > 0 ==> (new_w - 1) * w <= usize::MAX,
            forall|yy: int, xx: int|
                0 <= yy < y && 0 <= xx < new_w ==> {
                    let s = nearest_source((yy, xx), h as int, w as int, new_h as int, new_w as int);
                    #[trigger] result.cell(yy, xx) == mask.cell(s.0, s.1)
                },
        decreases new_h - y,
    {
        let mut x: usize = 0;
        while x < new_w
            invariant
                x <= new_w,
                y < new_h,
                h == mask.rows(),
                w == mask.cols(),
                mask_shape(result) == (new_h as nat, new_w as nat),
                mask_cells(result).len() == new_h * new_w,
                new_h > 0 && new_w > 0 ==> h > 0 && w > 0,
                new_h > 0 && new_w > 0 ==> (new_h - 1) * h <= usize::MAX,
                new_h > 0 && new_w > 0 ==> (new_w - 1) * w <= usize::MAX,
                forall|yy: int, xx: int|
                    (0 <= yy < y && 0 <= xx < new_w) || (yy == y && 0 <= xx < x) ==> {
                        let s = nearest_source((yy, xx), h as int, w as int, new_h as int, new_w as int);
                        #[trigger] result.cell(yy, xx) == mask.cell(s.0, s.1)
                    },
            decreases new_w - x,
        {
            assert(y * h <= (new_h - 1) * h) by (nonlinear_arith)
                requires
                    y < new_h,
            ;
            assert(x * w <= (new_w - 1) * w) by (nonlinear_arith)
                requires
                    x < new_w,
            ;
            let src_y = (y * h) / new_h;
            let src_x = (x * w) / new_w;
            assert(src_y < h) by (nonlinear_arith)
                requires
                    y < new_h,
                    h > 0,
                    src_y == (y * h) / (new_h as int),
            ;
            assert(src_x < w) by (nonlinear_arith)
                requires
                    x < new_w,
                    w > 0,
                    src_x == (x * w) / (new_w as int),
            ;
            let v = mask.get(src_y, src_x);
            let ghost before = result;
            proof {
                lemma_rank_bounds(new_h as int, new_w as int, (y as int, x as int));
            }
            result.set(y, x, v);
            proof {
                assert forall|yy: int, xx: int|
                    (0 <= yy < y && 0 <= xx < new_w) || (yy == y && 0 <= xx < x + 1) implies {
                        let s = nearest_source((yy, xx), h as int, w as int, new_h as int, new_w as int);
                        #[trigger] result.cell(yy, xx) == mask.cell(s.0, s.1)
                    } by {
                    if yy != y || xx != x {
                        lemma_rank_bounds(new_h as int, new_w as int, (yy, xx));
                        if rank(new_w as int, (yy, xx)) == rank(new_w as int, (y as int, x as int)) {
                            lemma_rank_injective(new_w as int, (yy, xx), (y as int, x as int));
                        }
                        assert(result.cell(yy, xx) == before.cell(yy, xx));
                    }
                }
            }
            x = x + 1;
        }
        y = y + 1;
    }
    result
}


/// Resizing a mask to its own size changes nothing: a mask related to `m` as `resize_mask`
/// relates its result to its input, with the shape of `m`, has the cells of `m`.
pub proof fn lemma_resize_same_size(m: SegmentationMask, r: SegmentationMask)
    requires
        mask_shape(r) == mask_shape(m),
        mask_cells(m).len() == m.rows() * m.cols(),
        mask_cells(r).len() == r.rows() * r.cols(),
        forall|y: int, x: int|
            0 <= y < m.rows() && 0 <= x < m.cols() ==> {
                let s = nearest_source((y, x), m.rows() as int, m.cols() as int, m.rows() as int, m.cols() as int);
                #[trigger] r.cell(y, x) == m.cell(s.0, s.1)
            },
    ensures
        mask_cells(r) == mask_cells(m),
{
    let h = m.rows() as int;
    let w = m.cols() as int;
    assert forall|k: int| 0 <= k < mask_cells(m).len() implies mask_cells(r)[k] == mask_cells(m)[k] by {
        let y = k / w;
        let x = k % w;
        vstd::arithmetic::div_mod::lemma_fundamental_div_mod(k, w);
        vstd::arithmetic::div_mod::lemma_mod_pos_bound(k, w);
        vstd::arithmetic::div_mod::lemma_div_pos_is_pos(k, w);
        assert(k == y * w + x) by (nonlinear_arith)
            requires
                k == w * y + x,
        ;
        assert(y < h) by (nonlinear_arith)
            requires
                k == y * w + x,
                0 <= x,
                k < h * w,
                w > 0,
        ;
        assert(y * h / h == y) by (nonlinear_arith)
            requires
                0 <= y < h,
        ;
        assert(x * w / w == x) by (nonlinear_arith)
            requires
                0 <= x < w,
        ;
        assert(r.cell(y, x) == m.cell(y, x));
    }
    assert(mask_cells(r) =~= mask_cells(m));
}

/// The source of each resized cell is the source cell that its position falls in when the
/// new grid is laid over the old one: for a target `(y, x)` of a `new_rows x new_cols`
/// grid, the source `(sy, sx)` is a cell of the `rows x cols` mask with
/// `sy * new_rows <= y * rows < (sy + 1) * new_rows`, and likewise across.
pub proof fn lemma_nearest_source_covers(y: int, x: int, rows: int, cols: int, new_rows: int, new_cols: int)
    requires
        rows > 0,
        cols > 0,
        0 <= y < new_rows,
        0 <= x < new_cols,
    ensures
        ({
            let s = nearest_source((y, x), rows, cols, new_rows, new_cols);
            &&& 0 <= s.0 < rows
            &&& 0 <= s.1 < cols
            &&& s.0 * new_rows <= y * rows < (s.0 + 1) * new_rows
            &&& s.1 * new_cols <= x * cols < (s.1 + 1) * new_cols
        }),
{
    let s = nearest_source((y, x), rows, cols, new_rows, new_cols);
    assert(0 <= s.0 < rows && s.0 * new_rows <= y * rows < (s.0 + 1) * new_rows) by (nonlinear_arith)
        requires
            rows > 0,
            0 <= y < new_rows,
            s.0 == y * rows / new_rows,
    ;
    assert(0 <= s.1 < cols && s.1 * new_cols <= x * cols < (s.1 + 1) * new_cols) by (nonlinear_arith)
        requires
            cols > 0,
            0 <= x < new_cols,
            s.1 == x * cols / new_cols,
    ;
}
} // verus!
