//! Explainability: the kinds of attention and feature-importance maps.

use vstd::prelude::*;
use crate::window::axis_count;

verus! {

/// Type of explainability visualization.
#[derive(Debug, Clone, Copy, PartialEq, Eq, Structural)]
pub enum ExplainMethod {
    /// Gradient-weighted Class Activation Mapping.
    GradCam,
    /// Simple pixel saliency (input gradient magnitude).
    Saliency,
    /// Occlusion sensitivity (mask regions and observe confidence drop).
    Occlusion,
}

/// The origins `(x, y)` of the patches in the row at `y = row * stride`, one per column.
pub open spec fn patch_row(cols: nat, stride: int, row: int) -> Seq<(usize, usize)> {
    Seq::new(cols, |i: int| ((i * stride) as usize, (row * stride) as usize))
}

/// The origins of the patches in rows `0` up to `rows`, row after row.
pub open spec fn patch_rows(cols: nat, stride: int, rows: int) -> Seq<(usize, usize)>
    decreases rows,
{
    if rows <= 0 {
        seq![]
    } else {
        patch_rows(cols, stride, rows - 1) + patch_row(cols, stride, rows - 1)
    }
}

/// The square patches of side `patch_size` that an occlusion pass blanks out, one at a
/// time, over an image of `width x height` pixels: rows at `y = 0, stride, 2 * stride, ...`
/// and, in each row, columns at `x = 0, stride, ...`, as long as the whole patch fits in
/// the image; the origins `(x, y)` row after row, left to right.
pub open spec fn spec_occlusion_patches(width: int, height: int, patch_size: int, stride: int) -> Seq<
    (usize, usize),
> {
    patch_rows(axis_count(width, patch_size, stride), stride, axis_count(height, patch_size, stride) as int)
}

/// The number of patch positions along one axis.
fn axis_patches(len: usize, patch_size: usize, stride: usize) -> (r: usize)
    requires
        len >= patch_size ==> stride > 0 && len + stride <= usize::MAX,
    ensures
        r == axis_count(len as int, patch_size as int, stride as int),
        r > 0 ==> (r - 1) * stride + patch_size <= len,
{
    if len >= patch_size {
        assert((len - patch_size) / (stride as int) <= len - patch_size) by (nonlinear_arith)
            requires
                stride > 0,
                len >= patch_size,
        ;
        assert(((len - patch_size) / (stride as int)) * stride <= len - patch_size) by (nonlinear_arith)
            requires
                stride > 0,
                len >= patch_size,
        ;
        (len - patch_size) / stride + 1
    } else {
        0
    }
}

/// The patches of an occlusion-sensitivity pass over an image of `width x height` pixels:
/// the origin `(x, y)` of each `patch_size x patch_size` patch, stepping by `stride` in
/// both directions while the patch fits, row after row.
///
/// Where a patch fits in the height, the stride has to be positive: with a zero stride the
/// pass would never move on. The positions the pass steps through, up to one stride past
/// the last patch along each axis on which a patch fits, are `usize` values.
pub fn occlusion_patches(width: usize, height: usize, patch_size: usize, stride: usize) -> (r: Vec<
    (usize, usize),
>)
    requires
        patch_size <= height ==> stride > 0 && height + stride <= usize::MAX,
        patch_size <= height && patch_size <= width ==> width + stride <= usize::MAX,
    ensures
        r@ == spec_occlusion_patches(width as int, height as int, patch_size as int, stride as int),
{
    let mut patches: Vec<(usize, usize)> = Vec::new();
    let rows = axis_patches(height, patch_size, stride);
    if rows == 0 {
        return patches;
    }
    let cols = axis_patches(width, patch_size, stride);
    let mut j: usize = 0;
    while j < rows
        invariant
            0 <= j <= rows,
            rows == axis_count(height as int, patch_size as int, stride as int),
            cols == axis_count(width as int, patch_size as int, stride as int),
            (rows - 1) * stride + patch_size <= height,
            cols > 0 ==> (cols - 1) * stride + patch_size <= width,
            patches@ == patch_rows(cols as nat, stride as int, j as int),
        decreases rows - j,
    {
        assert(j * stride <= (rows - 1) * stride) by (nonlinear_arith)
            requires
                j < rows,
        ;
        let y = j * stride;
        let mut i: usize = 0;
        while i < cols
            invariant
                0 <= i <= cols,
                j < rows,
                y == j * stride,
                cols > 0 ==> (cols - 1) * stride + patch_size <= width,
                patches@ == patch_rows(cols as nat, stride as int, j as int) + patch_row(
                    cols as nat,
                    stride as int,
                    j as int,
                ).take(i as int),
            decreases cols - i,
        {
            assert(i * stride <= (cols - 1) * stride) by (nonlinear_arith)
                requires
                    i < cols,
            ;
            let x = i * stride;
            patches.push((x, y));
            proof {
                let pr = patch_row(cols as nat, stride as int, j as int);
                assert(pr.take(i + 1) =~= pr.take(i as int).push((x, y)));
            }
            i = i + 1;
        }
        proof {
            let pr = patch_row(cols as nat, stride as int, j as int);
            assert(pr.take(cols as int) =~= pr);
        }
        j = j + 1;
    }
    patches
}

/// Every occlusion patch lies inside the image: for each origin `(x, y)` that
/// `occlusion_patches` yields, `x + patch_size <= width` and `y + patch_size <= height`.
pub proof fn lemma_occlusion_patches_inside(width: usize, height: usize, patch_size: usize, stride: usize, k: int)
    requires
        patch_size <= height ==> stride > 0,
        0 <= k < spec_occlusion_patches(width as int, height as int, patch_size as int, stride as int).len(),
    ensures
        spec_occlusion_patches(width as int, height as int, patch_size as int, stride as int)[k].0
            + patch_size <= width,
        spec_occlusion_patches(width as int, height as int, patch_size as int, stride as int)[k].1
            + patch_size <= height,
{
    let rows = axis_count(height as int, patch_size as int, stride as int);
    lemma_patch_rows_inside(width, height, patch_size, stride, rows as int, k);
}

proof fn lemma_patch_rows_inside(width: usize, height: usize, patch_size: usize, stride: usize, rows: int, k: int)
    requires
        patch_size <= height ==> stride > 0,
        0 <= rows <= axis_count(height as int, patch_size as int, stride as int),
        0 <= k < patch_rows(axis_count(width as int, patch_size as int, stride as int), stride as int, rows).len(),
    ensures
        patch_rows(axis_count(width as int, patch_size as int, stride as int), stride as int, rows)[k].0
            + patch_size <= width,
        patch_rows(axis_count(width as int, patch_size as int, stride as int), stride as int, rows)[k].1
            + patch_size <= height,
    decreases rows,
{
    let cols = axis_count(width as int, patch_size as int, stride as int);
    let s = stride as int;
    let p = patch_size as int;
    if rows > 0 {
        let g = patch_rows(cols, s, rows - 1);
        let pr = patch_row(cols, s, rows - 1);
        assert(patch_rows(cols, s, rows) == g + pr);
        if k < g.len() {
            lemma_patch_rows_inside(width, height, patch_size, stride, rows - 1, k);
        } else {
            let i = k - g.len();
            let j = rows - 1;
            assert(height >= patch_size);
            assert(j * s <= height - p) by (nonlinear_arith)
                requires
                    s > 0,
                    0 <= j,
                    j < (height - p) / s + 1,
                    height >= p,
            ;
            assert(width >= patch_size);
            assert(i * s <= width - p) by (nonlinear_arith)
                requires
                    s > 0,
                    0 <= i,
                    i < (width - p) / s + 1,
                    width >= p,
            ;
            assert(0 <= i * s) by (nonlinear_arith)
                requires
                    s > 0,
                    0 <= i,
            ;
            assert(0 <= j * s) by (nonlinear_arith)
                requires
                    s > 0,
                    0 <= j,
            ;
            assert(pr[i] == ((i * s) as usize, (j * s) as usize));
        }
    }
}

/// Whether the patch with origin `(x, y)` covers the pixel at `(row, col)`.
pub open spec fn patch_covers(origin: (usize, usize), patch_size: int, row: int, col: int) -> bool {
    &&& origin.1 <= row < origin.1 + patch_size
    &&& origin.0 <= col < origin.0 + patch_size
}

/// The number of patches among `patches` that cover the pixel at `(row, col)`.
pub open spec fn cover_count(patches: Seq<(usize, usize)>, patch_size: int, row: int, col: int) -> nat
    decreases patches.len(),
{
    if patches.len() == 0 {
        0
    } else {
        cover_count(patches.drop_last(), patch_size, row, col) + if patch_covers(
            patches.last(),
            patch_size,
            row,
            col,
        ) {
            1nat
        } else {
            0nat
        }
    }
}

/// Along one axis, the number of the first `n` patch positions `0, stride, 2 * stride, ...`
/// whose patch covers position `pos`.
pub open spec fn axis_cover(n: nat, stride: int, patch_size: int, pos: int) -> nat
    decreases n,
{
    if n == 0 {
        0
    } else {
        axis_cover((n - 1) as nat, stride, patch_size, pos) + if (n - 1) * stride <= pos < (n - 1)
            * stride + patch_size {
            1nat
        } else {
            0nat
        }
    }
}

proof fn lemma_cover_concat(a: Seq<(usize, usize)>, b: Seq<(usize, usize)>, patch_size: int, row: int, col: int)
    ensures
        cover_count(a + b, patch_size, row, col) == cover_count(a, patch_size, row, col) + cover_count(
            b,
            patch_size,
            row,
            col,
        ),
    decreases b.len(),
{
    if b.len() == 0 {
        assert(a + b =~= a);
    } else {
        assert((a + b).drop_last() =~= a + b.drop_last());
        assert((a + b).last() == b.last());
        lemma_cover_concat(a, b.drop_last(), patch_size, row, col);
    }
}

proof fn lemma_cover_row(cols: nat, stride: int, j: int, patch_size: int, row: int, col: int)
    requires
        stride >= 0,
        0 <= j * stride <= usize::MAX,
        cols > 0 ==> (cols - 1) * stride <= usize::MAX,
    ensures
        cover_count(patch_row(cols, stride, j), patch_size, row, col) == if j * stride <= row < j
            * stride + patch_size {
            axis_cover(cols, stride, patch_size, col)
        } else {
            0
        },
    decreases cols,
{
    if cols > 0 {
        let pr = patch_row(cols, stride, j);
        assert(pr.drop_last() =~= patch_row((cols - 1) as nat, stride, j));
        assert(cols - 1 > 0 ==> (cols - 2) * stride <= (cols - 1) * stride) by (nonlinear_arith)
            requires
                stride >= 0,
        ;
        assert(0 <= (cols - 1) * stride) by (nonlinear_arith)
            requires
                stride >= 0,
                cols > 0,
        ;
        lemma_cover_row((cols - 1) as nat, stride, j, patch_size, row, col);
        assert(pr.last() == (((cols - 1) * stride) as usize, (j * stride) as usize));
    }
}

/// The patches that cover a pixel are those whose row covers its row and whose column
/// covers its column.
proof fn lemma_cover_grid(cols: nat, stride: int, rows: int, patch_size: int, row: int, col: int)
    requires
        stride >= 0,
        rows >= 0,
        rows > 0 ==> (rows - 1) * stride <= usize::MAX,
        cols > 0 ==> (cols - 1) * stride <= usize::MAX,
    ensures
        cover_count(patch_rows(cols, stride, rows), patch_size, row, col) == axis_cover(
            rows as nat,
            stride,
            patch_size,
            row,
        ) * axis_cover(cols, stride, patch_size, col),
    decreases rows,
{
    if rows > 0 {
        assert(rows - 1 > 0 ==> (rows - 2) * stride <= (rows - 1) * stride) by (nonlinear_arith)
            requires
                stride >= 0,
        ;
        assert(0 <= (rows - 1) * stride) by (nonlinear_arith)
            requires
                stride >= 0,
                rows > 0,
        ;
        lemma_cover_grid(cols, stride, rows - 1, patch_size, row, col);
        lemma_cover_concat(
            patch_rows(cols, stride, rows - 1),
            patch_row(cols, stride, rows - 1),
            patch_size,
            row,
            col,
        );
        lemma_cover_row(cols, stride, rows - 1, patch_size, row, col);
        let a = axis_cover((rows - 1) as nat, stride, patch_size, row);
        let t: int = if (rows - 1) * stride <= row < (rows - 1) * stride + patch_size {
            1
        } else {
            0
        };
        let c = axis_cover(cols, stride, patch_size, col);
        assert(patch_rows(cols, stride, rows) == patch_rows(cols, stride, rows - 1) + patch_row(
            cols,
            stride,
            rows - 1,
        ));
        assert(axis_cover(rows as nat, stride, patch_size, row) == a + t);
        assert(a * c + t * c == (a + t) * c) by (nonlinear_arith);
    } else {
        assert(patch_rows(cols, stride, rows).len() == 0);
        assert(axis_cover(rows as nat, stride, patch_size, row) == 0);
        assert(0 * axis_cover(cols, stride, patch_size, col) == 0);
    }
}

proof fn lemma_axis_cover_bound(n: nat, stride: int, patch_size: int, pos: int)
    requires
        stride > 0,
        pos >= 0,
    ensures
        axis_cover(n, stride, patch_size, pos) <= n,
        axis_cover(n, stride, patch_size, pos) <= pos + 1,
    decreases n,
{
    if n > 0 {
        lemma_axis_cover_bound((n - 1) as nat, stride, patch_size, pos);
        assert(n - 1 <= (n - 1) * stride) by (nonlinear_arith)
            requires
                stride > 0,
                n > 0,
        ;
    }
}

/// Along one axis, how many of the `n` patch positions cover position `pos`.
fn axis_cover_count(n: usize, stride: usize, patch_size: usize, pos: usize) -> (r: usize)
    requires
        n > 0 ==> (n - 1) * stride + patch_size <= usize::MAX,
    ensures
        r == axis_cover(n as nat, stride as int, patch_size as int, pos as int),
{
    let mut count: usize = 0;
    let mut j: usize = 0;
    while j < n
        invariant
            0 <= j <= n,
            count <= j,
            n > 0 ==> (n - 1) * stride + patch_size <= usize::MAX,
            count == axis_cover(j as nat, stride as int, patch_size as int, pos as int),
        decreases n - j,
    {
        assert(j * stride <= (n - 1) * stride) by (nonlinear_arith)
            requires
                j < n,
        ;
        let start = j * stride;
        if start <= pos && pos < start + patch_size {
            count = count + 1;
        }
        j = j + 1;
    }
    count
}

/// How many patches of an occlusion pass cover each pixel: row `row`, column `col` of the
/// result holds the number of patches of `occlusion_patches` (same arguments) that cover
/// the pixel at `(row, col)`.
///
/// The arguments are held to what `occlusion_patches` asks, and the image to at most
/// `usize::MAX` pixels.
pub fn occlusion_cover_counts(width: usize, height: usize, patch_size: usize, stride: usize) -> (r: Vec<
    Vec<usize>,
>)
    requires
        patch_size <= height ==> stride > 0 && height + stride <= usize::MAX,
        patch_size <= height && patch_size <= width ==> width + stride <= usize::MAX,
        height * width <= usize::MAX,
    ensures
        r@.len() == height,
        forall|row: int| 0 <= row < height ==> (#[trigger] r@[row])@.len() == width,
        forall|row: int, col: int|
            0 <= row < height && 0 <= col < width ==> (#[trigger] r@[row]@[col]) == cover_count(
                spec_occlusion_patches(width as int, height as int, patch_size as int, stride as int),
                patch_size as int,
                row,
                col,
            ),
{
    let ghost patches = spec_occlusion_patches(
        width as int,
        height as int,
        patch_size as int,
        stride as int,
    );
    let rows = axis_patches(height, patch_size, stride);
    let cols = if rows > 0 {
        axis_patches(width, patch_size, stride)
    } else {
        0
    };
    proof {
        if rows > 0 {
            assert(cols == axis_count(width as int, patch_size as int, stride as int));
            assert((rows - 1) * stride <= usize::MAX);
            assert(cols > 0 ==> (cols - 1) * stride <= usize::MAX);
            assert(patches == patch_rows(cols as nat, stride as int, rows as int));
            assert forall|row: int, col: int| 0 <= row < height && 0 <= col < width implies cover_count(
                patches,
                patch_size as int,
                row,
                col,
            ) == axis_cover(rows as nat, stride as int, patch_size as int, row) * axis_cover(
                cols as nat,
                stride as int,
                patch_size as int,
                col,
            ) by {
                lemma_cover_grid(cols as nat, stride as int, rows as int, patch_size as int, row, col);
            }
        } else {
            assert(patches == patch_rows(
                axis_count(width as int, patch_size as int, stride as int),
                stride as int,
                0,
            ));
            assert(patches =~= Seq::<(usize, usize)>::empty());
        }
    }
    let mut counts: Vec<Vec<usize>> = Vec::new();
    let mut row: usize = 0;
    while row < height
        invariant
            0 <= row <= height,
            height * width <= usize::MAX,
            rows == axis_count(height as int, patch_size as int, stride as int),
            rows > 0 ==> (rows - 1) * stride + patch_size <= height,
            rows > 0 ==> cols == axis_count(width as int, patch_size as int, stride as int),
            rows == 0 ==> cols == 0,
            cols > 0 ==> (cols - 1) * stride + patch_size <= width,
            rows > 0 ==> stride > 0,
            rows > 0 ==> forall|row: int, col: int|
                0 <= row < height && 0 <= col < width ==> cover_count(
                    patches,
                    patch_size as int,
                    row,
                    col,
                ) == axis_cover(rows as nat, stride as int, patch_size as int, row) * axis_cover(
                    cols as nat,
                    stride as int,
                    patch_size as int,
                    col,
                ),
            rows == 0 ==> patches.len() == 0,
            counts@.len() == row,
            forall|i: int| 0 <= i < row ==> (#[trigger] counts@[i])@.len() == width,
            forall|i: int, col: int|
                0 <= i < row && 0 <= col < width ==> (#[trigger] counts@[i]@[col]) == cover_count(
                    patches,
                    patch_size as int,
                    i,
                    col,
                ),
        decreases height - row,
    {
        let cy = if rows > 0 {
            axis_cover_count(rows, stride, patch_size, row)
        } else {
            0
        };
        proof {
            if rows > 0 {
                lemma_axis_cover_bound(rows as nat, stride as int, patch_size as int, row as int);
            }
        }
        let mut line: Vec<usize> = Vec::new();
        let mut col: usize = 0;
        while col < width
            invariant
                0 <= col <= width,
                row < height,
                height * width <= usize::MAX,
                cy <= row + 1,
                rows > 0 ==> cy == axis_cover(rows as nat, stride as int, patch_size as int, row as int),
                rows > 0 ==> cols == axis_count(width as int, patch_size as int, stride as int),
                rows == 0 ==> cols == 0 && cy == 0,
                cols > 0 ==> (cols - 1) * stride + patch_size <= width,
                rows > 0 ==> stride > 0,
                rows > 0 ==> forall|row: int, col: int|
                    0 <= row < height && 0 <= col < width ==> cover_count(
                        patches,
                        patch_size as int,
                        row,
                        col,
                    ) == axis_cover(rows as nat, stride as int, patch_size as int, row) * axis_cover(
                        cols as nat,
                        stride as int,
                        patch_size as int,
                        col,
                    ),
                rows == 0 ==> patches.len() == 0,
                line@.len() == col,
                forall|c: int| 0 <= c < col ==> (#[trigger] line@[c]) == cover_count(
                    patches,
                    patch_size as int,
                    row as int,
                    c,
                ),
            decreases width - col,
        {
            let cx = if cols > 0 {
                axis_cover_count(cols, stride, patch_size, col)
            } else {
                0
            };
            proof {
                if cols > 0 {
                    lemma_axis_cover_bound(cols as nat, stride as int, patch_size as int, col as int);
                }
                assert(cy * cx <= height * width) by (nonlinear_arith)
                    requires
                        cy <= row + 1,
                        row < height,
                        cx <= col + 1,
                        col < width,
                ;
            }
            let n = cy * cx;
            proof {
                if rows > 0 && cols == 0 {
                    assert(axis_cover(0, stride as int, patch_size as int, col as int) == 0);
                }
                if rows == 0 {
                    assert(cover_count(patches, patch_size as int, row as int, col as int) == 0);
                }
            }
            line.push(n);
            col = col + 1;
        }
        counts.push(line);
        row = row + 1;
    }
    counts
}


proof fn lemma_patch_rows_at(cols: nat, stride: int, rows: int, i: int, j: int)
    requires
        0 <= j < rows,
        0 <= i < cols,
    ensures
        patch_rows(cols, stride, rows).len() == cols * rows,
        0 <= j * cols + i < patch_rows(cols, stride, rows).len(),
        patch_rows(cols, stride, rows)[j * cols + i] == patch_row(cols, stride, j)[i],
    decreases rows,
{
    let g = patch_rows(cols, stride, rows - 1);
    let pr = patch_row(cols, stride, rows - 1);
    assert(patch_rows(cols, stride, rows) == g + pr);
    if rows - 1 > 0 && j < rows - 1 {
        lemma_patch_rows_at(cols, stride, rows - 1, i, j);
    } else if rows - 1 > 0 {
        lemma_patch_rows_at(cols, stride, rows - 1, i, 0);
    }
    assert(g.len() == cols * (rows - 1)) by {
        if rows - 1 == 0 {
            assert(g.len() == 0);
        }
    }
    assert(cols * (rows - 1) + cols == cols * rows) by (nonlinear_arith);
    assert(j * cols + i < rows * cols && rows * cols == cols * rows) by (nonlinear_arith)
        requires
            0 <= j < rows,
            0 <= i < cols,
    ;
    assert(0 <= j * cols) by (nonlinear_arith)
        requires
            0 <= j,
    ;
    if j == rows - 1 {
        assert(j * cols == cols * (rows - 1)) by (nonlinear_arith)
            requires
                j == rows - 1,
        ;
    }
}

/// Every grid position at which a patch fits is occluded: for `i, j >= 0` with
/// `i * stride + patch_size <= width` and `j * stride + patch_size <= height`, the patch at
/// `(i * stride, j * stride)` is among those that `occlusion_patches` yields.
pub proof fn lemma_occlusion_patches_complete(width: usize, height: usize, patch_size: usize, stride: usize, i: int, j: int)
    requires
        stride > 0,
        0 <= i,
        0 <= j,
        i * stride + patch_size <= width,
        j * stride + patch_size <= height,
    ensures
        spec_occlusion_patches(width as int, height as int, patch_size as int, stride as int).contains(
            ((i * stride) as usize, (j * stride) as usize),
        ),
{
    let s = stride as int;
    let p = patch_size as int;
    let cols = axis_count(width as int, p, s);
    let rows = axis_count(height as int, p, s);
    assert(0 <= i * s && 0 <= j * s) by (nonlinear_arith)
        requires
            s > 0,
            0 <= i,
            0 <= j,
    ;
    assert(i <= (width - p) / s) by (nonlinear_arith)
        requires
            s > 0,
            0 <= i,
            i * s <= width - p,
    ;
    assert(j <= (height - p) / s) by (nonlinear_arith)
        requires
            s > 0,
            0 <= j,
            j * s <= height - p,
    ;
    lemma_patch_rows_at(cols, s, rows as int, i, j);
    let ps = spec_occlusion_patches(width as int, height as int, p, s);
    assert(ps[j * cols + i] == ((i * s) as usize, (j * s) as usize));
}
} // verus!
