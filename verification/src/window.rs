//! Sliding window: the grid of overlapping tiles that a large image is cut into.

use vstd::prelude::*;

verus! {

/// Configuration for sliding window extraction.
#[derive(Debug, Clone, Copy, PartialEq, Eq, Structural)]
pub struct WindowConfig {
    /// Tile width in pixels.
    pub tile_width: usize,
    /// Tile height in pixels.
    pub tile_height: usize,
    /// Overlap in pixels (stride = tile_size - overlap).
    pub overlap: usize,
}

/// The number of tile positions along an axis of length `image`: a tile of length `tile`
/// starts at `0, stride, 2 * stride, ...` as long as it fits.
pub open spec fn axis_count(image: int, tile: int, stride: int) -> nat {
    if image >= tile {
        ((image - tile) / stride + 1) as nat
    } else {
        0
    }
}

impl WindowConfig {
    /// The horizontal stride, `tile_width - overlap`.
    pub open spec fn spec_stride_x(self) -> int {
        self.tile_width - self.overlap
    }

    /// The vertical stride, `tile_height - overlap`.
    pub open spec fn spec_stride_y(self) -> int {
        self.tile_height - self.overlap
    }

    /// The number of tile columns over an image `width` pixels wide.
    pub open spec fn cols(self, width: int) -> nat {
        axis_count(width, self.tile_width as int, self.spec_stride_x())
    }

    /// The number of tile rows over an image `height` pixels high.
    pub open spec fn rows(self, height: int) -> nat {
        axis_count(height, self.tile_height as int, self.spec_stride_y())
    }

    /// Square tiles of side `tile_size` that overlap by `overlap` pixels.
    pub fn new(tile_size: usize, overlap: usize) -> (r: Self)
        ensures
            r.tile_width == tile_size,
            r.tile_height == tile_size,
            r.overlap == overlap,
    {
        Self { tile_width: tile_size, tile_height: tile_size, overlap }
    }

    /// Compute the stride (step size).
    pub fn stride_x(&self) -> (r: usize)
        requires
            self.overlap <= self.tile_width,
        ensures
            r == self.spec_stride_x(),
    {
        self.tile_width - self.overlap
    }

    pub fn stride_y(&self) -> (r: usize)
        requires
            self.overlap <= self.tile_height,
        ensures
            r == self.spec_stride_y(),
    {
        self.tile_height - self.overlap
    }
}

/// The number of tile positions along one axis.
fn axis_tiles(image: usize, tile: usize, stride: usize) -> (r: usize)
    requires
        image >= tile ==> 0 < stride <= tile,
    ensures
        r == axis_count(image as int, tile as int, stride as int),
{
    if image >= tile {
        assert((image - tile) / (stride as int) <= image - tile) by (nonlinear_arith)
            requires
                stride > 0,
                image >= tile,
        ;
        assert((image - tile) / (stride as int) < image);
        (image - tile) / stride + 1
    } else {
        0
    }
}

/// Compute number of tiles that will be generated.
pub fn tile_count(img_width: usize, img_height: usize, config: &WindowConfig) -> (r: usize)
    requires
        img_width >= config.tile_width ==> config.overlap < config.tile_width,
        img_height >= config.tile_height ==> config.overlap < config.tile_height,
        config.cols(img_width as int) * config.rows(img_height as int) <= usize::MAX,
    ensures
        r == config.cols(img_width as int) * config.rows(img_height as int),
{
    let cols = if img_width >= config.tile_width {
        axis_tiles(img_width, config.tile_width, config.stride_x())
    } else {
        0
    };
    let rows = if img_height >= config.tile_height {
        axis_tiles(img_height, config.tile_height, config.stride_y())
    } else {
        0
    };
    cols * rows
}

/// The origins `(x, y)` of the tiles in row `row`, one per column.
pub open spec fn row_origins(config: WindowConfig, cols: nat, row: int) -> Seq<(usize, usize)> {
    Seq::new(
        cols,
        |i: int| ((i * config.spec_stride_x()) as usize, (row * config.spec_stride_y()) as usize),
    )
}

/// The origins of the tiles in rows `0` up to `rows`, row after row.
pub open spec fn grid_origins(config: WindowConfig, cols: nat, rows: int) -> Seq<(usize, usize)>
    decreases rows,
{
    if rows <= 0 {
        seq![]
    } else {
        grid_origins(config, cols, rows - 1) + row_origins(config, cols, rows - 1)
    }
}

/// The origins `(x, y)` of the windows that cover an image of `img_width x img_height`
/// pixels: rows at `y = 0, stride_y, ...` and, in each row, columns at `x = 0, stride_x, ...`,
/// as long as the whole tile fits in the image; row after row, left to right.
pub open spec fn spec_tile_origins(img_width: int, img_height: int, config: WindowConfig) -> Seq<
    (usize, usize),
> {
    grid_origins(config, config.cols(img_width), config.rows(img_height) as int)
}

/// What `tile_origins` needs: both strides are defined, and positive wherever a tile fits.
pub open spec fn windows_defined(img_width: int, img_height: int, config: WindowConfig) -> bool {
    &&& config.overlap <= config.tile_width
    &&& config.overlap <= config.tile_height
    &&& img_height >= config.tile_height ==> config.overlap < config.tile_height
    &&& img_height >= config.tile_height && img_width >= config.tile_width ==> config.overlap
        < config.tile_width
}

proof fn lemma_grid_origins_len(config: WindowConfig, cols: nat, rows: int)
    requires
        rows >= 0,
    ensures
        grid_origins(config, cols, rows).len() == cols * rows,
    decreases rows,
{
    if rows > 0 {
        lemma_grid_origins_len(config, cols, rows - 1);
        let g = grid_origins(config, cols, rows - 1);
        let ro = row_origins(config, cols, rows - 1);
        assert(grid_origins(config, cols, rows) == g + ro);
        assert(ro.len() == cols);
        assert(g.len() == cols * (rows - 1));
        assert((g + ro).len() == g.len() + ro.len());
        assert(cols * (rows - 1) + cols == cols * rows) by (nonlinear_arith);
    } else {
        assert(cols * rows == 0) by (nonlinear_arith)
            requires
                rows == 0,
        ;
    }
}

/// The positions of the windows of a sliding-window extraction over an image of the given
/// size: the origin of each tile, row after row.
pub fn tile_origins(img_width: usize, img_height: usize, config: &WindowConfig) -> (r: Vec<
    (usize, usize),
>)
    requires
        windows_defined(img_width as int, img_height as int, *config),
    ensures
        r@ == spec_tile_origins(img_width as int, img_height as int, *config),
{
    let stride_y = config.stride_y();
    let stride_x = config.stride_x();
    let rows = if img_height >= config.tile_height {
        axis_tiles(img_height, config.tile_height, stride_y)
    } else {
        0
    };
    let cols = if img_height >= config.tile_height && img_width >= config.tile_width {
        axis_tiles(img_width, config.tile_width, stride_x)
    } else {
        0
    };
    let ghost gcols = config.cols(img_width as int);
    let mut origins: Vec<(usize, usize)> = Vec::new();
    if rows == 0 {
        return origins;
    }
    assert(cols == gcols);
    assert((rows - 1) * stride_y <= img_height - config.tile_height) by (nonlinear_arith)
        requires
            stride_y > 0,
            img_height >= config.tile_height,
            rows == (img_height - config.tile_height) / (stride_y as int) + 1,
    ;
    assert(cols > 0 ==> (cols - 1) * stride_x <= img_width - config.tile_width) by (nonlinear_arith)
        requires
            cols > 0 ==> stride_x > 0 && img_width >= config.tile_width && cols == (img_width
                - config.tile_width) / (stride_x as int) + 1,
    ;
    let mut j: usize = 0;
    while j < rows
        invariant
            0 <= j <= rows,
            rows == config.rows(img_height as int),
            cols == gcols,
            gcols == config.cols(img_width as int),
            stride_x == config.spec_stride_x(),
            stride_y == config.spec_stride_y(),
            rows > 0 ==> (rows - 1) * stride_y <= img_height - config.tile_height,
            cols > 0 ==> (cols - 1) * stride_x <= img_width - config.tile_width,
            origins@ == grid_origins(*config, gcols, j as int),
        decreases rows - j,
    {
        assert(j * stride_y <= (rows - 1) * stride_y) by (nonlinear_arith)
            requires
                j < rows,
        ;
        let y = j * stride_y;
        let mut i: usize = 0;
        while i < cols
            invariant
                0 <= i <= cols,
                j < rows,
                y == j * stride_y,
                cols == gcols,
                stride_x == config.spec_stride_x(),
                stride_y == config.spec_stride_y(),
                cols > 0 ==> (cols - 1) * stride_x <= img_width - config.tile_width,
                origins@ == grid_origins(*config, gcols, j as int) + row_origins(
                    *config,
                    gcols,
                    j as int,
                ).take(i as int),
            decreases cols - i,
        {
            assert(i * stride_x <= (cols - 1) * stride_x) by (nonlinear_arith)
                requires
                    i < cols,
            ;
            let x = i * stride_x;
            origins.push((x, y));
            proof {
                let ro = row_origins(*config, gcols, j as int);
                assert(ro.take(i + 1) =~= ro.take(i as int).push((x, y)));
                assert(origins@ =~= grid_origins(*config, gcols, j as int) + ro.take(i + 1));
            }
            i = i + 1;
        }
        proof {
            let ro = row_origins(*config, gcols, j as int);
            assert(ro.take(cols as int) =~= ro);
        }
        j = j + 1;
    }
    origins
}

/// The sliding window yields as many tiles as `tile_count` counts: for every image size and
/// configuration on which both are defined, `tile_origins` has `tile_count` elements.
pub proof fn lemma_tile_origins_count(img_width: usize, img_height: usize, config: WindowConfig)
    requires
        windows_defined(img_width as int, img_height as int, config),
        img_width >= config.tile_width ==> config.overlap < config.tile_width,
    ensures
        spec_tile_origins(img_width as int, img_height as int, config).len() == config.cols(
            img_width as int,
        ) * config.rows(img_height as int),
{
    lemma_grid_origins_len(config, config.cols(img_width as int), config.rows(img_height as int) as int);
}


/// Every window lies inside the image: for each origin `(x, y)` that `tile_origins` yields,
/// `x + tile_width <= img_width` and `y + tile_height <= img_height`.
pub proof fn lemma_tile_origins_inside(img_width: usize, img_height: usize, config: WindowConfig, k: int)
    requires
        windows_defined(img_width as int, img_height as int, config),
        0 <= k < spec_tile_origins(img_width as int, img_height as int, config).len(),
    ensures
        spec_tile_origins(img_width as int, img_height as int, config)[k].0 + config.tile_width
            <= img_width,
        spec_tile_origins(img_width as int, img_height as int, config)[k].1 + config.tile_height
            <= img_height,
{
    let cols = config.cols(img_width as int);
    let rows = config.rows(img_height as int);
    lemma_grid_origins_len(config, cols, rows as int);
    lemma_grid_origins_inside(img_width, img_height, config, rows as int, k);
}

proof fn lemma_grid_origins_inside(img_width: usize, img_height: usize, config: WindowConfig, rows: int, k: int)
    requires
        windows_defined(img_width as int, img_height as int, config),
        0 <= rows <= config.rows(img_height as int),
        0 <= k < grid_origins(config, config.cols(img_width as int), rows).len(),
    ensures
        grid_origins(config, config.cols(img_width as int), rows)[k].0 + config.tile_width
            <= img_width,
        grid_origins(config, config.cols(img_width as int), rows)[k].1 + config.tile_height
            <= img_height,
    decreases rows,
{
    let cols = config.cols(img_width as int);
    if rows > 0 {
        let g = grid_origins(config, cols, rows - 1);
        let ro = row_origins(config, cols, rows - 1);
        assert(grid_origins(config, cols, rows) == g + ro);
        if k < g.len() {
            lemma_grid_origins_inside(img_width, img_height, config, rows - 1, k);
        } else {
            let i = k - g.len();
            let sx = config.spec_stride_x();
            let sy = config.spec_stride_y();
            let j = rows - 1;
            assert(img_height >= config.tile_height);
            assert(j * sy <= img_height - config.tile_height) by (nonlinear_arith)
                requires
                    sy > 0,
                    0 <= j,
                    j < (img_height - config.tile_height) / sy + 1,
                    img_height >= config.tile_height,
            ;
            assert(img_width >= config.tile_width);
            assert(i * sx <= img_width - config.tile_width) by (nonlinear_arith)
                requires
                    sx > 0,
                    0 <= i,
                    i < (img_width - config.tile_width) / sx + 1,
                    img_width >= config.tile_width,
            ;
            assert(0 <= i * sx) by (nonlinear_arith)
                requires
                    sx > 0,
                    0 <= i,
            ;
            assert(0 <= j * sy) by (nonlinear_arith)
                requires
                    sy > 0,
                    0 <= j,
            ;
            assert(ro[i] == ((i * sx) as usize, (j * sy) as usize));
        }
    }
}

proof fn lemma_grid_origins_at(config: WindowConfig, cols: nat, rows: int, i: int, j: int)
    requires
        0 <= j < rows,
        0 <= i < cols,
    ensures
        0 <= j * cols + i < grid_origins(config, cols, rows).len(),
        grid_origins(config, cols, rows)[j * cols + i] == row_origins(config, cols, j)[i],
    decreases rows,
{
    lemma_grid_origins_len(config, cols, rows - 1);
    lemma_grid_origins_len(config, cols, rows);
    let g = grid_origins(config, cols, rows - 1);
    let ro = row_origins(config, cols, rows - 1);
    assert(grid_origins(config, cols, rows) == g + ro);
    assert(j * cols + i < rows * cols) by (nonlinear_arith)
        requires
            0 <= j < rows,
            0 <= i < cols,
    ;
    assert(0 <= j * cols) by (nonlinear_arith)
        requires
            0 <= j,
    ;
    if j < rows - 1 {
        lemma_grid_origins_at(config, cols, rows - 1, i, j);
    } else {
        assert(j * cols == cols * (rows - 1)) by (nonlinear_arith)
            requires
                j == rows - 1,
        ;
        assert(g.len() == cols * (rows - 1));
    }
}

/// The windows are exactly the grid positions that fit: `(x, y)` is among the origins that
/// `tile_origins` yields if and only if `x = i * stride_x` and `y = j * stride_y` for some
/// `i, j >= 0` with `x + tile_width <= img_width` and `y + tile_height <= img_height`.
pub proof fn lemma_tile_origins_are_fitting_grid_points(
    img_width: usize,
    img_height: usize,
    config: WindowConfig,
    i: int,
    j: int,
)
    requires
        windows_defined(img_width as int, img_height as int, config),
        config.overlap < config.tile_width,
        0 <= i,
        0 <= j,
    ensures
        i * config.spec_stride_x() + config.tile_width <= img_width && j * config.spec_stride_y()
            + config.tile_height <= img_height ==> spec_tile_origins(
            img_width as int,
            img_height as int,
            config,
        ).contains(((i * config.spec_stride_x()) as usize, (j * config.spec_stride_y()) as usize)),
        forall|k: int|
            0 <= k < spec_tile_origins(img_width as int, img_height as int, config).len() ==> {
                let o = #[trigger] spec_tile_origins(img_width as int, img_height as int, config)[k];
                &&& o.0 as int % config.spec_stride_x() == 0
                &&& o.1 as int % config.spec_stride_y() == 0
                &&& o.0 + config.tile_width <= img_width
                &&& o.1 + config.tile_height <= img_height
            },
{
    let sx = config.spec_stride_x();
    let sy = config.spec_stride_y();
    let cols = config.cols(img_width as int);
    let rows = config.rows(img_height as int);
    let tw = config.tile_width as int;
    let th = config.tile_height as int;
    if i * sx + tw <= img_width && j * sy + th <= img_height {
        assert(0 <= i * sx && 0 <= j * sy) by (nonlinear_arith)
            requires
                sx > 0,
                0 <= i,
                0 <= j,
                sy >= 0,
        ;
        assert(img_height >= th);
        assert(sy > 0);
        assert(i <= (img_width - tw) / sx) by (nonlinear_arith)
            requires
                sx > 0,
                0 <= i,
                i * sx <= img_width - tw,
        ;
        assert(j <= (img_height - th) / sy) by (nonlinear_arith)
            requires
                sy > 0,
                0 <= j,
                j * sy <= img_height - th,
        ;
        lemma_grid_origins_at(config, cols, rows as int, i, j);
        let s = spec_tile_origins(img_width as int, img_height as int, config);
        assert(s[j * cols + i] == ((i * sx) as usize, (j * sy) as usize));
    }
    assert forall|k: int| 0 <= k < spec_tile_origins(img_width as int, img_height as int, config).len() implies {
        let o = #[trigger] spec_tile_origins(img_width as int, img_height as int, config)[k];
        &&& o.0 as int % sx == 0
        &&& o.1 as int % sy == 0
        &&& o.0 + config.tile_width <= img_width
        &&& o.1 + config.tile_height <= img_height
    } by {
        lemma_tile_origins_inside(img_width, img_height, config, k);
        lemma_grid_origins_len(config, cols, rows as int);
        lemma_grid_origins_aligned(img_width, img_height, config, rows as int, k);
    }
}

proof fn lemma_grid_origins_aligned(img_width: usize, img_height: usize, config: WindowConfig, rows: int, k: int)
    requires
        windows_defined(img_width as int, img_height as int, config),
        config.overlap < config.tile_width,
        0 <= rows <= config.rows(img_height as int),
        0 <= k < grid_origins(config, config.cols(img_width as int), rows).len(),
    ensures
        grid_origins(config, config.cols(img_width as int), rows)[k].0 as int % config.spec_stride_x() == 0,
        grid_origins(config, config.cols(img_width as int), rows)[k].1 as int % config.spec_stride_y() == 0,
    decreases rows,
{
    let cols = config.cols(img_width as int);
    if rows > 0 {
        let g = grid_origins(config, cols, rows - 1);
        let ro = row_origins(config, cols, rows - 1);
        assert(grid_origins(config, cols, rows) == g + ro);
        if k < g.len() {
            lemma_grid_origins_aligned(img_width, img_height, config, rows - 1, k);
        } else {
            let i = k - g.len();
            let sx = config.spec_stride_x();
            let sy = config.spec_stride_y();
            let j = rows - 1;
            assert(img_height >= config.tile_height);
            assert(j * sy <= img_height - config.tile_height) by (nonlinear_arith)
                requires
                    sy > 0,
                    0 <= j,
                    j < (img_height - config.tile_height) / sy + 1,
                    img_height >= config.tile_height,
            ;
            assert(img_width >= config.tile_width);
            assert(i * sx <= img_width - config.tile_width) by (nonlinear_arith)
                requires
                    sx > 0,
                    0 <= i,
                    i < (img_width - config.tile_width) / sx + 1,
                    img_width >= config.tile_width,
            ;
            assert(0 <= i * sx && (i * sx) % sx == 0) by (nonlinear_arith)
                requires
                    sx > 0,
                    0 <= i,
            ;
            assert(0 <= j * sy && (j * sy) % sy == 0) by (nonlinear_arith)
                requires
                    sy > 0,
                    0 <= j,
            ;
            assert(ro[i] == ((i * sx) as usize, (j * sy) as usize));
        }
    }
}
} // verus!
