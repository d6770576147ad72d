//! Polygonization: the connected regions of a class in a segmentation mask, each with its
//! pixel count and its bounding box.

use vstd::prelude::*;
use crate::grid::{SegmentationMask, rank, lemma_rank_bounds, lemma_rank_injective};

verus! {

/// Errors during polygonization.
#[derive(Debug, Clone, Copy, PartialEq, Eq, Structural)]
pub enum PolygonizeError {
    /// The mask has no rows or no columns.
    EmptyMask,
    /// The class id is not valid.
    InvalidClass(u8),
}

/// A 4-connected region of one class: its pixel count and the bounding box of its pixels
/// (inclusive pixel coordinates).
#[derive(Debug, Clone, Copy, PartialEq, Eq, Structural)]
pub struct PixelRegion {
    /// Class ID this region belongs to.
    pub class_id: u8,
    pub min_x: usize,
    pub min_y: usize,
    pub max_x: usize,
    pub max_y: usize,
    /// Number of pixels in the region.
    pub pixel_count: u64,
}

// ---------------------------------------------------------------------------
// Connectivity. A cell is `(y, x)`.
// ---------------------------------------------------------------------------

pub open spec fn in_grid(m: SegmentationMask, q: (int, int)) -> bool {
    0 <= q.0 < m.rows() && 0 <= q.1 < m.cols()
}

/// Cell `q` lies in the mask and holds class `c`.
pub open spec fn in_class(m: SegmentationMask, c: u8, q: (int, int)) -> bool {
    in_grid(m, q) && m.cell(q.0, q.1) == c
}

/// Two cells share an edge.
pub open spec fn adjacent(a: (int, int), b: (int, int)) -> bool {
    (a.0 == b.0 && (a.1 == b.1 + 1 || b.1 == a.1 + 1)) || (a.1 == b.1 && (a.0 == b.0 + 1 || b.0
        == a.0 + 1))
}

pub open spec fn path_step(path: Seq<(int, int)>, i: int) -> bool {
    adjacent(path[i], path[i + 1])
}

/// A path through cells of class `c`, each one adjacent to the next.
pub open spec fn is_path(m: SegmentationMask, c: u8, path: Seq<(int, int)>) -> bool {
    &&& path.len() > 0
    &&& forall|i: int| 0 <= i < path.len() ==> in_class(m, c, #[trigger] path[i])
    &&& forall|i: int| 0 <= i < path.len() - 1 ==> #[trigger] path_step(path, i)
}

/// Cells `a` and `b` are joined by a path of class-`c` cells.
pub open spec fn connected(m: SegmentationMask, c: u8, a: (int, int), b: (int, int)) -> bool {
    exists|path: Seq<(int, int)>| #[trigger] is_path(m, c, path) && path[0] == a && path.last() == b
}

/// The connected region of class `c` that contains `p`.
pub open spec fn component(m: SegmentationMask, c: u8, p: (int, int)) -> Set<(int, int)> {
    Set::new(|q: (int, int)| connected(m, c, p, q))
}

/// `a` comes before `b` in row-major order.
pub open spec fn before(a: (int, int), b: (int, int)) -> bool {
    a.0 < b.0 || (a.0 == b.0 && a.1 < b.1)
}

/// `p` is the first cell of its region in row-major order: the cell at which a row-major
/// scan discovers the region.
pub open spec fn is_leader(m: SegmentationMask, c: u8, p: (int, int)) -> bool {
    &&& in_class(m, c, p)
    &&& forall|q: (int, int)| #[trigger] connected(m, c, q, p) ==> !before(q, p)
}

/// `r` is the region of class `c` that contains `p`: its class, its pixel count and the
/// tightest box around its pixels.
pub open spec fn describes(r: PixelRegion, m: SegmentationMask, c: u8, p: (int, int)) -> bool {
    let s = component(m, c, p);
    &&& r.class_id == c
    &&& s.finite()
    &&& r.pixel_count == s.len()
    &&& forall|q: (int, int)|
        #[trigger] s.contains(q) ==> r.min_x <= q.1 <= r.max_x && r.min_y <= q.0 <= r.max_y
    &&& exists|q: (int, int)| #[trigger] s.contains(q) && q.1 == r.min_x
    &&& exists|q: (int, int)| #[trigger] s.contains(q) && q.1 == r.max_x
    &&& exists|q: (int, int)| #[trigger] s.contains(q) && q.0 == r.min_y
    &&& exists|q: (int, int)| #[trigger] s.contains(q) && q.0 == r.max_y
}

/// The region of class `c` that contains `p`.
pub open spec fn region_of(m: SegmentationMask, c: u8, p: (int, int)) -> PixelRegion {
    choose|r: PixelRegion| describes(r, m, c, p)
}

/// `r` is a region of class `c` of at least `min_pixels` pixels whose bounding box lies
/// inside the mask.
pub open spec fn region_within(r: PixelRegion, m: SegmentationMask, c: u8, min_pixels: u64) -> bool {
    &&& r.class_id == c
    &&& r.min_x <= r.max_x < m.cols()
    &&& r.min_y <= r.max_y < m.rows()
    &&& r.pixel_count >= min_pixels
    &&& r.pixel_count > 0
}

/// The region discovered at cell `p`, if `p` is the first cell of a region of class `c`
/// with at least `min_pixels` pixels.
pub open spec fn found_at(m: SegmentationMask, c: u8, min_pixels: u64, p: (int, int)) -> Seq<
    PixelRegion,
> {
    if is_leader(m, c, p) && component(m, c, p).len() >= min_pixels {
        seq![region_of(m, c, p)]
    } else {
        seq![]
    }
}

/// The regions discovered in row `y`, columns `0` up to `x`.
pub open spec fn scan_row(m: SegmentationMask, c: u8, min_pixels: u64, y: int, x: int) -> Seq<
    PixelRegion,
>
    decreases x,
{
    if x <= 0 {
        seq![]
    } else {
        scan_row(m, c, min_pixels, y, x - 1) + found_at(m, c, min_pixels, (y, x - 1))
    }
}

/// The regions discovered in rows `0` up to `y`.
pub open spec fn scan_rows(m: SegmentationMask, c: u8, min_pixels: u64, y: int) -> Seq<
    PixelRegion,
>
    decreases y,
{
    if y <= 0 {
        seq![]
    } else {
        scan_rows(m, c, min_pixels, y - 1) + scan_row(m, c, min_pixels, y - 1, m.cols() as int)
    }
}

/// The regions of class `c` with at least `min_pixels` pixels, in the row-major order of
/// their first cells; `EmptyMask` for a mask without rows or columns.
pub open spec fn spec_polygonize_class(m: SegmentationMask, c: u8, min_pixels: u64) -> Result<
    Seq<PixelRegion>,
    PolygonizeError,
> {
    if m.rows() == 0 || m.cols() == 0 {
        Err(PolygonizeError::EmptyMask)
    } else {
        Ok(scan_rows(m, c, min_pixels, m.rows() as int))
    }
}

// ---------------------------------------------------------------------------
// Lemmas on connectivity.
// ---------------------------------------------------------------------------

proof fn lemma_connected_refl(m: SegmentationMask, c: u8, a: (int, int))
    requires
        in_class(m, c, a),
    ensures
        connected(m, c, a, a),
{
    let path = seq![a];
    assert(is_path(m, c, path));
}

proof fn lemma_connected_ends(m: SegmentationMask, c: u8, a: (int, int), b: (int, int))
    requires
        connected(m, c, a, b),
    ensures
        in_class(m, c, a),
        in_class(m, c, b),
{
    let path = choose|path: Seq<(int, int)>| #[trigger]
        is_path(m, c, path) && path[0] == a && path.last() == b;
    assert(in_class(m, c, path[0]));
    assert(in_class(m, c, path[path.len() - 1]));
}

proof fn lemma_connected_step(m: SegmentationMask, c: u8, a: (int, int), b: (int, int), n: (int, int))
    requires
        connected(m, c, a, b),
        in_class(m, c, n),
        adjacent(b, n),
    ensures
        connected(m, c, a, n),
{
    let path = choose|path: Seq<(int, int)>| #[trigger]
        is_path(m, c, path) && path[0] == a && path.last() == b;
    let p2 = path.push(n);
    assert forall|i: int| 0 <= i < p2.len() implies in_class(m, c, #[trigger] p2[i]) by {
        if i < path.len() {
            assert(p2[i] == path[i]);
        }
    }
    assert forall|i: int| 0 <= i < p2.len() - 1 implies #[trigger] path_step(p2, i) by {
        if i < path.len() - 1 {
            assert(path_step(path, i));
        }
    }
    assert(is_path(m, c, p2));
}

proof fn lemma_connected_sym(m: SegmentationMask, c: u8, a: (int, int), b: (int, int))
    requires
        connected(m, c, a, b),
    ensures
        connected(m, c, b, a),
{
    let path = choose|path: Seq<(int, int)>| #[trigger]
        is_path(m, c, path) && path[0] == a && path.last() == b;
    let r = path.reverse();
    assert forall|i: int| 0 <= i < r.len() implies in_class(m, c, #[trigger] r[i]) by {
        assert(r[i] == path[path.len() - 1 - i]);
    }
    assert forall|i: int| 0 <= i < r.len() - 1 implies #[trigger] path_step(r, i) by {
        let j = path.len() - 2 - i;
        assert(path_step(path, j));
    }
    assert(is_path(m, c, r));
}

proof fn lemma_connected_trans(m: SegmentationMask, c: u8, a: (int, int), b: (int, int), d: (int, int))
    requires
        connected(m, c, a, b),
        connected(m, c, b, d),
    ensures
        connected(m, c, a, d),
{
    let p1 = choose|path: Seq<(int, int)>| #[trigger]
        is_path(m, c, path) && path[0] == a && path.last() == b;
    let p2 = choose|path: Seq<(int, int)>| #[trigger]
        is_path(m, c, path) && path[0] == b && path.last() == d;
    let p = p1 + p2.drop_first();
    assert forall|i: int| 0 <= i < p.len() implies in_class(m, c, #[trigger] p[i]) by {
        if i < p1.len() {
            assert(p[i] == p1[i]);
        } else {
            assert(p[i] == p2[i - p1.len() + 1]);
        }
    }
    assert forall|i: int| 0 <= i < p.len() - 1 implies #[trigger] path_step(p, i) by {
        if i < p1.len() - 1 {
            assert(path_step(p1, i));
        } else if i == p1.len() - 1 {
            assert(path_step(p2, 0));
        } else {
            assert(path_step(p2, i - p1.len() + 1));
        }
    }
    assert(is_path(m, c, p));
    if p2.len() == 1 {
        assert(p =~= p1);
    }
}

/// A set of cells that contains `a` and every class-`c` neighbour of its cells contains
/// every cell connected to `a`.
proof fn lemma_closed_contains(m: SegmentationMask, c: u8, s: Set<(int, int)>, a: (int, int), b: (int, int))
    requires
        s.contains(a),
        forall|q: (int, int), n: (int, int)|
            #![trigger s.contains(q), adjacent(q, n)]
            s.contains(q) && in_class(m, c, n) && adjacent(q, n) ==> s.contains(n),
        connected(m, c, a, b),
    ensures
        s.contains(b),
{
    let path = choose|path: Seq<(int, int)>| #[trigger]
        is_path(m, c, path) && path[0] == a && path.last() == b;
    lemma_closed_path(m, c, s, path, path.len() - 1);
}

proof fn lemma_closed_path(m: SegmentationMask, c: u8, s: Set<(int, int)>, path: Seq<(int, int)>, i: int)
    requires
        is_path(m, c, path),
        s.contains(path[0]),
        0 <= i < path.len(),
        forall|q: (int, int), n: (int, int)|
            #![trigger s.contains(q), adjacent(q, n)]
            s.contains(q) && in_class(m, c, n) && adjacent(q, n) ==> s.contains(n),
    ensures
        s.contains(path[i]),
    decreases i,
{
    if i > 0 {
        lemma_closed_path(m, c, s, path, i - 1);
        assert(path_step(path, i - 1));
        assert(in_class(m, c, path[i]));
    }
}

/// Two regions that both describe the region of `p` are equal.
proof fn lemma_describes_unique(r1: PixelRegion, r2: PixelRegion, m: SegmentationMask, c: u8, p: (int, int))
    requires
        describes(r1, m, c, p),
        describes(r2, m, c, p),
    ensures
        r1 == r2,
{
    let s = component(m, c, p);
    let a1 = choose|q: (int, int)| #[trigger] s.contains(q) && q.1 == r1.min_x;
    let a2 = choose|q: (int, int)| #[trigger] s.contains(q) && q.1 == r2.min_x;
    let b1 = choose|q: (int, int)| #[trigger] s.contains(q) && q.1 == r1.max_x;
    let b2 = choose|q: (int, int)| #[trigger] s.contains(q) && q.1 == r2.max_x;
    let c1 = choose|q: (int, int)| #[trigger] s.contains(q) && q.0 == r1.min_y;
    let c2 = choose|q: (int, int)| #[trigger] s.contains(q) && q.0 == r2.min_y;
    let d1 = choose|q: (int, int)| #[trigger] s.contains(q) && q.0 == r1.max_y;
    let d2 = choose|q: (int, int)| #[trigger] s.contains(q) && q.0 == r2.max_y;
    assert(r1.min_x == r2.min_x);
    assert(r1.max_x == r2.max_x);
    assert(r1.min_y == r2.min_y);
    assert(r1.max_y == r2.max_y);
}

// ---------------------------------------------------------------------------
// Counting visited cells, and the row-major index of a cell.
// ---------------------------------------------------------------------------

pub open spec fn count_true(s: Seq<bool>) -> nat
    decreases s.len(),
{
    if s.len() == 0 {
        0
    } else {
        count_true(s.drop_last()) + if s.last() {
            1nat
        } else {
            0nat
        }
    }
}

proof fn lemma_count_true_bound(s: Seq<bool>)
    ensures
        count_true(s) <= s.len(),
    decreases s.len(),
{
    if s.len() > 0 {
        lemma_count_true_bound(s.drop_last());
    }
}

proof fn lemma_count_true_set(s: Seq<bool>, i: int)
    requires
        0 <= i < s.len(),
        !s[i],
    ensures
        count_true(s.update(i, true)) == count_true(s) + 1,
    decreases s.len(),
{
    let t = s.update(i, true);
    if i == s.len() - 1 {
        assert(t.drop_last() =~= s.drop_last());
    } else {
        assert(t.drop_last() =~= s.drop_last().update(i, true));
        lemma_count_true_set(s.drop_last(), i);
    }
}

/// Whether cell `q` is marked in the row-major visited flags of a grid `w` cells wide.
pub open spec fn visited_at(vis: Seq<bool>, w: int, q: (int, int)) -> bool {
    vis[rank(w, q)]
}

/// The cells that a row-major scan has visited when it reaches `pos`: every cell
/// connected to a class cell before `pos`.
#[verifier::opaque]
pub open spec fn scanned(m: SegmentationMask, c: u8, pos: (int, int), q: (int, int)) -> bool {
    exists|l: (int, int)| #[trigger] connected(m, c, l, q) && before(l, pos)
}

/// A stack of cells, as `(y, x)` pairs.
pub open spec fn on_stack(stack: Seq<(usize, usize)>, n: (int, int)) -> bool {
    exists|i: int| 0 <= i < stack.len() && #[trigger] stack[i].0 == n.0 && stack[i].1 == n.1
}

pub open spec fn stack_cell(stack: Seq<(usize, usize)>, i: int) -> (int, int) {
    (stack[i].0 as int, stack[i].1 as int)
}


// ---------------------------------------------------------------------------
// Flood fill and scan.
// ---------------------------------------------------------------------------

/// Flood-fill the region of class `class_id` that contains the start cell, which is not
/// visited yet, marking its cells as visited; returns the region.
fn fill_region(
    mask: &SegmentationMask,
    class_id: u8,
    visited: &mut Vec<bool>,
    h: usize,
    w: usize,
    start_y: usize,
    start_x: usize,
) -> (r: PixelRegion)
    requires
        h == mask.rows(),
        w == mask.cols(),
        old(visited)@.len() == h * w,
        start_y < h,
        start_x < w,
        in_class(*mask, class_id, (start_y as int, start_x as int)),
        forall|q: (int, int)|
            in_grid(*mask, q) ==> (visited_at(old(visited)@, w as int, q) <==> scanned(
                *mask,
                class_id,
                (start_y as int, start_x as int),
                q,
            )),
        !visited_at(old(visited)@, w as int, (start_y as int, start_x as int)),
    ensures
        final(visited)@.len() == h * w,
        forall|q: (int, int)|
            in_grid(*mask, q) ==> (visited_at(final(visited)@, w as int, q) <==> (scanned(
                *mask,
                class_id,
                (start_y as int, start_x as int),
                q,
            ) || connected(*mask, class_id, (start_y as int, start_x as int), q))),
        describes(r, *mask, class_id, (start_y as int, start_x as int)),
{
    let ghost m = *mask;
    let ghost c = class_id;
    let ghost p = (start_y as int, start_x as int);
    let ghost wi = w as int;
    let ghost base = count_true(visited@);
    let mut stack: Vec<(usize, usize)> = Vec::new();
    stack.push((start_y, start_x));
    let mut min_x = start_x;
    let mut max_x = start_x;
    let mut min_y = start_y;
    let mut max_y = start_y;
    let mut pixel_count: u64 = 0;
    let ghost mut run: Set<(int, int)> = Set::empty();
    let ghost mut w_min_x = p;
    let ghost mut w_max_x = p;
    let ghost mut w_min_y = p;
    let ghost mut w_max_y = p;
    proof {
        lemma_count_true_bound(visited@);
    }
    while stack.len() > 0
        invariant
            h == m.rows(),
            w == m.cols(),
            wi == w,
            m == *mask,
            c == class_id,
            p == (start_y as int, start_x as int),
            in_class(m, c, p),
            !scanned(m, c, p, p),
            visited@.len() == h * w,
            forall|q: (int, int)|
                in_grid(m, q) ==> (visited_at(visited@, wi, q) <==> (scanned(m, c, p, q)
                    || run.contains(q))),
            forall|q: (int, int)| #[trigger] run.contains(q) ==> connected(m, c, p, q),
            run.finite(),
            pixel_count == run.len(),
            count_true(visited@) == base + run.len(),
            count_true(visited@) <= h * w,
            forall|i: int| 0 <= i < stack@.len() ==> #[trigger] stack@[i].0 < h && stack@[i].1 < w,
            forall|i: int|
                0 <= i < stack@.len() ==> #[trigger] stack_cell(stack@, i) == p || exists|q: (int, int)|
                    #[trigger] run.contains(q) && adjacent(q, stack_cell(stack@, i)),
            forall|q: (int, int), n: (int, int)|
                #![trigger run.contains(q), adjacent(q, n)]
                run.contains(q) && in_class(m, c, n) && adjacent(q, n) ==> visited_at(visited@, wi, n)
                    || on_stack(stack@, n),
            run.contains(p) || (run.len() == 0 && stack@ == seq![(start_y, start_x)]),
            forall|q: (int, int)|
                #[trigger] run.contains(q) ==> min_x <= q.1 <= max_x && min_y <= q.0 <= max_y,
            min_x <= start_x <= max_x,
            min_y <= start_y <= max_y,
            run.insert(p).contains(w_min_x) && w_min_x.1 == min_x,
            run.insert(p).contains(w_max_x) && w_max_x.1 == max_x,
            run.insert(p).contains(w_min_y) && w_min_y.0 == min_y,
            run.insert(p).contains(w_max_y) && w_max_y.0 == max_y,
        decreases h * w - count_true(visited@), stack@.len(),
    {
        let ghost old_stack = stack@;
        let ghost old_vis = visited@;
        let ghost old_run = run;
        let vlen = visited.len();
        let top = stack.pop().unwrap();
        let y = top.0;
        let x = top.1;
        let ghost t = (y as int, x as int);
        assert(stack_cell(old_stack, old_stack.len() - 1) == t);
        assert(old_stack[old_stack.len() - 1].0 < h);
        proof {
            lemma_rank_bounds(h as int, w as int, t);
        }
        assert(y * w + x < vlen);
        if y >= h || x >= w || visited[y * w + x] || mask.get(y, x) != class_id {
            proof {
                assert forall|q: (int, int), n: (int, int)|
                    #![trigger run.contains(q), adjacent(q, n)]
                    run.contains(q) && in_class(m, c, n) && adjacent(q, n) implies visited_at(
                        visited@,
                        wi,
                        n,
                    ) || on_stack(stack@, n) by {
                    if !visited_at(visited@, wi, n) {
                        assert(on_stack(old_stack, n));
                        let i = choose|i: int|
                            0 <= i < old_stack.len() && #[trigger] old_stack[i].0 == n.0
                                && old_stack[i].1 == n.1;
                        if i == old_stack.len() - 1 {
                            assert(n == t);
                            assert(false);
                        } else {
                            assert(stack@[i] == old_stack[i]);
                        }
                    }
                }
                assert forall|i: int|
                    0 <= i < stack@.len() implies #[trigger] stack_cell(stack@, i) == p || exists|
                        q: (int, int),
                    | #[trigger] run.contains(q) && adjacent(q, stack_cell(stack@, i)) by {
                    assert(stack@[i] == old_stack[i]);
                    assert(stack_cell(stack@, i) == stack_cell(old_stack, i));
                }
                assert forall|i: int| 0 <= i < stack@.len() implies #[trigger] stack@[i].0 < h
                    && stack@[i].1 < w by {
                    assert(stack@[i] == old_stack[i]);
                }
                if !run.contains(p) {
                    assert(t == p);
                    assert(false);
                }
            }
        } else {
            // `t` is a new cell of the region.
            proof {
                if t == p {
                    lemma_connected_refl(m, c, p);
                } else {
                    let q = choose|q: (int, int)|
                        #[trigger] run.contains(q) && adjacent(q, stack_cell(old_stack, old_stack.len() - 1));
                    lemma_connected_step(m, c, p, q, t);
                }
                assert(!run.contains(t));
                lemma_count_true_set(visited@, rank(wi, t));
            }
            visited.set(y * w + x, true);
            proof {
                run = run.insert(t);
                lemma_count_true_bound(visited@);
                assert(pixel_count + 1 <= vlen);
            }
            pixel_count = pixel_count + 1;
            if x < min_x {
                min_x = x;
                proof {
                    w_min_x = t;
                }
            }
            if x > max_x {
                max_x = x;
                proof {
                    w_max_x = t;
                }
            }
            if y < min_y {
                min_y = y;
                proof {
                    w_min_y = t;
                }
            }
            if y > max_y {
                max_y = y;
                proof {
                    w_max_y = t;
                }
            }
            let ghost mid_stack = stack@;
            let ghost mut pushed: Seq<(usize, usize)> = seq![];
            if y > 0 {
                stack.push((y - 1, x));
                proof {
                    pushed = pushed.push(((y - 1) as usize, x));
                }
            }
            if y + 1 < h {
                stack.push((y + 1, x));
                proof {
                    pushed = pushed.push(((y + 1) as usize, x));
                }
            }
            if x > 0 {
                stack.push((y, x - 1));
                proof {
                    pushed = pushed.push((y, (x - 1) as usize));
                }
            }
            if x + 1 < w {
                stack.push((y, x + 1));
                proof {
                    pushed = pushed.push((y, (x + 1) as usize));
                }
            }
            assert(stack@ =~= mid_stack + pushed);
            assert(x < w);
            assert forall|j: int| 0 <= j < pushed.len() implies #[trigger] pushed[j].0 < h
                && pushed[j].1 < w && adjacent(t, (pushed[j].0 as int, pushed[j].1 as int)) by {}
            proof {
                assert forall|q: (int, int)|
                    in_grid(m, q) implies (visited_at(visited@, wi, q) <==> (scanned(m, c, p, q)
                        || run.contains(q))) by {
                    lemma_rank_bounds(h as int, w as int, q);
                    if q != t {
                        if rank(wi, q) == rank(wi, t) {
                            lemma_rank_injective(wi, q, t);
                        }
                        assert(visited_at(visited@, wi, q) == visited_at(old_vis, wi, q));
                    }
                }
                // Every cell on the stack is the start or next to a cell of the region.
                assert forall|i: int|
                    0 <= i < stack@.len() implies #[trigger] stack_cell(stack@, i) == p || exists|
                        q: (int, int),
                    | #[trigger] run.contains(q) && adjacent(q, stack_cell(stack@, i)) by {
                    if i < mid_stack.len() {
                        assert(stack@[i] == old_stack[i]);
                        assert(stack_cell(stack@, i) == stack_cell(old_stack, i));
                        if stack_cell(old_stack, i) != p {
                            let q = choose|q: (int, int)|
                                #[trigger] old_run.contains(q) && adjacent(q, stack_cell(old_stack, i));
                            assert(run.contains(q));
                        }
                    } else {
                        assert(stack@[i] == pushed[i - mid_stack.len()]);
                        assert(run.contains(t));
                        assert(adjacent(t, stack_cell(stack@, i)));
                    }
                }
                assert forall|i: int| 0 <= i < stack@.len() implies #[trigger] stack@[i].0 < h
                    && stack@[i].1 < w by {
                    if i < mid_stack.len() {
                        assert(stack@[i] == old_stack[i]);
                    } else {
                        assert(stack@[i] == pushed[i - mid_stack.len()]);
                    }
                }
                // Every class neighbour of the region is visited or waits on the stack.
                assert forall|q: (int, int), n: (int, int)|
                    #![trigger run.contains(q), adjacent(q, n)]
                    run.contains(q) && in_class(m, c, n) && adjacent(q, n) implies visited_at(
                        visited@,
                        wi,
                        n,
                    ) || on_stack(stack@, n) by {
                    lemma_rank_bounds(h as int, w as int, n);
                    if n == t {
                    } else {
                        if rank(wi, n) == rank(wi, t) {
                            lemma_rank_injective(wi, n, t);
                        }
                        assert(visited_at(visited@, wi, n) == visited_at(old_vis, wi, n));
                        if q == t {
                            let k: int = if n.0 + 1 == t.0 {
                                0
                            } else if n.0 == t.0 + 1 {
                                if y > 0 { 1 } else { 0 }
                            } else if n.1 + 1 == t.1 {
                                (if y > 0 { 1int } else { 0int }) + (if y + 1 < h { 1int } else { 0int })
                            } else {
                                (if y > 0 { 1int } else { 0int }) + (if y + 1 < h { 1int } else { 0int })
                                    + (if x > 0 { 1int } else { 0int })
                            };
                            assert(stack@[mid_stack.len() + k].0 == n.0 && stack@[mid_stack.len() + k].1 == n.1);
                        } else if !visited_at(old_vis, wi, n) {
                            assert(old_run.contains(q));
                            assert(on_stack(old_stack, n));
                            let i = choose|i: int|
                                0 <= i < old_stack.len() && #[trigger] old_stack[i].0 == n.0
                                    && old_stack[i].1 == n.1;
                            if i == old_stack.len() - 1 {
                                assert(n == t);
                            } else {
                                assert(stack@[i] == old_stack[i]);
                            }
                        }
                    }
                }
            }
        }
    }
    proof {
        // The stack is empty: the visited cells of the region are closed under adjacency.
        assert(run.contains(p));
        assert forall|q: (int, int), n: (int, int)|
            #![trigger run.contains(q), adjacent(q, n)]
            run.contains(q) && in_class(m, c, n) && adjacent(q, n) implies run.contains(n) by {
            assert(!on_stack(stack@, n));
            lemma_connected_step(m, c, p, q, n);
            if scanned(m, c, p, n) {
                reveal(scanned);
                let l = choose|l: (int, int)| #[trigger] connected(m, c, l, n) && before(l, p);
                lemma_connected_sym(m, c, p, n);
                lemma_connected_trans(m, c, l, n, p);
                assert(scanned(m, c, p, p));
            }
        }
        assert forall|q: (int, int)| component(m, c, p).contains(q) <==> run.contains(q) by {
            if connected(m, c, p, q) {
                lemma_closed_contains(m, c, run, p, q);
            }
        }
        assert(component(m, c, p) =~= run);
        let r = PixelRegion { class_id, min_x, min_y, max_x, max_y, pixel_count };
        assert(run.contains(w_min_x));
        assert(run.contains(w_max_x));
        assert(run.contains(w_min_y));
        assert(run.contains(w_max_y));
        assert(describes(r, m, c, p));
        assert forall|q: (int, int)|
            in_grid(m, q) implies (visited_at(visited@, wi, q) <==> (scanned(m, c, p, q) || connected(
                m,
                c,
                p,
                q,
            ))) by {
            assert(run.contains(q) == connected(m, c, p, q));
        }
    }
    PixelRegion { class_id, min_x, min_y, max_x, max_y, pixel_count }
}

/// Moving the scan from `p` to the next cell of its row adds the cells connected to `p`.
proof fn lemma_scanned_next(m: SegmentationMask, c: u8, p: (int, int), q: (int, int))
    ensures
        scanned(m, c, (p.0, p.1 + 1), q) <==> (scanned(m, c, p, q) || connected(m, c, p, q)),
{
    reveal(scanned);
    if scanned(m, c, (p.0, p.1 + 1), q) {
        let l = choose|l: (int, int)| #[trigger] connected(m, c, l, q) && before(l, (p.0, p.1 + 1));
        if !before(l, p) {
            assert(l == p);
        }
    }
    if connected(m, c, p, q) {
        assert(before(p, (p.0, p.1 + 1)));
    }
}

/// At the end of a row, the scan goes on at the start of the next row.
proof fn lemma_scanned_row_end(m: SegmentationMask, c: u8, y: int, q: (int, int))
    ensures
        scanned(m, c, (y, m.cols() as int), q) <==> scanned(m, c, (y + 1, 0), q),
{
    reveal(scanned);
    if scanned(m, c, (y + 1, 0), q) {
        let l = choose|l: (int, int)| #[trigger] connected(m, c, l, q) && before(l, (y + 1, 0));
        lemma_connected_ends(m, c, l, q);
    }
    if scanned(m, c, (y, m.cols() as int), q) {
        let l = choose|l: (int, int)| #[trigger] connected(m, c, l, q) && before(l, (y, m.cols() as int));
        lemma_connected_ends(m, c, l, q);
    }
}

/// Extract the regions of a specific class from a segmentation mask.
///
/// A row-major scan finds each connected region (4-connectivity) of the class at its first
/// cell and flood-fills it; the regions with fewer than `min_pixels` pixels are dropped.
pub fn polygonize_class(mask: &SegmentationMask, class_id: u8, min_pixels: u64) -> (r: Result<
    Vec<PixelRegion>,
    PolygonizeError,
>)
    ensures
        match r {
            Ok(v) => spec_polygonize_class(*mask, class_id, min_pixels) == Ok::<
                Seq<PixelRegion>,
                PolygonizeError,
            >(v@),
            Err(e) => spec_polygonize_class(*mask, class_id, min_pixels) == Err::<
                Seq<PixelRegion>,
                PolygonizeError,
            >(e),
        },
        r is Ok ==> forall|k: int|
            0 <= k < r->Ok_0@.len() ==> region_within(#[trigger] r->Ok_0@[k], *mask, class_id, min_pixels),
{
    let (h, w) = mask.dims();
    if h == 0 || w == 0 {
        return Err(PolygonizeError::EmptyMask);
    }
    let ghost m = *mask;
    let ghost c = class_id;
    let ghost wi = w as int;
    let n = h * w;
    let mut visited: Vec<bool> = Vec::new();
    let mut i: usize = 0;
    while i < n
        invariant
            i <= n,
            visited@ == Seq::new(i as nat, |k: int| false),
        decreases n - i,
    {
        visited.push(false);
        i = i + 1;
        proof {
            assert(visited@ =~= Seq::new(i as nat, |k: int| false));
        }
    }
    proof {
        reveal(scanned);
        assert forall|q: (int, int)| in_grid(m, q) implies (visited_at(visited@, wi, q) <==> scanned(
            m,
            c,
            (0, 0),
            q,
        )) by {
            lemma_rank_bounds(h as int, w as int, q);
            if scanned(m, c, (0, 0), q) {
                let l = choose|l: (int, int)| #[trigger] connected(m, c, l, q) && before(l, (0, 0));
                lemma_connected_ends(m, c, l, q);
            }
        }
    }
    let mut features: Vec<PixelRegion> = Vec::new();
    let mut start_y: usize = 0;
    while start_y < h
        invariant
            h == m.rows(),
            w == m.cols(),
            wi == w,
            m == *mask,
            c == class_id,
            n == h * w,
            start_y <= h,
            visited@.len() == h * w,
            forall|q: (int, int)|
                in_grid(m, q) ==> (visited_at(visited@, wi, q) <==> scanned(
                    m,
                    c,
                    (start_y as int, 0),
                    q,
                )),
            features@ == scan_rows(m, c, min_pixels, start_y as int),
            forall|k: int|
                0 <= k < features@.len() ==> region_within(#[trigger] features@[k], m, c, min_pixels),
        decreases h - start_y,
    {
        let mut start_x: usize = 0;
        while start_x < w
            invariant
                h == m.rows(),
                w == m.cols(),
                wi == w,
                m == *mask,
                c == class_id,
                n == h * w,
                start_y < h,
                start_x <= w,
                visited@.len() == h * w,
                forall|q: (int, int)|
                    in_grid(m, q) ==> (visited_at(visited@, wi, q) <==> scanned(
                        m,
                        c,
                        (start_y as int, start_x as int),
                        q,
                    )),
                features@ == scan_rows(m, c, min_pixels, start_y as int) + scan_row(
                    m,
                    c,
                    min_pixels,
                    start_y as int,
                    start_x as int,
                ),
                forall|k: int|
                    0 <= k < features@.len() ==> region_within(#[trigger] features@[k], m, c, min_pixels),
            decreases w - start_x,
        {
            let ghost p = (start_y as int, start_x as int);
            proof {
                lemma_rank_bounds(h as int, w as int, p);
            }
            let ghost before_features = features@;
            if visited[start_y * w + start_x] || mask.get(start_y, start_x) != class_id {
                proof {
                    reveal(scanned);
                    assert(!is_leader(m, c, p)) by {
                        if in_class(m, c, p) {
                            assert(visited_at(visited@, wi, p));
                            let l = choose|l: (int, int)| #[trigger] connected(m, c, l, p) && before(l, p);
                        }
                    }
                    assert(found_at(m, c, min_pixels, p) =~= seq![]);
                    assert forall|q: (int, int)| in_grid(m, q) implies (visited_at(visited@, wi, q)
                        <==> scanned(m, c, (p.0, p.1 + 1), q)) by {
                        lemma_scanned_next(m, c, p, q);
                        if connected(m, c, p, q) {
                            lemma_connected_ends(m, c, p, q);
                            assert(visited_at(visited@, wi, p));
                            let l = choose|l: (int, int)| #[trigger] connected(m, c, l, p) && before(l, p);
                            lemma_connected_trans(m, c, l, p, q);
                        }
                    }
                }
            } else {
                let region = fill_region(mask, class_id, &mut visited, h, w, start_y, start_x);
                proof {
                    reveal(scanned);
                    assert(is_leader(m, c, p)) by {
                        assert forall|q: (int, int)| #[trigger] connected(m, c, q, p) implies !before(q, p) by {
                            if before(q, p) {
                                assert(scanned(m, c, p, p));
                            }
                        }
                    }
                    lemma_describes_unique(region, region_of(m, c, p), m, c, p);
                    assert forall|q: (int, int)| in_grid(m, q) implies (visited_at(visited@, wi, q)
                        <==> scanned(m, c, (p.0, p.1 + 1), q)) by {
                        lemma_scanned_next(m, c, p, q);
                    }
                }
                proof {
                    let s = component(m, c, p);
                    let qx = choose|q: (int, int)| #[trigger] s.contains(q) && q.1 == region.max_x;
                    let qy = choose|q: (int, int)| #[trigger] s.contains(q) && q.0 == region.max_y;
                    lemma_connected_ends(m, c, p, qx);
                    lemma_connected_ends(m, c, p, qy);
                    lemma_connected_refl(m, c, p);
                    assert(s.contains(p));
                    assert(region.min_x <= p.1 <= region.max_x);
                    assert(s.len() > 0);
                }
                if region.pixel_count >= min_pixels {
                    features.push(region);
                }
                proof {
                    assert(features@ =~= before_features + found_at(m, c, min_pixels, p));
                }
            }
            start_x = start_x + 1;
        }
        proof {
            assert forall|q: (int, int)| in_grid(m, q) implies (visited_at(visited@, wi, q)
                <==> scanned(m, c, (start_y + 1, 0), q)) by {
                lemma_scanned_row_end(m, c, start_y as int, q);
            }
        }
        start_y = start_y + 1;
    }
    Ok(features)
}

/// The regions of classes `0` up to `n` (each class id taken modulo 256), class after class.
pub open spec fn all_classes(m: SegmentationMask, n: nat, min_pixels: u64) -> Seq<PixelRegion>
    decreases n,
{
    if n == 0 {
        seq![]
    } else {
        all_classes(m, (n - 1) as nat, min_pixels) + scan_rows(
            m,
            (n - 1) as u8,
            min_pixels,
            m.rows() as int,
        )
    }
}

/// The regions of every class `0 .. num_classes`, class after class; `EmptyMask` for a mask
/// without rows or columns as soon as there is a class to look for.
pub open spec fn spec_polygonize_all(m: SegmentationMask, num_classes: nat, min_pixels: u64) -> Result<
    Seq<PixelRegion>,
    PolygonizeError,
> {
    if num_classes == 0 {
        Ok(seq![])
    } else if m.rows() == 0 || m.cols() == 0 {
        Err(PolygonizeError::EmptyMask)
    } else {
        Ok(all_classes(m, num_classes, min_pixels))
    }
}

/// Extract the regions of all classes in a mask.
pub fn polygonize_all(mask: &SegmentationMask, num_classes: usize, min_pixels: u64) -> (r: Result<
    Vec<PixelRegion>,
    PolygonizeError,
>)
    ensures
        match r {
            Ok(v) => spec_polygonize_all(*mask, num_classes as nat, min_pixels) == Ok::<
                Seq<PixelRegion>,
                PolygonizeError,
            >(v@),
            Err(e) => spec_polygonize_all(*mask, num_classes as nat, min_pixels) == Err::<
                Seq<PixelRegion>,
                PolygonizeError,
            >(e),
        },
        r is Ok ==> forall|k: int|
            0 <= k < r->Ok_0@.len() ==> region_within(
                #[trigger] r->Ok_0@[k],
                *mask,
                r->Ok_0@[k].class_id,
                min_pixels,
            ),
{
    let mut all_features: Vec<PixelRegion> = Vec::new();
    let mut class_id: usize = 0;
    while class_id < num_classes
        invariant
            class_id <= num_classes,
            all_features@ == all_classes(*mask, class_id as nat, min_pixels),
            class_id > 0 ==> mask.rows() > 0 && mask.cols() > 0,
            forall|k: int|
                0 <= k < all_features@.len() ==> region_within(
                    #[trigger] all_features@[k],
                    *mask,
                    all_features@[k].class_id,
                    min_pixels,
                ),
        decreases num_classes - class_id,
    {
        match polygonize_class(mask, #[verifier::truncate] (class_id as u8), min_pixels) {
            Ok(features) => {
                let mut features = features;
                let ghost before = all_features@;
                let ghost added = features@;
                all_features.append(&mut features);
                proof {
                    assert forall|k: int| 0 <= k < all_features@.len() implies region_within(
                        #[trigger] all_features@[k],
                        *mask,
                        all_features@[k].class_id,
                        min_pixels,
                    ) by {
                        if k >= before.len() {
                            assert(all_features@[k] == added[k - before.len()]);
                        } else {
                            assert(all_features@[k] == before[k]);
                        }
                    }
                }
            },
            Err(e) => {
                return Err(e);
            },
        }
        class_id = class_id + 1;
    }
    Ok(all_features)
}
} // verus!
