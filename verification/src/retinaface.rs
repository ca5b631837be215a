//! Looking for faces piece by piece: a large frame is cut into overlapping tiles, so that small faces are not lost.
use vstd::prelude::*;

verus! {

/// The edge of a tile.
pub const TILE: usize = 1280;

/// By how much tiles overlap.
pub const OVERLAP: usize = 320;

/// Faces that overlap more than this are one: the bits of 0.4.
pub const RETINA_NMS_IOU: u32 = 0x3ECC_CCCD;

/// Where the tiles along an edge of `n` pixels begin, from `from` on: every 960 pixels, until one reaches the end.
pub open spec fn starts(n: int, from: int) -> Seq<usize>
    decreases n - from,
{
    if from >= n {
        Seq::empty()
    } else if from + TILE >= n {
        seq![from as usize]
    } else {
        seq![from as usize] + starts(n, from + (TILE - OVERLAP))
    }
}

/// Where the tiles along an edge begin.
pub fn tile_starts(n: usize) -> (r: Vec<usize>)
    ensures
        r@ == starts(n as int, 0),
{
    let mut r: Vec<usize> = Vec::new();
    let mut at: usize = 0;
    if n == 0 {
        return r;
    }
    assert(r@ + starts(n as int, 0) =~= starts(n as int, 0));
    while n - at > TILE
        invariant
            at < n,
            r@ + starts(n as int, at as int) == starts(n as int, 0),
        decreases n - at,
    {
        let ghost before = r@;
        r.push(at);
        assert(before + (seq![at] + starts(n as int, at + (TILE - OVERLAP))) =~= r@ + starts(
            n as int,
            at + (TILE - OVERLAP),
        ));
        at = at + (TILE - OVERLAP);
    }
    let ghost before = r@;
    r.push(at);
    assert(r@ =~= before + seq![at]);
    r
}

/// Every pixel along an edge lies in a tile, and unless it is near one of the ends of the edge, it lies at least half of
/// the overlap from the ends of one of its tiles.
pub proof fn law_tiles_cover(n: int, from: int, x: int)
    requires
        0 <= from <= x < n <= usize::MAX,
    ensures
        exists|i: int|
            0 <= i < starts(n, from).len() && (#[trigger] starts(n, from)[i]) <= x < starts(n, from)[i] + TILE && (x
                >= starts(n, from)[i] + OVERLAP as int / 2 || starts(n, from)[i] == from) && (x < starts(n, from)[i]
                + TILE - OVERLAP as int / 2 || starts(n, from)[i] + TILE >= n),
    decreases n - from,
{
    let s = starts(n, from);
    if from + TILE >= n {
        assert(s[0] == from);
    } else if x < from + TILE - OVERLAP as int / 2 {
        assert(s[0] == from);
    } else {
        let next = from + (TILE - OVERLAP);
        let t = starts(n, next);
        law_tiles_cover(n, next, x);
        let i = choose|i: int|
            0 <= i < t.len() && (#[trigger] t[i]) <= x < t[i] + TILE && (x >= t[i] + OVERLAP as int / 2 || t[i] == next)
                && (x < t[i] + TILE - OVERLAP as int / 2 || t[i] + TILE >= n);
        assert(s[i + 1] == t[i]);
    }
}

/// A place where a face may be: its middle and the edge of the square around it, in pixels.
#[derive(Debug, Clone, Copy, PartialEq, Eq, Structural)]
pub struct Anchor {
    pub cx: usize,
    pub cy: usize,
    pub size: usize,
}

/// How many steps of `step` pixels are needed for `n` pixels.
pub open spec fn steps_for(n: int, step: int) -> int {
    (n + step - 1) / step
}

/// The anchor at place `k` of a grid with `cols` columns: two to a cell, a small one and one of twice its size.
pub open spec fn anchor_at(cols: int, step: int, small: int, k: int) -> Anchor {
    Anchor {
        cx: ((k / 2) % cols * step + step / 2) as usize,
        cy: ((k / 2) / cols * step + step / 2) as usize,
        size: (if k % 2 == 0 {
            small
        } else {
            2 * small
        }) as usize,
    }
}

/// The anchors of a grid over a picture of `w` by `h` pixels.
pub open spec fn grid_anchors(w: int, h: int, step: int, small: int) -> Seq<Anchor> {
    let cols = steps_for(w, step);
    Seq::new((2 * (cols * steps_for(h, step))) as nat, |k: int| anchor_at(cols, step, small, k))
}

/// The anchors of a picture of `w` by `h` pixels: a fine, a middle and a coarse grid.
pub open spec fn all_anchors(w: int, h: int) -> Seq<Anchor> {
    grid_anchors(w, h, 8, 16) + grid_anchors(w, h, 16, 64) + grid_anchors(w, h, 32, 256)
}

fn push_grid(out: &mut Vec<Anchor>, w: usize, h: usize, step: usize, small: usize)
    requires
        w + 2 * step <= usize::MAX,
        h + 2 * step <= usize::MAX,
        1 <= step <= 32,
        small <= 256,
        2 * (steps_for(w as int, step as int) * steps_for(h as int, step as int)) <= usize::MAX,
    ensures
        final(out)@ == old(out)@ + grid_anchors(w as int, h as int, step as int, small as int),
{
    let ghost start = out@;
    let cols: usize = (w + step - 1) / step;
    let rows: usize = (h + step - 1) / step;
    proof {
        assert(cols <= w && rows <= h && cols * step <= w + step - 1 && rows * step <= h + step - 1) by (
        nonlinear_arith)
            requires
                cols == (w + step - 1) / (step as int),
                rows == (h + step - 1) / (step as int),
                1 <= step,
                0 <= w,
                0 <= h,
        ;
        assert(0 <= cols * rows) by (nonlinear_arith)
            requires
                0 <= cols,
                0 <= rows,
        ;
    }
    let total: usize = 2 * (cols * rows);
    let ghost want = grid_anchors(w as int, h as int, step as int, small as int);
    assert(out@ =~= start + want.take(0));
    for k in 0..total
        invariant
            total == 2 * (cols * rows),
            cols == steps_for(w as int, step as int),
            rows == steps_for(h as int, step as int),
            cols * step <= w + step - 1,
            rows * step <= h + step - 1,
            w + 2 * step <= usize::MAX,
            h + 2 * step <= usize::MAX,
            1 <= step <= 32,
            small <= 256,
            want == grid_anchors(w as int, h as int, step as int, small as int),
            out@ == start + want.take(k as int),
    {
        let half: usize = k / 2;
        proof {
            assert(cols > 0) by (nonlinear_arith)
                requires
                    half < cols * rows,
                    0 <= half,
                    0 <= cols,
                    0 <= rows,
            ;
            crate::grid::lemma_offset(cols as int, rows as int, half as int);
            assert((half % cols) * step <= cols * step && (half / cols) * step <= rows * step) by (nonlinear_arith)
                requires
                    half % cols <= cols,
                    half / cols <= rows,
                    0 <= step,
            ;
        }
        let a = Anchor {
            cx: half % cols * step + step / 2,
            cy: half / cols * step + step / 2,
            size: if k % 2 == 0 {
                small
            } else {
                2 * small
            },
        };
        out.push(a);
        assert(a == want[k as int]);
        assert(want.take(k + 1) =~= want.take(k as int).push(a));
        assert(out@ =~= start + want.take(k + 1));
    }
    assert(want.take(total as int) =~= want);
}

/// The anchors of a picture of `w` by `h` pixels.
pub fn anchors(w: usize, h: usize) -> (r: Vec<Anchor>)
    requires
        w + 64 <= usize::MAX,
        h + 64 <= usize::MAX,
        2 * (steps_for(w as int, 8) * steps_for(h as int, 8)) <= usize::MAX,
        2 * (steps_for(w as int, 16) * steps_for(h as int, 16)) <= usize::MAX,
        2 * (steps_for(w as int, 32) * steps_for(h as int, 32)) <= usize::MAX,
    ensures
        r@ == all_anchors(w as int, h as int),
{
    let mut r: Vec<Anchor> = Vec::new();
    push_grid(&mut r, w, h, 8, 16);
    push_grid(&mut r, w, h, 16, 64);
    push_grid(&mut r, w, h, 32, 256);
    assert(r@ =~= all_anchors(w as int, h as int));
    r
}

/// Whether the outputs of the model belong to `n` anchors: their boxes, their scores, their points.
pub fn outputs_ok(boxes: &[i64], scores: &[i64], points: &[i64], n: usize) -> (ok: bool)
    requires
        n <= i64::MAX,
    ensures
        ok == (boxes@.len() == 3 && scores@.len() == 3 && points@.len() == 3 && boxes@[2] == 4 && scores@[2] == 2
            && boxes@[1] == n && scores@[1] == n),
{
    boxes.len() == 3 && scores.len() == 3 && points.len() == 3 && boxes[2] == 4 && scores[2] == 2 && boxes[1]
        == n as i64 && scores[1] == n as i64
}

/// The anchors of a grid: in each cell of `step` pixels, row by row, a small one and one of twice its size, both around the middle of the
/// cell.
pub proof fn law_grid(w: int, h: int, step: int, small: int, col: int, row: int)
    requires
        0 < step <= 32,
        0 < small <= 256,
        0 <= col,
        0 <= row,
        col * step < w,
        row * step < h,
        w + 64 <= usize::MAX,
        h + 64 <= usize::MAX,
    ensures
        ({
            let cols = (w + step - 1) / step;
            let rows = (h + step - 1) / step;
            let g = grid_anchors(w, h, step, small);
            let k = row * cols + col;
            &&& g.len() == 2 * (cols * rows)
            &&& 0 <= 2 * k
            &&& 2 * k + 1 < g.len()
            &&& g[2 * k].cx == col * step + step / 2
            &&& g[2 * k].cy == row * step + step / 2
            &&& g[2 * k].size == small
            &&& g[2 * k + 1].cx == col * step + step / 2
            &&& g[2 * k + 1].cy == row * step + step / 2
            &&& g[2 * k + 1].size == 2 * small
        }),
{
    let cols = (w + step - 1) / step;
    let rows = (h + step - 1) / step;
    assert(col < cols) by (nonlinear_arith)
        requires
            col * step < w,
            cols == (w + step - 1) / step,
            0 < step,
    ;
    assert(row < rows) by (nonlinear_arith)
        requires
            row * step < h,
            rows == (h + step - 1) / step,
            0 < step,
    ;
    crate::grid::lemma_cell(cols, rows, col, row);
    let k = row * cols + col;
    assert((2 * k) / 2 == k && (2 * k + 1) / 2 == k);
    assert(0 <= col * step && 0 <= row * step) by (nonlinear_arith)
        requires
            0 <= col,
            0 <= row,
            0 < step,
    ;
}

/// The anchors of a picture: a grid of 8 pixels with edges of 16 and 32, then one of 16 with 64 and 128, then one of 32 with 256 and 512.
pub proof fn law_three_grids(w: int, h: int)
    ensures
        ({
            let (a, b, c) = (grid_anchors(w, h, 8, 16), grid_anchors(w, h, 16, 64), grid_anchors(w, h, 32, 256));
            let all = all_anchors(w, h);
            &&& all.len() == a.len() + b.len() + c.len()
            &&& all.take(a.len() as int) == a
            &&& all.subrange(a.len() as int, (a.len() + b.len()) as int) == b
            &&& all.skip((a.len() + b.len()) as int) == c
        }),
{
    let (a, b, c) = (grid_anchors(w, h, 8, 16), grid_anchors(w, h, 16, 64), grid_anchors(w, h, 32, 256));
    let all = all_anchors(w, h);
    assert(all.take(a.len() as int) =~= a);
    assert(all.subrange(a.len() as int, (a.len() + b.len()) as int) =~= b);
    assert(all.skip((a.len() + b.len()) as int) =~= c);
}

/// Tiles begin every 960 pixels and are 1280 pixels long; the last one is the first that reaches the end.
pub proof fn law_tiles(n: int, from: int, i: int)
    requires
        0 <= from < n <= usize::MAX,
        0 <= i < starts(n, from).len(),
    ensures
        starts(n, from)[i] == from + 960 * i,
        i + 1 < starts(n, from).len() ==> from + 960 * i + 1280 < n,
        i + 1 == starts(n, from).len() ==> from + 960 * i + 1280 >= n,
        starts(n, from).len() > 0,
    decreases n - from,
{
    if from + 1280 < n {
        let t = starts(n, from + 960);
        let s = starts(n, from);
        assert(s =~= seq![from as usize] + t);
        if i > 0 {
            law_tiles(n, from + 960, i - 1);
        } else {
            assert(t.len() > 0);
        }
    }
}

} // verus!
