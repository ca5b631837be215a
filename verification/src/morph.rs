//! Growing, shrinking and moving masks.
use crate::compose::Region;
use crate::grid::{cell, lemma_cell, lemma_offset};
use vstd::prelude::*;
use vstd::slice::slice_to_vec;

verus! {

/// Whether (`nx`, `ny`) is one of the pixels of a `w` by `h` frame in the 3 by 3 square around (`x`, `y`).
pub open spec fn beside(w: int, h: int, x: int, y: int, nx: int, ny: int) -> bool {
    &&& 0 <= nx < w
    &&& 0 <= ny < h
    &&& x - 1 <= nx <= x + 1
    &&& y - 1 <= ny <= y + 1
}

/// Whether some pixel of the square around (`x`, `y`) is set.
pub open spec fn near_set(s: Seq<u8>, w: int, h: int, x: int, y: int) -> bool {
    exists|nx: int, ny: int| beside(w, h, x, y, nx, ny) && #[trigger] s[cell(w, nx, ny)] != 0
}

/// Whether some pixel of the square around (`x`, `y`) is clear or lies outside `g`, where every pixel counts as clear.
pub open spec fn near_clear(s: Seq<u8>, w: int, h: int, g: Region, x: int, y: int) -> bool {
    exists|nx: int, ny: int|
        beside(w, h, x, y, nx, ny) && (#[trigger] s[cell(w, nx, ny)] == 0 || !g.has(nx, ny))
}

/// The mask after the clear pixels of `g` that lie beside a set pixel have been set.
pub open spec fn grown(s: Seq<u8>, w: int, h: int, g: Region) -> Seq<u8> {
    Seq::new(
        s.len(),
        |k: int|
            if k < w * h && g.has(k % w, k / w) && s[k] == 0 && near_set(s, w, h, k % w, k / w) {
                1
            } else {
                s[k]
            },
    )
}

/// The mask after the set pixels of `g` that lie beside a clear pixel, or beside a pixel outside `g`, have been cleared.
pub open spec fn shrunk(s: Seq<u8>, w: int, h: int, g: Region) -> Seq<u8> {
    Seq::new(
        s.len(),
        |k: int|
            if k < w * h && g.has(k % w, k / w) && near_clear(s, w, h, g, k % w, k / w) {
                0
            } else {
                s[k]
            },
    )
}

/// `grown`, `n` times over.
pub open spec fn grown_times(s: Seq<u8>, w: int, h: int, g: Region, n: int) -> Seq<u8>
    decreases n,
{
    if n <= 0 {
        s
    } else {
        grown(grown_times(s, w, h, g, n - 1), w, h, g)
    }
}

/// `shrunk`, `n` times over.
pub open spec fn shrunk_times(s: Seq<u8>, w: int, h: int, g: Region, n: int) -> Seq<u8>
    decreases n,
{
    if n <= 0 {
        s
    } else {
        shrunk(shrunk_times(s, w, h, g, n - 1), w, h, g)
    }
}

/// The whole of a `w` by `h` frame.
pub open spec fn whole(w: int, h: int) -> Region {
    Region { x1: 0, y1: 0, x2: w as usize, y2: h as usize }
}

/// The pixels of a `w` by `h` frame within `m` of the box with the corners (`xyxy[0]`, `xyxy[1]`)
/// and (`xyxy[2]`, `xyxy[3]`), both of which belong to it.
pub open spec fn around(xyxy: [usize; 4], w: int, h: int, m: int) -> Region {
    let rx = if xyxy[2] < w - 1 { xyxy[2] as int } else { w - 1 };
    let ry = if xyxy[3] < h - 1 { xyxy[3] as int } else { h - 1 };
    Region {
        x1: (if xyxy[0] < m { 0 } else { xyxy[0] - m }) as usize,
        y1: (if xyxy[1] < m { 0 } else { xyxy[1] - m }) as usize,
        x2: (if rx + m < w - 1 { rx + m + 1 } else { w }) as usize,
        y2: (if ry + m < h - 1 { ry + m + 1 } else { h }) as usize,
    }
}

/// Whether a region is more than one pixel wide and more than one pixel high.
pub open spec fn extended(g: Region) -> bool {
    g.x1 + 1 < g.x2 && g.y1 + 1 < g.y2
}

/// The mask with the pixels of `g` taken from `dx` columns to the left and `dy` rows above;
/// what would come from outside the frame is clear.
pub open spec fn moved(s: Seq<u8>, w: int, h: int, g: Region, dx: int, dy: int) -> Seq<u8> {
    Seq::new(
        s.len(),
        |k: int|
            if k < w * h && g.has(k % w, k / w) {
                if 0 <= k % w - dx < w && 0 <= k / w - dy < h {
                    s[cell(w, k % w - dx, k / w - dy)]
                } else {
                    0
                }
            } else {
                s[k]
            },
    )
}

/// How far around its box a mask is moved by a shift of (`dx`, `dy`).
pub open spec fn shift_reach(dx: int, dy: int) -> int {
    (if dx < 0 { -dx } else { dx }) + (if dy < 0 { -dy } else { dy }) + 4
}

/// The mask grown by `n` pixels within `n + 2` pixels of a box, if that is more than a line.
pub open spec fn dilated(s: Seq<u8>, w: int, h: int, xyxy: [usize; 4], n: int) -> Seq<u8> {
    let g = around(xyxy, w, h, n + 2);
    if extended(g) {
        grown_times(s, w, h, g, n)
    } else {
        s
    }
}

/// The mask shrunk by `n` pixels within 3 pixels of a box, if that is more than a line; all else counts as clear.
pub open spec fn eroded(s: Seq<u8>, w: int, h: int, xyxy: [usize; 4], n: int) -> Seq<u8> {
    let g = around(xyxy, w, h, 3);
    if n > 0 && extended(g) {
        shrunk_times(s, w, h, g, n)
    } else {
        s
    }
}

/// The mask moved by (`dx`, `dy`) near a box, if that is more than a line.
pub open spec fn shifted(s: Seq<u8>, w: int, h: int, xyxy: [usize; 4], dx: int, dy: int) -> Seq<u8> {
    let g = around(xyxy, w, h, shift_reach(dx, dy));
    if (dx != 0 || dy != 0) && extended(g) {
        moved(s, w, h, g, dx, dy)
    } else {
        s
    }
}

fn region_around(xyxy: [usize; 4], w: usize, h: usize, m: usize) -> (g: Region)
    requires
        0 < w,
        0 < h,
        w + m <= usize::MAX,
        h + m <= usize::MAX,
    ensures
        g == around(xyxy, w as int, h as int, m as int),
        g.x2 <= w,
        g.y2 <= h,
{
    let rx: usize = if xyxy[2] < w - 1 { xyxy[2] } else { w - 1 };
    let ry: usize = if xyxy[3] < h - 1 { xyxy[3] } else { h - 1 };
    Region {
        x1: if xyxy[0] < m { 0 } else { xyxy[0] - m },
        y1: if xyxy[1] < m { 0 } else { xyxy[1] - m },
        x2: if rx + m < w - 1 { rx + m + 1 } else { w },
        y2: if ry + m < h - 1 { ry + m + 1 } else { h },
    }
}

/// Whether a pixel of the square around (`x`, `y`) is set (`want`) or clear (`!want`).
fn near(s: &[u8], w: usize, h: usize, x: usize, y: usize, want: bool) -> (r: bool)
    requires
        w * h <= s@.len(),
        x < w,
        y < h,
    ensures
        r == near_any(s@, w as int, h as int, x as int, y as int, want),
{
    let x0: usize = if x == 0 { 0 } else { x - 1 };
    let y0: usize = if y == 0 { 0 } else { y - 1 };
    let xe: usize = if w - x > 2 { x + 2 } else { w };
    let ye: usize = if h - y > 2 { y + 2 } else { h };
    let mut ny: usize = y0;
    while ny < ye
        invariant
            w * h <= s@.len(),
            x < w,
            y < h,
            x0 == (if x == 0 { 0 } else { x - 1 }),
            y0 == (if y == 0 { 0 } else { y - 1 }),
            xe == (if w - x > 2 { x + 2 } else { w as int }),
            ye == (if h - y > 2 { y + 2 } else { h as int }),
            y0 <= ny <= ye,
            forall|a: int, b: int|
                beside(w as int, h as int, x as int, y as int, a, b) && b < ny ==> (#[trigger] s@[cell(
                    w as int,
                    a,
                    b,
                )] != 0) != want,
        decreases ye - ny,
    {
        let mut nx: usize = x0;
        while nx < xe
            invariant
                w * h <= s@.len(),
                x < w,
                y < h,
                x0 == (if x == 0 { 0 } else { x - 1 }),
                y0 == (if y == 0 { 0 } else { y - 1 }),
                xe == (if w - x > 2 { x + 2 } else { w as int }),
                ye == (if h - y > 2 { y + 2 } else { h as int }),
                y0 <= ny < ye,
                x0 <= nx <= xe,
                forall|a: int, b: int|
                    beside(w as int, h as int, x as int, y as int, a, b) && (b < ny || (b == ny && a < nx)) ==> (
                    #[trigger] s@[cell(w as int, a, b)] != 0) != want,
            decreases xe - nx,
        {
            proof {
                lemma_cell(w as int, h as int, nx as int, ny as int);
                assert(s.len() == s@.len());
            }
            if (s[ny * w + nx] != 0) == want {
                assert(beside(w as int, h as int, x as int, y as int, nx as int, ny as int));
                assert((s@[cell(w as int, nx as int, ny as int)] != 0) == want);
                return true;
            }
            nx = nx + 1;
        }
        ny = ny + 1;
    }
    false
}

/// Whether (`x`, `y`), a pixel of `g`, lies beside a pixel of the frame that is none of `g`.
fn on_rim(w: usize, h: usize, g: Region, x: usize, y: usize) -> (r: bool)
    requires
        g.x2 <= w,
        g.y2 <= h,
        g.has(x as int, y as int),
    ensures
        r == near_outside(w as int, h as int, g, x as int, y as int),
{
    let (left, right): (bool, bool) = (x == g.x1 && x > 0, x + 1 == g.x2 && x + 1 < w);
    let (above, below): (bool, bool) = (y == g.y1 && y > 0, y + 1 == g.y2 && y + 1 < h);
    proof {
        let (wi, hi, xi, yi) = (w as int, h as int, x as int, y as int);
        if left {
            assert(beside(wi, hi, xi, yi, xi - 1, yi) && !g.has(xi - 1, yi));
        }
        if right {
            assert(beside(wi, hi, xi, yi, xi + 1, yi) && !g.has(xi + 1, yi));
        }
        if above {
            assert(beside(wi, hi, xi, yi, xi, yi - 1) && !g.has(xi, yi - 1));
        }
        if below {
            assert(beside(wi, hi, xi, yi, xi, yi + 1) && !g.has(xi, yi + 1));
        }
    }
    left || right || above || below
}

/// Whether some pixel of the square around (`x`, `y`) lies outside `g`.
spec fn near_outside(w: int, h: int, g: Region, x: int, y: int) -> bool {
    exists|nx: int, ny: int| #[trigger] beside(w, h, x, y, nx, ny) && !g.has(nx, ny)
}

/// Whether some pixel of the square around (`x`, `y`) is set (`want`) or clear (`!want`).
spec fn near_any(s: Seq<u8>, w: int, h: int, x: int, y: int, want: bool) -> bool {
    exists|nx: int, ny: int| beside(w, h, x, y, nx, ny) && (#[trigger] s[cell(w, nx, ny)] != 0) == want
}

proof fn lemma_near(s: Seq<u8>, w: int, h: int, g: Region, x: int, y: int)
    ensures
        near_set(s, w, h, x, y) == near_any(s, w, h, x, y, true),
        near_clear(s, w, h, g, x, y) == (near_any(s, w, h, x, y, false) || near_outside(w, h, g, x, y)),
{
    if near_outside(w, h, g, x, y) {
        let (nx, ny) = choose|nx: int, ny: int| #[trigger] beside(w, h, x, y, nx, ny) && !g.has(nx, ny);
        let v = s[cell(w, nx, ny)];
        assert(near_clear(s, w, h, g, x, y));
    }
    if near_any(s, w, h, x, y, false) {
        let (nx, ny) = choose|nx: int, ny: int|
            beside(w, h, x, y, nx, ny) && (#[trigger] s[cell(w, nx, ny)] != 0) == false;
        assert(s[cell(w, nx, ny)] == 0);
        assert(near_clear(s, w, h, g, x, y));
    }
    if near_clear(s, w, h, g, x, y) {
        let (nx, ny) = choose|nx: int, ny: int|
            beside(w, h, x, y, nx, ny) && (#[trigger] s[cell(w, nx, ny)] == 0 || !g.has(nx, ny));
        if s[cell(w, nx, ny)] == 0 {
            assert((s[cell(w, nx, ny)] != 0) == false);
            assert(near_any(s, w, h, x, y, false));
        } else {
            assert(beside(w, h, x, y, nx, ny));
            assert(near_outside(w, h, g, x, y));
        }
    }
}

/// One step of growing (`want`) or shrinking (`!want`) inside `g`; tells whether anything changed.
fn step(mask: &mut [u8], w: usize, h: usize, g: Region, want: bool) -> (changed: bool)
    requires
        w * h <= old(mask)@.len(),
        g.x2 <= w,
        g.y2 <= h,
    ensures
        want ==> final(mask)@ == grown(old(mask)@, w as int, h as int, g),
        !want ==> final(mask)@ == shrunk(old(mask)@, w as int, h as int, g),
        changed == (final(mask)@ != old(mask)@),
{
    let ghost s = old(mask)@;
    let ghost t = if want { grown(s, w as int, h as int, g) } else { shrunk(s, w as int, h as int, g) };
    let src: Vec<u8> = slice_to_vec(mask);
    let mut changed = false;
    let mut y: usize = g.y1;
    proof {
        assert forall|k: int| 0 <= k < s.len() && !(k < w * h && g.y1 <= k / w as int) implies #[trigger] t[k]
            == s[k] by {}
    }
    while y < g.y2
        invariant
            src@ == s,
            w * h <= s.len(),
            g.x2 <= w,
            g.y2 <= h,
            g.y1 <= y,
            y <= g.y2 || y == g.y1,
            t == (if want { grown(s, w as int, h as int, g) } else { shrunk(s, w as int, h as int, g) }),
            mask@.len() == s.len(),
            forall|k: int|
                0 <= k < s.len() && (k >= w * h || (k / w as int) < y) ==> #[trigger] mask@[k] == t[k],
            forall|k: int| 0 <= k < w * h && y <= k / w as int ==> #[trigger] mask@[k] == s[k],
            changed == (mask@ != s),
        decreases g.y2 - y,
    {
        let mut x: usize = g.x1;
        proof {
            assert forall|k: int|
                0 <= k < w * h && k / w as int == y && k % (w as int) < x implies #[trigger] mask@[k] == t[k] by {
                assert(t[k] == s[k]);
            }
        }
        while x < g.x2
            invariant
                src@ == s,
                w * h <= s.len(),
                g.x2 <= w,
                g.y2 <= h,
                g.y1 <= y < g.y2,
                g.x1 <= x,
                x <= g.x2 || x == g.x1,
                t == (if want { grown(s, w as int, h as int, g) } else { shrunk(s, w as int, h as int, g) }),
                mask@.len() == s.len(),
                forall|k: int|
                    0 <= k < s.len() && (k >= w * h || (k / w as int) < y || (k / w as int == y && (k
                        % w as int) < x)) ==> #[trigger] mask@[k] == t[k],
                forall|k: int|
                    0 <= k < w * h && (y < k / w as int || (y == k / w as int && x <= k % w as int))
                        ==> #[trigger] mask@[k] == s[k],
                changed == (mask@ != s),
            decreases g.x2 - x,
        {
            proof {
                lemma_cell(w as int, h as int, x as int, y as int);
                assert(mask.len() == s.len());
            }
            let i: usize = y * w + x;
            let ghost before = mask@;
            proof {
                lemma_near(s, w as int, h as int, g, x as int, y as int);
            }
            if (src[i] != 0) != want && ((!want && on_rim(w, h, g, x, y)) || near(&src, w, h, x, y, want)) {
                mask[i] = if want { 1 } else { 0 };
                proof {
                    assert(before[i as int] == s[i as int]);
                    assert(mask@[i as int] != s[i as int]);
                }
                changed = true;
            }
            proof {
                if !want && s[i as int] == 0 {
                    assert(t[i as int] == 0);
                }
                assert forall|k: int|
                    #![trigger mask@[k]]
                    0 <= k < w * h && k / w as int == y && k % w as int == x implies k == i by {
                    lemma_offset(w as int, h as int, k);
                }
                assert(mask@[i as int] == t[i as int]);
            }
            x = x + 1;
        }
        proof {
            assert forall|k: int|
                0 <= k < w * h && k / w as int == y && g.x2 <= k % w as int implies #[trigger] mask@[k] == t[k] by {
                if x <= k % w as int {
                    assert(mask@[k] == s[k]);
                }
            }
        }
        y = y + 1;
    }
    proof {
        assert forall|k: int| 0 <= k < s.len() implies #[trigger] mask@[k] == t[k] by {
            if k < w * h && y <= k / w as int {
                assert(mask@[k] == s[k]);
            }
        }
        assert(mask@ =~= t);
    }
    changed
}

/// Grows the mask by one pixel to every side.
pub fn dilate3(mask: &mut [u8], w: usize, h: usize)
    requires
        w * h <= old(mask)@.len(),
    ensures
        final(mask)@ == grown(old(mask)@, w as int, h as int, whole(w as int, h as int)),
{
    step(mask, w, h, Region { x1: 0, y1: 0, x2: w, y2: h }, true);
}

/// Grows the mask by `n` pixels to every side.
pub fn dilate(mask: &mut [u8], w: usize, h: usize, n: usize)
    requires
        w * h <= old(mask)@.len(),
    ensures
        final(mask)@ == grown_times(old(mask)@, w as int, h as int, whole(w as int, h as int), n as int),
{
    let ghost s = old(mask)@;
    let mut i: usize = 0;
    while i < n
        invariant
            i <= n,
            w * h <= s.len(),
            mask@.len() == s.len(),
            mask@ == grown_times(s, w as int, h as int, whole(w as int, h as int), i as int),
        decreases n - i,
    {
        dilate3(mask, w, h);
        i = i + 1;
    }
}

/// Grows the mask by `n` pixels, but changes only what lies within `n + 2` pixels of the box `xyxy`.
pub fn dilate_region(mask: &mut [u8], w: usize, h: usize, xyxy: [usize; 4], n: usize)
    requires
        0 < w,
        0 < h,
        w * h <= old(mask)@.len(),
        w + n + 2 <= usize::MAX,
        h + n + 2 <= usize::MAX,
    ensures
        final(mask)@ == dilated(old(mask)@, w as int, h as int, xyxy, n as int),
{
    let ghost s = old(mask)@;
    let g = region_around(xyxy, w, h, n + 2);
    if g.x2 <= 1 || g.y2 <= 1 || g.x2 - 1 <= g.x1 || g.y2 - 1 <= g.y1 {
        return;
    }
    let mut i: usize = 0;
    while i < n
        invariant
            i <= n,
            w * h <= s.len(),
            g.x2 <= w,
            g.y2 <= h,
            mask@.len() == s.len(),
            mask@ == grown_times(s, w as int, h as int, g, i as int),
        decreases n - i,
    {
        step(mask, w, h, g, true);
        i = i + 1;
    }
}

proof fn lemma_shrunk_stable(s: Seq<u8>, w: int, h: int, g: Region, i: int, n: int)
    requires
        0 <= i <= n,
        shrunk(shrunk_times(s, w, h, g, i), w, h, g) == shrunk_times(s, w, h, g, i),
    ensures
        shrunk_times(s, w, h, g, n) == shrunk_times(s, w, h, g, i),
    decreases n - i,
{
    if i < n {
        lemma_shrunk_stable(s, w, h, g, i, n - 1);
    }
}

/// Shrinks the mask by `n` pixels, but changes only what lies within 3 pixels of the box `xyxy`; what lies further off counts
/// as clear.
pub fn erode_region(mask: &mut [u8], w: usize, h: usize, xyxy: [usize; 4], n: usize)
    requires
        n > 0 ==> 0 < w && 0 < h && w + 3 <= usize::MAX && h + 3 <= usize::MAX,
        w * h <= old(mask)@.len(),
    ensures
        final(mask)@ == eroded(old(mask)@, w as int, h as int, xyxy, n as int),
{
    if n == 0 {
        return;
    }
    let ghost s = old(mask)@;
    let g = region_around(xyxy, w, h, 3);
    if g.x2 <= 1 || g.y2 <= 1 || g.x2 - 1 <= g.x1 || g.y2 - 1 <= g.y1 {
        return;
    }
    let mut i: usize = 0;
    while i < n
        invariant
            i <= n,
            w * h <= s.len(),
            g.x2 <= w,
            g.y2 <= h,
            g == around(xyxy, w as int, h as int, 3),
            extended(g),
            n > 0,
            s == old(mask)@,
            mask@.len() == s.len(),
            mask@ == shrunk_times(s, w as int, h as int, g, i as int),
        decreases n - i,
    {
        let changed = step(mask, w, h, g, false);
        if !changed {
            proof {
                lemma_shrunk_stable(s, w as int, h as int, g, i as int, n as int);
            }
            return;
        }
        i = i + 1;
    }
}

/// Moves the mask by (`dx`, `dy`) inside the pixels within `|dx| + |dy| + 4` of the box `xyxy`.
pub fn shift_mask_region(mask: &mut [u8], w: usize, h: usize, xyxy: [usize; 4], dx: isize, dy: isize)
    requires
        dx != 0 || dy != 0 ==> 0 < w && 0 < h,
        w * h <= old(mask)@.len(),
        w + shift_reach(dx as int, dy as int) <= usize::MAX,
        h + shift_reach(dx as int, dy as int) <= usize::MAX,
    ensures
        final(mask)@ == shifted(old(mask)@, w as int, h as int, xyxy, dx as int, dy as int),
{
    if dx == 0 && dy == 0 {
        return;
    }
    let ghost s = old(mask)@;
    let ax: i128 = if dx < 0 { -(dx as i128) } else { dx as i128 };
    let ay: i128 = if dy < 0 { -(dy as i128) } else { dy as i128 };
    let m: usize = (ax + ay + 4) as usize;
    let g = region_around(xyxy, w, h, m);
    if g.x2 <= 1 || g.y2 <= 1 || g.x2 - 1 <= g.x1 || g.y2 - 1 <= g.y1 {
        return;
    }
    let src: Vec<u8> = slice_to_vec(mask);
    let ghost t = moved(s, w as int, h as int, g, dx as int, dy as int);
    let mut y: usize = g.y1;
    proof {
        assert forall|k: int| 0 <= k < s.len() && !(k < w * h && g.y1 <= k / w as int) implies #[trigger] t[k]
            == s[k] by {}
    }
    while y < g.y2
        invariant
            src@ == s,
            w * h <= s.len(),
            g.x2 <= w,
            g.y2 <= h,
            g.x1 < g.x2,
            g.y1 <= y <= g.y2,
            t == moved(s, w as int, h as int, g, dx as int, dy as int),
            mask@.len() == s.len(),
            forall|k: int|
                0 <= k < s.len() && (k >= w * h || (k / w as int) < y) ==> #[trigger] mask@[k] == t[k],
            forall|k: int| 0 <= k < w * h && y <= k / w as int ==> #[trigger] mask@[k] == s[k],
        decreases g.y2 - y,
    {
        let mut x: usize = g.x1;
        proof {
            assert forall|k: int|
                0 <= k < w * h && k / w as int == y && k % (w as int) < x implies #[trigger] mask@[k] == t[k] by {
                assert(t[k] == s[k]);
            }
        }
        while x < g.x2
            invariant
                src@ == s,
                w * h <= s.len(),
                g.x2 <= w,
                g.y2 <= h,
                g.y1 <= y < g.y2,
                g.x1 <= x <= g.x2,
                t == moved(s, w as int, h as int, g, dx as int, dy as int),
                mask@.len() == s.len(),
                forall|k: int|
                    0 <= k < s.len() && (k >= w * h || (k / w as int) < y || (k / w as int == y && (k
                        % w as int) < x)) ==> #[trigger] mask@[k] == t[k],
                forall|k: int|
                    0 <= k < w * h && (y < k / w as int || (y == k / w as int && x <= k % w as int))
                        ==> #[trigger] mask@[k] == s[k],
            decreases g.x2 - x,
        {
            let sx: i128 = x as i128 - dx as i128;
            let sy: i128 = y as i128 - dy as i128;
            proof {
                lemma_cell(w as int, h as int, x as int, y as int);
                assert(mask.len() == s.len());
                if 0 <= sx < w && 0 <= sy < h {
                    lemma_cell(w as int, h as int, sx as int, sy as int);
                }
            }
            let i: usize = y * w + x;
            mask[i] = if 0 <= sx && sx < w as i128 && 0 <= sy && sy < h as i128 {
                src[sy as usize * w + sx as usize]
            } else {
                0
            };
            proof {
                assert forall|k: int|
                    #![trigger mask@[k]]
                    0 <= k < w * h && k / w as int == y && k % w as int == x implies k == i by {
                    lemma_offset(w as int, h as int, k);
                }
                assert(mask@[i as int] == t[i as int]);
            }
            x = x + 1;
        }
        proof {
            assert forall|k: int|
                0 <= k < w * h && k / w as int == y && g.x2 <= k % w as int implies #[trigger] mask@[k] == t[k] by {
                assert(mask@[k] == s[k]);
            }
        }
        y = y + 1;
    }
    proof {
        assert forall|k: int| 0 <= k < s.len() implies #[trigger] mask@[k] == t[k] by {
            if k < w * h && y <= k / w as int {
                assert(mask@[k] == s[k]);
            }
        }
        assert(mask@ =~= t);
    }
}

/// Growing keeps every set pixel and every pixel outside its region.
pub proof fn law_grown_keeps(s: Seq<u8>, w: int, h: int, g: Region, n: int, k: int)
    requires
        0 <= k < s.len(),
    ensures
        grown_times(s, w, h, g, n).len() == s.len(),
        s[k] != 0 ==> grown_times(s, w, h, g, n)[k] == s[k],
        k >= w * h || !g.has(k % w, k / w) ==> grown_times(s, w, h, g, n)[k] == s[k],
    decreases n,
{
    if n > 0 {
        law_grown_keeps(s, w, h, g, n - 1, k);
    }
}

/// Shrinking sets no pixel and keeps every pixel outside its region.
pub proof fn law_shrunk_keeps(s: Seq<u8>, w: int, h: int, g: Region, n: int, k: int)
    requires
        0 <= k < s.len(),
    ensures
        shrunk_times(s, w, h, g, n).len() == s.len(),
        shrunk_times(s, w, h, g, n)[k] == 0 || shrunk_times(s, w, h, g, n)[k] == s[k],
        k >= w * h || !g.has(k % w, k / w) ==> shrunk_times(s, w, h, g, n)[k] == s[k],
    decreases n,
{
    if n > 0 {
        law_shrunk_keeps(s, w, h, g, n - 1, k);
    }
}

/// Growing by `m` and then by `n` is growing by `m + n`.
pub proof fn law_grown_adds(s: Seq<u8>, w: int, h: int, g: Region, m: int, n: int)
    requires
        0 <= m,
        0 <= n,
    ensures
        grown_times(grown_times(s, w, h, g, m), w, h, g, n) == grown_times(s, w, h, g, m + n),
    decreases n,
{
    if n > 0 {
        law_grown_adds(s, w, h, g, m, n - 1);
    }
}

/// Whether some pixel of the frame that is at most `n` columns and at most `n` rows away from (`x`, `y`) is set.
pub open spec fn set_within(s: Seq<u8>, w: int, h: int, x: int, y: int, n: int) -> bool {
    exists|a: int, b: int| within(w, h, x, y, n, a, b) && #[trigger] s[cell(w, a, b)] != 0
}

/// Whether (`a`, `b`) is a pixel of the frame that is at most `n` columns and at most `n` rows away from (`x`, `y`).
pub open spec fn within(w: int, h: int, x: int, y: int, n: int, a: int, b: int) -> bool {
    &&& 0 <= a < w
    &&& 0 <= b < h
    &&& x - n <= a <= x + n
    &&& y - n <= b <= y + n
}

/// Growing a whole mask by `n` sets exactly the pixels within that distance of a set one.
pub proof fn law_grown_by_distance(s: Seq<u8>, w: int, h: int, n: int, x: int, y: int)
    requires
        0 <= n,
        0 <= x < w <= usize::MAX,
        0 <= y < h <= usize::MAX,
        w * h <= s.len(),
    ensures
        grown_times(s, w, h, whole(w, h), n).len() == s.len(),
        grown_times(s, w, h, whole(w, h), n)[cell(w, x, y)] != 0 <==> set_within(s, w, h, x, y, n),
    decreases n,
{
    let g = whole(w, h);
    let k = cell(w, x, y);
    lemma_cell(w, h, x, y);
    lemma_times_len(s, w, h, g, n);
    let now = grown_times(s, w, h, g, n);
    if n == 0 {
        if s[k] != 0 {
            assert(within(w, h, x, y, 0, x, y));
        }
    } else {
        let was = grown_times(s, w, h, g, n - 1);
        lemma_times_len(s, w, h, g, n - 1);
        law_grown_by_distance(s, w, h, n - 1, x, y);
        assert(g.has(x, y));
        if now[k] != 0 {
            if was[k] != 0 {
                let (a, b) = choose|a: int, b: int| within(w, h, x, y, n - 1, a, b) && #[trigger] s[cell(w, a, b)] != 0;
                assert(within(w, h, x, y, n, a, b) && s[cell(w, a, b)] != 0);
            } else {
                let (nx, ny) = choose|nx: int, ny: int| beside(w, h, x, y, nx, ny) && #[trigger] was[cell(w, nx, ny)] != 0;
                law_grown_by_distance(s, w, h, n - 1, nx, ny);
                let (a, b) = choose|a: int, b: int|
                    within(w, h, nx, ny, n - 1, a, b) && #[trigger] s[cell(w, a, b)] != 0;
                assert(within(w, h, x, y, n, a, b) && s[cell(w, a, b)] != 0);
            }
        }
        if set_within(s, w, h, x, y, n) {
            let (a, b) = choose|a: int, b: int| within(w, h, x, y, n, a, b) && #[trigger] s[cell(w, a, b)] != 0;
            let nx = if a < x { x - 1 } else if a > x { x + 1 } else { x };
            let ny = if b < y { y - 1 } else if b > y { y + 1 } else { y };
            assert(within(w, h, nx, ny, n - 1, a, b) && s[cell(w, a, b)] != 0);
            law_grown_by_distance(s, w, h, n - 1, nx, ny);
            assert(beside(w, h, x, y, nx, ny) && was[cell(w, nx, ny)] != 0);
            assert(near_set(was, w, h, x, y));
        }
    }
}

/// A mask of ones and zeros stays one, whatever is done to it.
pub proof fn law_binary_kept(s: Seq<u8>, w: int, h: int, g: Region, n: int, dx: int, dy: int)
    requires
        0 < w,
        w * h <= s.len(),
        forall|k: int| 0 <= k < s.len() ==> s[k] <= 1,
    ensures
        forall|k: int| 0 <= k < s.len() ==> grown_times(s, w, h, g, n)[k] <= 1,
        forall|k: int| 0 <= k < s.len() ==> shrunk_times(s, w, h, g, n)[k] <= 1,
        forall|k: int| 0 <= k < s.len() ==> moved(s, w, h, g, dx, dy)[k] <= 1,
    decreases n,
{
    if n > 0 {
        law_binary_kept(s, w, h, g, n - 1, dx, dy);
        assert(grown_times(s, w, h, g, n - 1).len() == s.len()) by {
            lemma_times_len(s, w, h, g, n - 1);
        }
        lemma_times_len(s, w, h, g, n - 1);
    }
    assert forall|k: int| 0 <= k < s.len() implies moved(s, w, h, g, dx, dy)[k] <= 1 by {
        if k < w * h && 0 <= k % w - dx < w && 0 <= k / w - dy < h {
            lemma_cell(w, h, k % w - dx, k / w - dy);
        }
    }
}

proof fn lemma_times_len(s: Seq<u8>, w: int, h: int, g: Region, n: int)
    ensures
        grown_times(s, w, h, g, n).len() == s.len(),
        shrunk_times(s, w, h, g, n).len() == s.len(),
    decreases n,
{
    if n > 0 {
        lemma_times_len(s, w, h, g, n - 1);
    }
}

/// A pixel outside the region of a move keeps its value; a pixel inside gets the one that lies (`dx`,
/// `dy`) before it.
pub proof fn law_moved(s: Seq<u8>, w: int, h: int, g: Region, dx: int, dy: int, x: int, y: int)
    requires
        0 <= x < w,
        0 <= y < h,
        w * h <= s.len(),
    ensures
        !g.has(x, y) ==> moved(s, w, h, g, dx, dy)[cell(w, x, y)] == s[cell(w, x, y)],
        g.has(x, y) && 0 <= x - dx < w && 0 <= y - dy < h ==> moved(s, w, h, g, dx, dy)[cell(w, x, y)] == s[cell(
            w,
            x - dx,
            y - dy,
        )],
        g.has(x, y) && !(0 <= x - dx < w && 0 <= y - dy < h) ==> moved(s, w, h, g, dx, dy)[cell(w, x, y)] == 0,
{
    lemma_cell(w, h, x, y);
}

/// The pixels near a box: at most `m` columns and rows from it, and in the frame.
pub proof fn law_around(xyxy: [usize; 4], w: int, h: int, m: int, x: int, y: int)
    requires
        0 <= m,
        0 <= x < w <= usize::MAX,
        0 <= y < h <= usize::MAX,
    ensures
        around(xyxy, w, h, m).has(x, y) <==> {
            &&& xyxy[0] - m <= x
            &&& xyxy[1] - m <= y
            &&& x <= xyxy[2] + m || w - 1 <= xyxy[2]
            &&& y <= xyxy[3] + m || h - 1 <= xyxy[3]
        },
        around(xyxy, w, h, m).x2 <= w,
        around(xyxy, w, h, m).y2 <= h,
{
}

/// Whether (`a`, `b`) lies in a region or beside it.
spec fn touches(g: Region, a: int, b: int) -> bool {
    g.x1 - 1 <= a <= g.x2 && g.y1 - 1 <= b <= g.y2
}

spec fn set_near_region(s: Seq<u8>, w: int, h: int, g: Region, x: int, y: int, n: int) -> bool {
    exists|a: int, b: int| within(w, h, x, y, n, a, b) && touches(g, a, b) && (#[trigger] s[cell(w, a, b)]) != 0
}

proof fn lemma_grown_in_region(s: Seq<u8>, w: int, h: int, g: Region, n: int, x: int, y: int)
    requires
        0 <= n,
        0 <= x < w <= usize::MAX,
        0 <= y < h <= usize::MAX,
        w * h <= s.len(),
        g.x2 <= w,
        g.y2 <= h,
        g.has(x, y),
    ensures
        grown_times(s, w, h, g, n).len() == s.len(),
        grown_times(s, w, h, g, n)[cell(w, x, y)] != 0 <==> set_near_region(s, w, h, g, x, y, n),
    decreases n,
{
    let k = cell(w, x, y);
    lemma_cell(w, h, x, y);
    lemma_times_len(s, w, h, g, n);
    let now = grown_times(s, w, h, g, n);
    if n == 0 {
        if s[k] != 0 {
            assert(within(w, h, x, y, 0, x, y) && touches(g, x, y));
        }
    } else {
        let was = grown_times(s, w, h, g, n - 1);
        lemma_times_len(s, w, h, g, n - 1);
        lemma_grown_in_region(s, w, h, g, n - 1, x, y);
        if now[k] != 0 {
            if was[k] != 0 {
                let (a, b) = choose|a: int, b: int|
                    within(w, h, x, y, n - 1, a, b) && touches(g, a, b) && (#[trigger] s[cell(w, a, b)]) != 0;
                assert(within(w, h, x, y, n, a, b) && s[cell(w, a, b)] != 0);
            } else {
                let (nx, ny) = choose|nx: int, ny: int| beside(w, h, x, y, nx, ny) && (#[trigger] was[cell(w, nx, ny)]) != 0;
                lemma_cell(w, h, nx, ny);
                if g.has(nx, ny) {
                    lemma_grown_in_region(s, w, h, g, n - 1, nx, ny);
                    let (a, b) = choose|a: int, b: int|
                        within(w, h, nx, ny, n - 1, a, b) && touches(g, a, b) && (#[trigger] s[cell(w, a, b)]) != 0;
                    assert(within(w, h, x, y, n, a, b) && s[cell(w, a, b)] != 0);
                } else {
                    law_grown_keeps(s, w, h, g, n - 1, cell(w, nx, ny));
                    assert(within(w, h, x, y, n, nx, ny) && touches(g, nx, ny) && s[cell(w, nx, ny)] != 0);
                }
            }
        }
        if set_near_region(s, w, h, g, x, y, n) {
            let (a, b) = choose|a: int, b: int|
                within(w, h, x, y, n, a, b) && touches(g, a, b) && (#[trigger] s[cell(w, a, b)]) != 0;
            lemma_cell(w, h, a, b);
            if x - 1 <= a <= x + 1 && y - 1 <= b <= y + 1 {
                law_grown_keeps(s, w, h, g, n - 1, cell(w, a, b));
                assert(beside(w, h, x, y, a, b) && was[cell(w, a, b)] != 0);
            } else {
                let px = if a < x { x - 1 } else if a > x { x + 1 } else { x };
                let py = if b < y { y - 1 } else if b > y { y + 1 } else { y };
                let nx = if g.x1 <= px < g.x2 { px } else { x };
                let ny = if g.y1 <= py < g.y2 { py } else { y };
                assert(g.has(nx, ny));
                assert(within(w, h, nx, ny, n - 1, a, b) && touches(g, a, b) && s[cell(w, a, b)] != 0);
                lemma_grown_in_region(s, w, h, g, n - 1, nx, ny);
                assert(beside(w, h, x, y, nx, ny) && was[cell(w, nx, ny)] != 0);
            }
            assert(near_set(was, w, h, x, y));
        }
    }
}

/// Growing a mask by `n` pixels near a box: a clear pixel within `n + 2` of the box is set if and only if a set pixel lies within `n`
/// of it and no further than one pixel beyond those near the box. Pixels that are not near the box stay as they are, and so do
/// all if what is near the box is no more than a line.
pub proof fn law_dilated(s: Seq<u8>, w: int, h: int, xyxy: [usize; 4], n: int, x: int, y: int)
    requires
        0 <= n,
        0 <= x < w <= usize::MAX,
        0 <= y < h <= usize::MAX,
        w * h <= s.len(),
    ensures
        ({
            let (l, t) = (if xyxy[0] < n + 2 { 0 } else { xyxy[0] - n - 2 }, if xyxy[1] < n + 2 { 0 } else { xyxy[1] - n - 2 });
            let (p, q) = (if xyxy[2] < w - 1 { xyxy[2] as int } else { w - 1 }, if xyxy[3] < h - 1 { xyxy[3] as int } else { h - 1 });
            let (r, b) = (if p + n + 2 < w - 1 { p + n + 2 } else { w - 1 }, if q + n + 2 < h - 1 { q + n + 2 } else { h - 1 });
            let now = dilated(s, w, h, xyxy, n);
            &&& now.len() == s.len()
            &&& s[y * w + x] != 0 ==> now[y * w + x] == s[y * w + x]
            &&& !(l < r && t < b && l <= x <= r && t <= y <= b) ==> now[y * w + x] == s[y * w + x]
            &&& l < r && t < b && l <= x <= r && t <= y <= b ==> (now[y * w + x] != 0 <==> exists|c: int, d: int|
                0 <= c < w && 0 <= d < h && x - n <= c <= x + n && y - n <= d <= y + n && l - 1 <= c <= r + 1 && t - 1 <= d <= b + 1
                    && (#[trigger] s[d * w + c]) != 0)
        }),
{
    let g = around(xyxy, w, h, n + 2);
    lemma_cell(w, h, x, y);
    let k = cell(w, x, y);
    lemma_times_len(s, w, h, g, n);
    law_grown_keeps(s, w, h, g, n, k);
    if extended(g) && g.has(x, y) {
        lemma_grown_in_region(s, w, h, g, n, x, y);
        if set_near_region(s, w, h, g, x, y, n) {
            let (a, b) = choose|a: int, b: int|
                within(w, h, x, y, n, a, b) && touches(g, a, b) && (#[trigger] s[cell(w, a, b)]) != 0;
            assert(s[b * w + a] != 0);
        }
        if exists|c: int, d: int| within(w, h, x, y, n, c, d) && touches(g, c, d) && (#[trigger] s[d * w + c]) != 0 {
            let (c, d) = choose|c: int, d: int| within(w, h, x, y, n, c, d) && touches(g, c, d) && (#[trigger] s[d * w + c]) != 0;
            assert(s[cell(w, c, d)] != 0);
        }
    }
}

spec fn kept_within(s: Seq<u8>, w: int, h: int, g: Region, x: int, y: int, n: int) -> bool {
    forall|a: int, b: int| within(w, h, x, y, n, a, b) ==> (#[trigger] s[cell(w, a, b)]) != 0 && g.has(a, b)
}

proof fn lemma_shrunk_by_distance(s: Seq<u8>, w: int, h: int, g: Region, n: int, x: int, y: int)
    requires
        0 <= n,
        0 <= x < w <= usize::MAX,
        0 <= y < h <= usize::MAX,
        w * h <= s.len(),
        g.x2 <= w,
        g.y2 <= h,
        g.has(x, y),
    ensures
        shrunk_times(s, w, h, g, n).len() == s.len(),
        shrunk_times(s, w, h, g, n)[cell(w, x, y)] != 0 <==> kept_within(s, w, h, g, x, y, n),
    decreases n,
{
    let k = cell(w, x, y);
    lemma_cell(w, h, x, y);
    lemma_times_len(s, w, h, g, n);
    let now = shrunk_times(s, w, h, g, n);
    if n == 0 {
        assert(within(w, h, x, y, 0, x, y));
        if kept_within(s, w, h, g, x, y, 0) {
            assert(s[cell(w, x, y)] != 0);
        }
        if s[k] != 0 {
            assert forall|a: int, b: int| within(w, h, x, y, 0, a, b) implies (#[trigger] s[cell(w, a, b)]) != 0 && g.has(a, b) by {
                assert(a == x && b == y);
            }
        }
    } else {
        let was = shrunk_times(s, w, h, g, n - 1);
        lemma_times_len(s, w, h, g, n - 1);
        lemma_shrunk_by_distance(s, w, h, g, n - 1, x, y);
        if now[k] != 0 {
            assert(!near_clear(was, w, h, g, x, y));
            assert forall|a: int, b: int| within(w, h, x, y, n, a, b) implies (#[trigger] s[cell(w, a, b)]) != 0 && g.has(a, b) by {
                let nx = if a < x { x - 1 } else if a > x { x + 1 } else { x };
                let ny = if b < y { y - 1 } else if b > y { y + 1 } else { y };
                assert(beside(w, h, x, y, nx, ny));
                let v = was[cell(w, nx, ny)];
                if v == 0 || !g.has(nx, ny) {
                    assert(beside(w, h, x, y, nx, ny) && (was[cell(w, nx, ny)] == 0 || !g.has(nx, ny)));
                    assert(near_clear(was, w, h, g, x, y));
                }
                lemma_shrunk_by_distance(s, w, h, g, n - 1, nx, ny);
                assert(within(w, h, nx, ny, n - 1, a, b));
            }
        }
        if kept_within(s, w, h, g, x, y, n) {
            assert(within(w, h, x, y, n, x, y));
            assert(kept_within(s, w, h, g, x, y, n - 1)) by {
                assert forall|a: int, b: int| within(w, h, x, y, n - 1, a, b) implies (#[trigger] s[cell(w, a, b)]) != 0 && g.has(a, b) by {
                    assert(within(w, h, x, y, n, a, b));
                }
            }
            assert forall|nx: int, ny: int| beside(w, h, x, y, nx, ny) implies (#[trigger] was[cell(w, nx, ny)]) != 0 && g.has(nx, ny) by {
                assert(within(w, h, x, y, n, nx, ny));
                assert(s[cell(w, nx, ny)] != 0);
                assert(g.has(nx, ny));
                assert forall|a: int, b: int| within(w, h, nx, ny, n - 1, a, b) implies (#[trigger] s[cell(w, a, b)]) != 0 && g.has(a, b) by {
                    assert(within(w, h, x, y, n, a, b));
                }
                lemma_shrunk_by_distance(s, w, h, g, n - 1, nx, ny);
            }
            assert(!near_clear(was, w, h, g, x, y));
        }
    }
}

/// Shrinking a mask by `n` pixels near a box clears a pixel within 3 of the box if a pixel (`c`, `d`) of the frame within `n` of it
/// is clear, or is not within 3 of the box. Pixels that are not near the box stay as they are, and so do all if what is near the
/// box is no more than a line.
pub proof fn law_eroded(s: Seq<u8>, w: int, h: int, xyxy: [usize; 4], n: int, x: int, y: int, c: int, d: int)
    requires
        0 <= n,
        0 <= x < w <= usize::MAX,
        0 <= y < h <= usize::MAX,
        w * h <= s.len(),
        0 <= c < w,
        0 <= d < h,
    ensures
        ({
            let (l, t) = (if xyxy[0] < 3 { 0 } else { xyxy[0] - 3 }, if xyxy[1] < 3 { 0 } else { xyxy[1] - 3 });
            let (p, q) = (if xyxy[2] < w - 1 { xyxy[2] as int } else { w - 1 }, if xyxy[3] < h - 1 { xyxy[3] as int } else { h - 1 });
            let (r, b) = (if p + 3 < w - 1 { p + 3 } else { w - 1 }, if q + 3 < h - 1 { q + 3 } else { h - 1 });
            let now = eroded(s, w, h, xyxy, n);
            let near = n > 0 && l < r && t < b && l <= x <= r && t <= y <= b;
            &&& now.len() == s.len()
            &&& now[y * w + x] == 0 || now[y * w + x] == s[y * w + x]
            &&& !near ==> now[y * w + x] == s[y * w + x]
            &&& near && x - n <= c <= x + n && y - n <= d <= y + n && (s[d * w + c] == 0 || c < l || c > r || d < t || d > b)
                ==> now[y * w + x] == 0
        }),
{
    let g = around(xyxy, w, h, 3);
    lemma_cell(w, h, x, y);
    lemma_cell(w, h, c, d);
    lemma_times_len(s, w, h, g, n);
    law_shrunk_keeps(s, w, h, g, n, cell(w, x, y));
    if n > 0 && extended(g) && g.has(x, y) {
        lemma_shrunk_by_distance(s, w, h, g, n, x, y);
        if within(w, h, x, y, n, c, d) && kept_within(s, w, h, g, x, y, n) {
            assert(s[cell(w, c, d)] != 0);
            assert(g.has(c, d));
        }
    }
}

/// Shrinking a mask by `n` pixels near a box keeps a pixel if all pixels of the frame within `n` of it are set and within 3 of the
/// box.
pub proof fn law_eroded_keeps(s: Seq<u8>, w: int, h: int, xyxy: [usize; 4], n: int, x: int, y: int)
    requires
        0 <= n,
        0 <= x < w <= usize::MAX,
        0 <= y < h <= usize::MAX,
        w * h <= s.len(),
        forall|c: int, d: int|
            0 <= c < w && 0 <= d < h && x - n <= c <= x + n && y - n <= d <= y + n ==> {
                &&& (#[trigger] s[cell(w, c, d)]) != 0
                &&& xyxy[0] - 3 <= c
                &&& xyxy[1] - 3 <= d
                &&& c <= xyxy[2] + 3 || w - 1 <= xyxy[2]
                &&& d <= xyxy[3] + 3 || h - 1 <= xyxy[3]
            },
    ensures
        eroded(s, w, h, xyxy, n)[y * w + x] == s[y * w + x],
{
    let g = around(xyxy, w, h, 3);
    lemma_cell(w, h, x, y);
    lemma_times_len(s, w, h, g, n);
    law_shrunk_keeps(s, w, h, g, n, cell(w, x, y));
    if n > 0 && extended(g) && g.has(x, y) {
        lemma_shrunk_by_distance(s, w, h, g, n, x, y);
        assert forall|a: int, b: int| within(w, h, x, y, n, a, b) implies (#[trigger] s[cell(w, a, b)]) != 0 && g.has(a, b) by {
            let v = s[cell(w, a, b)];
            assert(v != 0);
            law_around(xyxy, w, h, 3, a, b);
        }
        if !kept_within(s, w, h, g, x, y, n) {
            let (a, b) = choose|a: int, b: int| within(w, h, x, y, n, a, b) && !((#[trigger] s[cell(w, a, b)]) != 0 && g.has(a, b));
            let v = s[cell(w, a, b)];
            assert(v != 0);
            assert(false);
        }
    }
}

/// Moving a mask near a box: a pixel no further from the box than the move is long, and four more, gets what lay `dx` columns and
/// `dy` rows before it, and is clear if that is outside the frame. Pixels further away stay as they are, and so do all if nothing
/// is to move or what is near the box is no more than a line.
pub proof fn law_shifted(s: Seq<u8>, w: int, h: int, xyxy: [usize; 4], dx: int, dy: int, x: int, y: int)
    requires
        0 <= x < w <= usize::MAX,
        0 <= y < h <= usize::MAX,
        w * h <= s.len(),
    ensures
        ({
            let m = (if dx < 0 { -dx } else { dx }) + (if dy < 0 { -dy } else { dy }) + 4;
            let (l, t) = (if xyxy[0] < m { 0 } else { xyxy[0] - m }, if xyxy[1] < m { 0 } else { xyxy[1] - m });
            let (p, q) = (if xyxy[2] < w - 1 { xyxy[2] as int } else { w - 1 }, if xyxy[3] < h - 1 { xyxy[3] as int } else { h - 1 });
            let (r, b) = (if p + m < w - 1 { p + m } else { w - 1 }, if q + m < h - 1 { q + m } else { h - 1 });
            let now = shifted(s, w, h, xyxy, dx, dy);
            let near = l < r && t < b && l <= x <= r && t <= y <= b;
            &&& now.len() == s.len()
            &&& !near || (dx == 0 && dy == 0) ==> now[y * w + x] == s[y * w + x]
            &&& near && 0 <= x - dx < w && 0 <= y - dy < h ==> now[y * w + x] == s[(y - dy) * w + (x - dx)]
            &&& near && !(0 <= x - dx < w && 0 <= y - dy < h) ==> now[y * w + x] == 0
        }),
{
    let g = around(xyxy, w, h, shift_reach(dx, dy));
    lemma_cell(w, h, x, y);
    law_moved(s, w, h, g, dx, dy, x, y);
}

/// Growing a whole mask by `n` sets exactly the pixels that are at most `n` columns and at most `n` rows from a set one, to one.
pub proof fn law_grown_whole(s: Seq<u8>, w: int, h: int, n: int, x: int, y: int)
    requires
        0 <= n,
        0 <= x < w <= usize::MAX,
        0 <= y < h <= usize::MAX,
        w * h <= s.len(),
    ensures
        ({
            let now = grown_times(s, w, h, whole(w, h), n);
            &&& now.len() == s.len()
            &&& s[y * w + x] != 0 ==> now[y * w + x] == s[y * w + x]
            &&& s[y * w + x] == 0 ==> now[y * w + x] <= 1
            &&& now[y * w + x] != 0 <==> exists|a: int, b: int|
                0 <= a < w && 0 <= b < h && x - n <= a <= x + n && y - n <= b <= y + n && (#[trigger] s[b * w + a]) != 0
        }),
{
    lemma_cell(w, h, x, y);
    law_grown_keeps(s, w, h, whole(w, h), n, cell(w, x, y));
    if s[cell(w, x, y)] == 0 {
        lemma_grown_to_one(s, w, h, whole(w, h), n, cell(w, x, y));
    }
    law_grown_by_distance(s, w, h, n, x, y);
    if set_within(s, w, h, x, y, n) {
        let (a, b) = choose|a: int, b: int| within(w, h, x, y, n, a, b) && (#[trigger] s[cell(w, a, b)]) != 0;
        assert(s[b * w + a] != 0);
    }
    if exists|a: int, b: int| within(w, h, x, y, n, a, b) && (#[trigger] s[b * w + a]) != 0 {
        let (a, b) = choose|a: int, b: int| within(w, h, x, y, n, a, b) && (#[trigger] s[b * w + a]) != 0;
        assert(s[cell(w, a, b)] != 0);
    }
}

proof fn lemma_grown_to_one(s: Seq<u8>, w: int, h: int, g: Region, n: int, k: int)
    requires
        0 <= k < s.len(),
        s[k] == 0,
    ensures
        grown_times(s, w, h, g, n)[k] <= 1,
    decreases n,
{
    lemma_times_len(s, w, h, g, n - 1);
    if n > 0 {
        lemma_grown_to_one(s, w, h, g, n - 1, k);
    }
}

} // verus!
