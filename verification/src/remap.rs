//! Cutting pictures out of frames, and carrying masks back to where they belong.
use crate::compose::Region;
use crate::grid::{cell, lemma_cell, lemma_offset};
use vstd::prelude::*;

verus! {

/// The even number at or just below `n`.
pub open spec fn even(n: int) -> int {
    n - n % 2
}

/// The part of a `w` by `h` frame that is cut out for a box: it begins in an even column, is an even number of columns
/// wide, and is at least two pixels wide and high.
pub open spec fn cut(roi: [usize; 4], w: int, h: int) -> Region {
    let far_x = if w < 2 {
        0
    } else {
        w - 2
    };
    let far_y = if h < 2 {
        0
    } else {
        h - 2
    };
    let x1 = even(if roi[0] < far_x {
        roi[0] as int
    } else {
        far_x
    });
    let y1 = if roi[1] < far_y {
        roi[1] as int
    } else {
        far_y
    };
    let rx = if roi[2] < w {
        roi[2] as int
    } else {
        w
    };
    let ry = if roi[3] < h {
        roi[3] as int
    } else {
        h
    };
    Region {
        x1: x1 as usize,
        y1: y1 as usize,
        x2: even(if rx < x1 + 2 {
            x1 + 2
        } else {
            rx
        }) as usize,
        y2: (if ry < y1 + 2 {
            y1 + 2
        } else {
            ry
        }) as usize,
    }
}

/// The picture that is cut out of a frame: its brightness, then its colours, at half the height. Where the height is
/// odd, the half row at the end is zero.
pub open spec fn cropped(f: Seq<u8>, w: int, h: int, g: Region) -> Seq<u8> {
    let n = g.width() * g.height();
    Seq::new(
        (n + n / 2) as nat,
        |k: int|
            if k < n {
                f[(g.y1 + k / g.width()) * w + g.x1 + k % g.width()]
            } else if (k - n) / g.width() < g.height() / 2 {
                f[w * h + (g.y1 as int / 2 + (k - n) / g.width()) * w + g.x1 + (k - n) % g.width()]
            } else {
                0
            },
    )
}

/// Whether what is cut out lies inside a frame of `len` bytes, and can be counted.
pub open spec fn crop_fits(g: Region, w: int, h: int, len: int) -> bool {
    &&& (g.y2 - 1) * w + g.x2 <= len
    &&& w * h + (g.y1 as int / 2 + g.height() / 2 - 1) * w + g.x2 <= len
    &&& g.width() * g.height() * 3 <= usize::MAX
}

/// The part of a frame that is cut out for a box.
pub fn cut_of(roi: [usize; 4], w: usize, h: usize) -> (g: Region)
    requires
        w < usize::MAX,
        h < usize::MAX,
    ensures
        g == cut(roi, w as int, h as int),
        g.x1 + 2 <= g.x2,
        g.y1 + 2 <= g.y2,
        (g.x2 - g.x1) % 2 == 0,
{
    let far_x: usize = if w < 2 { 0 } else { w - 2 };
    let far_y: usize = if h < 2 { 0 } else { h - 2 };
    let a: usize = if roi[0] < far_x { roi[0] } else { far_x };
    let x1: usize = a - a % 2;
    let y1: usize = if roi[1] < far_y { roi[1] } else { far_y };
    let rx: usize = if roi[2] < w { roi[2] } else { w };
    let ry: usize = if roi[3] < h { roi[3] } else { h };
    let b: usize = if rx < x1 + 2 { x1 + 2 } else { rx };
    let x2: usize = b - b % 2;
    let y2: usize = if ry < y1 + 2 { y1 + 2 } else { ry };
    Region { x1, y1, x2, y2 }
}

proof fn lemma_row(w: int, y: int, last: int)
    requires
        0 <= y <= last,
        0 <= w,
    ensures
        0 <= y * w <= last * w,
{
    assert(0 <= y * w <= last * w) by (nonlinear_arith)
        requires
            0 <= y <= last,
            0 <= w,
    ;
}

proof fn lemma_sizes(cw: int, ch: int)
    requires
        2 <= cw,
        2 <= ch,
        cw % 2 == 0,
    ensures
        (cw * ch) % 2 == 0,
        cw * (ch / 2) <= cw * ch / 2,
        0 <= cw * ch,
{
    let half = cw / 2;
    assert(cw * ch == 2 * (half * ch)) by (nonlinear_arith)
        requires
            cw == 2 * half,
    ;
    assert(cw * (ch / 2) == half * (2 * (ch / 2))) by (nonlinear_arith)
        requires
            cw == 2 * half,
    ;
    assert(half * (2 * (ch / 2)) <= half * ch) by (nonlinear_arith)
        requires
            2 * (ch / 2) <= ch,
            0 <= half,
    ;
    assert(0 <= half * ch) by (nonlinear_arith)
        requires
            0 <= half,
            0 <= ch,
    ;
}

/// Cuts a picture out of a `w` by `h` frame; the first two corners of the box are rounded down, the others up. Returns
/// the width, the height, the column and the row where it begins, and the picture.
pub fn crop_nv12(nv12: &[u8], w: usize, h: usize, roi: [usize; 4]) -> (r: (usize, usize, usize, usize, Vec<u8>))
    requires
        w < usize::MAX,
        h < usize::MAX,
        crop_fits(cut(roi, w as int, h as int), w as int, h as int, nv12@.len() as int),
    ensures
        ({
            let g = cut(roi, w as int, h as int);
            &&& r.0 == g.width()
            &&& r.1 == g.height()
            &&& r.2 == g.x1
            &&& r.3 == g.y1
            &&& r.4@ == cropped(nv12@, w as int, h as int, g)
        }),
{
    assert(nv12.len() == nv12@.len());
    let g = cut_of(roi, w, h);
    let cw: usize = g.x2 - g.x1;
    let ch: usize = g.y2 - g.y1;
    let mut out: Vec<u8> = Vec::new();
    let ghost want = cropped(nv12@, w as int, h as int, g);
    proof {
        lemma_sizes(cw as int, ch as int);
    }
    let n: usize = cw * ch;
    let total: usize = n + n / 2;
    assert(0 * cw == 0) by (nonlinear_arith);
    for dy in 0..ch
        invariant
            want == cropped(nv12@, w as int, h as int, g),
            cw == g.width(),
            ch == g.height(),
            2 <= cw,
            n == cw * ch,
            n * 3 <= usize::MAX,
            nv12@.len() <= usize::MAX,
            (g.y2 - 1) * w + g.x2 <= nv12@.len(),
            out@.len() == dy * cw,
            forall|k: int| 0 <= k < out@.len() ==> out@[k] == want[k],
    {
        proof {
            lemma_row(w as int, g.y1 + dy, g.y2 - 1);
            lemma_cell(cw as int, ch as int, 0, dy as int);
        }
        let src: usize = (g.y1 + dy) * w + g.x1;
        for dx in 0..cw
            invariant
                want == cropped(nv12@, w as int, h as int, g),
                cw == g.width(),
                ch == g.height(),
                dy < ch,
                n == cw * ch,
                src == (g.y1 + dy) * w + g.x1,
                src + cw <= nv12@.len() <= usize::MAX,
                out@.len() == dy * cw + dx,
                forall|k: int| 0 <= k < out@.len() ==> out@[k] == want[k],
        {
            proof {
                lemma_cell(cw as int, ch as int, dx as int, dy as int);
                assert(cell(cw as int, dx as int, dy as int) == dy * cw + dx);
            }
            out.push(nv12[src + dx]);
        }
        assert(dy * cw + cw == (dy + 1) * cw) by (nonlinear_arith);
    }
    let rows: usize = ch / 2;
    let base: usize = w * h;
    assert(ch * cw == n) by (nonlinear_arith)
        requires
            n == cw * ch,
    ;
    for dy in 0..rows
        invariant
            want == cropped(nv12@, w as int, h as int, g),
            cw == g.width(),
            ch == g.height(),
            rows == ch / 2,
            2 <= cw,
            n == cw * ch,
            cw * rows <= n / 2,
            n * 3 <= usize::MAX,
            nv12@.len() <= usize::MAX,
            base == w * h,
            w * h + (g.y1 as int / 2 + rows - 1) * w + g.x2 <= nv12@.len(),
            out@.len() == n + dy * cw,
            forall|k: int| 0 <= k < out@.len() ==> out@[k] == want[k],
    {
        proof {
            lemma_row(w as int, g.y1 as int / 2 + dy, g.y1 as int / 2 + rows - 1);
            lemma_cell(cw as int, rows as int, 0, dy as int);
        }
        let src: usize = base + (g.y1 / 2 + dy) * w + g.x1;
        for dx in 0..cw
            invariant
                want == cropped(nv12@, w as int, h as int, g),
                cw == g.width(),
                ch == g.height(),
                dy < rows,
                rows == ch / 2,
                cw * rows <= n / 2,
                n == cw * ch,
                src == w * h + (g.y1 as int / 2 + dy) * w + g.x1,
                src + cw <= nv12@.len() <= usize::MAX,
                out@.len() == n + dy * cw + dx,
                forall|k: int| 0 <= k < out@.len() ==> out@[k] == want[k],
        {
            proof {
                lemma_cell(cw as int, rows as int, dx as int, dy as int);
                assert(cell(cw as int, dx as int, dy as int) == dy * cw + dx);
            }
            out.push(nv12[src + dx]);
        }
        assert(dy * cw + cw == (dy + 1) * cw) by (nonlinear_arith);
    }
    assert(cw * rows == rows * cw) by (nonlinear_arith);
    while out.len() < total
        invariant
            want == cropped(nv12@, w as int, h as int, g),
            cw == g.width(),
            ch == g.height(),
            rows == ch / 2,
            2 <= cw,
            n == cw * ch,
            total == n + n / 2,
            n + rows * cw <= out@.len() <= total,
            forall|k: int| 0 <= k < out@.len() ==> out@[k] == want[k],
        decreases total - out@.len(),
    {
        proof {
            let k = out@.len() - n;
            assert(k / (cw as int) >= rows) by (nonlinear_arith)
                requires
                    k >= rows * cw,
                    cw > 0,
            ;
        }
        out.push(0);
    }
    assert(out@ =~= want);
    (cw, ch, g.x1, g.y1, out)
}

/// The mask after the pixels that a smaller, square mask shows as set have been set. Pixel (`x`, `y`) is shown by the
/// cell in row `rows[y]` and column `cols[x]`; with `flip` the picture is mirrored.
pub open spec fn carried(
    out: Seq<u8>,
    w: int,
    m: Seq<u8>,
    size: int,
    rows: Seq<usize>,
    cols: Seq<usize>,
    flip: bool,
) -> Seq<u8> {
    Seq::new(
        out.len(),
        |k: int|
            {
                let x = if flip {
                    w - 1 - k % w
                } else {
                    k % w
                };
                if k / w < rows.len() && m[rows[k / w] * size + cols[x]] == 1 {
                    1
                } else {
                    out[k]
                }
            },
    )
}

/// Sets the pixels of a `w` by `h` mask that a smaller mask of `size` by `size` cells shows as set.
pub fn unletterbox_into(
    m: &[u8],
    size: usize,
    rows: &Vec<usize>,
    cols: &Vec<usize>,
    w: usize,
    h: usize,
    flip: bool,
    out: &mut [u8],
)
    requires
        m@.len() == size * size,
        rows@.len() == h,
        cols@.len() == w,
        forall|y: int| 0 <= y < h ==> (#[trigger] rows@[y]) < size,
        forall|x: int| 0 <= x < w ==> (#[trigger] cols@[x]) < size,
        old(out)@.len() == w * h,
    ensures
        final(out)@ == carried(old(out)@, w as int, m@, size as int, rows@, cols@, flip),
{
    let ghost start = out@;
    let ghost want = carried(start, w as int, m@, size as int, rows@, cols@, flip);
    assert(m.len() == m@.len());
    assert(out.len() == out@.len());
    let total: usize = out.len();
    for k in 0..total
        invariant
            want == carried(start, w as int, m@, size as int, rows@, cols@, flip),
            m@.len() == size * size,
            m@.len() <= usize::MAX,
            rows@.len() == h,
            cols@.len() == w,
            forall|y: int| 0 <= y < h ==> (#[trigger] rows@[y]) < size,
            forall|x: int| 0 <= x < w ==> (#[trigger] cols@[x]) < size,
            total == w * h,
            out@.len() == total,
            start.len() == total,
            forall|j: int| 0 <= j < k ==> out@[j] == want[j],
            forall|j: int| k <= j < total ==> out@[j] == start[j],
    {
        proof {
            lemma_offset(w as int, h as int, k as int);
        }
        let x: usize = if flip { w - 1 - k % w } else { k % w };
        let my: usize = rows[k / w];
        let mx: usize = cols[x];
        proof {
            lemma_cell(size as int, size as int, mx as int, my as int);
            assert(cell(size as int, mx as int, my as int) == my * size + mx);
        }
        if m[my * size + mx] == 1 {
            out[k] = 1;
        }
    }
    assert(out@ =~= want);
}

/// The canvas of `size` by `size` cells onto which a small mask of `cw` by `ch` cells has been drawn, stretched to
/// `bw` by `bh` cells, from column `x` and row `y` on.
pub open spec fn drawn(crop: Seq<u8>, cw: int, ch: int, x: int, y: int, bw: int, bh: int, size: int) -> Seq<u8> {
    Seq::new(
        (size * size) as nat,
        |k: int|
            {
                let px = k % size - x;
                let py = k / size - y;
                if 0 <= px < bw && 0 <= py < bh && crop[(py * ch / bh) * cw + px * cw / bw] == 1 {
                    1u8
                } else {
                    0u8
                }
            },
    )
}

proof fn lemma_stretch(p: int, c: int, b: int)
    requires
        0 <= p < b,
        0 < c,
    ensures
        0 <= p * c / b < c,
        0 <= p * c,
{
    assert(0 <= p * c && p * c < b * c) by (nonlinear_arith)
        requires
            0 <= p < b,
            0 < c,
    ;
    assert(0 <= p * c / b < c) by (nonlinear_arith)
        requires
            0 <= p * c < b * c,
            0 < b,
    ;
}

/// Draws a small mask onto a canvas.
pub fn draw_crop(
    crop: &[u8],
    cw: usize,
    ch: usize,
    x: usize,
    y: usize,
    bw: usize,
    bh: usize,
    size: usize,
) -> (canvas: Vec<u8>)
    requires
        0 < cw,
        0 < ch,
        crop@.len() == cw * ch,
        x + bw <= size,
        y + bh <= size,
        size * size <= usize::MAX,
        bw * cw <= usize::MAX,
        bh * ch <= usize::MAX,
    ensures
        canvas@ == drawn(
            crop@,
            cw as int,
            ch as int,
            x as int,
            y as int,
            bw as int,
            bh as int,
            size as int,
        ),
{
    let mut canvas: Vec<u8> = Vec::new();
    let ghost want = drawn(crop@, cw as int, ch as int, x as int, y as int, bw as int, bh as int, size as int);
    assert(crop.len() == crop@.len());
    let total: usize = size * size;
    for k in 0..total
        invariant
            total == size * size,
            0 < cw,
            0 < ch,
            crop@.len() == cw * ch,
            crop@.len() <= usize::MAX,
            x + bw <= size,
            y + bh <= size,
            bw * cw <= usize::MAX,
            bh * ch <= usize::MAX,
            want == drawn(crop@, cw as int, ch as int, x as int, y as int, bw as int, bh as int, size as int),
            canvas@.len() == k,
            forall|j: int| 0 <= j < k ==> canvas@[j] == want[j],
    {
        assert(size > 0) by (nonlinear_arith)
            requires
                k < size * size,
                k >= 0,
                size >= 0,
        ;
        let cx: usize = k % size;
        let cy: usize = k / size;
        if x <= cx && cx - x < bw && y <= cy && cy - y < bh {
            let px: usize = cx - x;
            let py: usize = cy - y;
            proof {
                lemma_stretch(px as int, cw as int, bw as int);
                lemma_stretch(py as int, ch as int, bh as int);
                assert(px * cw <= bw * cw) by (nonlinear_arith)
                    requires
                        px <= bw,
                        0 <= cw,
                ;
                assert(py * ch <= bh * ch) by (nonlinear_arith)
                    requires
                        py <= bh,
                        0 <= ch,
                ;
                lemma_cell(cw as int, ch as int, px * cw / bw as int, py * ch / bh as int);
            }
            let sx: usize = px * cw / bw;
            let sy: usize = py * ch / bh;
            assert(cell(cw as int, sx as int, sy as int) == sy * cw + sx);
            canvas.push(if crop[sy * cw + sx] == 1 { 1 } else { 0 });
        } else {
            canvas.push(0);
        }
    }
    assert(canvas@ =~= want);
    canvas
}

/// The part of a `w` by `h` frame to cover for a face: its box, whose corners are rounded down, with `ex` columns and
/// `ey` rows added on either side, and cut off at the frame.
pub open spec fn cover(xyxy: [usize; 4], ex: int, ey: int, w: int, h: int) -> Region {
    Region {
        x1: (if xyxy[0] < ex {
            0
        } else {
            xyxy[0] - ex
        }) as usize,
        y1: (if xyxy[1] < ey {
            0
        } else {
            xyxy[1] - ey
        }) as usize,
        x2: (if xyxy[2] + 1 + ex < w {
            xyxy[2] + 1 + ex
        } else {
            w
        }) as usize,
        y2: (if xyxy[3] + 1 + ey < h {
            xyxy[3] + 1 + ey
        } else {
            h
        }) as usize,
    }
}

/// The part of a frame to cover for a face.
pub fn face_cover(xyxy: [usize; 4], ex: usize, ey: usize, w: usize, h: usize) -> (g: Region)
    requires
        xyxy[2] + 1 + ex <= usize::MAX,
        xyxy[3] + 1 + ey <= usize::MAX,
    ensures
        g == cover(xyxy, ex as int, ey as int, w as int, h as int),
        g.x2 <= w,
        g.y2 <= h,
{
    let x2: usize = xyxy[2] + 1 + ex;
    let y2: usize = xyxy[3] + 1 + ey;
    Region {
        x1: if xyxy[0] < ex { 0 } else { xyxy[0] - ex },
        y1: if xyxy[1] < ey { 0 } else { xyxy[1] - ey },
        x2: if x2 < w { x2 } else { w },
        y2: if y2 < h { y2 } else { h },
    }
}

/// A face that lies inside the frame is covered whole, wherever it is and however much is added.
pub proof fn law_face_is_covered(xyxy: [usize; 4], ex: int, ey: int, w: int, h: int, x: int, y: int)
    requires
        0 <= ex,
        0 <= ey,
        w <= usize::MAX,
        h <= usize::MAX,
        xyxy[0] <= x <= xyxy[2],
        xyxy[1] <= y <= xyxy[3],
        0 <= x < w,
        0 <= y < h,
    ensures
        cover(xyxy, ex, ey, w, h).has(x, y),
{
}

/// The part of a frame that is cut out for a box begins in the even column at or before that of the box, ends at or before the first even
/// column behind it, and holds all of its rows; it stays in the frame, has an even number of columns, and at least two columns and rows.
pub proof fn law_cut(roi: [usize; 4], w: int, h: int)
    requires
        2 <= w <= usize::MAX,
        2 <= h <= usize::MAX,
        roi[0] + 2 <= roi[2] <= w,
        roi[1] + 2 <= roi[3] <= h,
    ensures
        ({
            let g = cut(roi, w, h);
            &&& g.x1 % 2 == 0
            &&& g.x2 % 2 == 0
            &&& roi[0] - 1 <= g.x1 <= roi[0]
            &&& roi[2] - 1 <= g.x2 <= roi[2]
            &&& g.y1 == roi[1]
            &&& g.y2 == roi[3]
            &&& g.x1 + 2 <= g.x2
        }),
{
}

/// A box that reaches out of the frame, or is smaller than two pixels, is cut out as the nearest part of the frame with at least two columns
/// and rows.
pub proof fn law_cut_stays_inside(roi: [usize; 4], w: int, h: int)
    requires
        2 <= w < usize::MAX,
        2 <= h < usize::MAX,
    ensures
        ({
            let g = cut(roi, w, h);
            &&& g.x1 + 2 <= g.x2 <= w
            &&& g.y1 + 2 <= g.y2 <= h
            &&& g.x1 % 2 == 0 && g.x2 % 2 == 0
            &&& roi[0] + 2 >= w ==> g.x1 == w - 2 - w % 2
            &&& roi[1] + 2 >= h ==> g.y1 == h - 2
            &&& roi[2] >= w ==> g.x2 == w - w % 2
            &&& roi[3] >= h ==> g.y2 == h
            &&& roi[2] < roi[0] && roi[0] + 2 < w ==> g.x2 == g.x1 + 2
            &&& roi[3] < roi[1] && roi[1] + 2 < h ==> g.y2 == g.y1 + 2
        }),
{
}

/// The picture that is cut out: the brightness of each of its pixels is that of the frame at the same place, and the colours are those of
/// the frame at half the height.
pub proof fn law_cropped(f: Seq<u8>, w: int, h: int, g: Region, x: int, y: int)
    requires
        g.x1 < g.x2,
        g.y1 < g.y2,
        g.width() % 2 == 0,
        0 <= x < g.width(),
        0 <= y < g.height(),
    ensures
        ({
            let (cw, ch) = (g.width(), g.height());
            let c = cropped(f, w, h, g);
            &&& c.len() == cw * ch + cw * ch / 2
            &&& c[y * cw + x] == f[(g.y1 + y) * w + (g.x1 + x)]
            &&& y < ch / 2 ==> c[cw * ch + y * cw + x] == f[w * h + (g.y1 as int / 2 + y) * w + (g.x1 + x)]
        }),
{
    let (cw, ch) = (g.width(), g.height());
    lemma_cell(cw, ch, x, y);
    if ch >= 2 {
        lemma_sizes(cw, ch);
    }
    if y < ch / 2 {
        lemma_cell(cw, ch / 2, x, y);
        let k = cw * ch + (y * cw + x);
        assert(k - cw * ch == cell(cw, x, y));
        assert(cw * (ch / 2) <= cw * ch / 2);
    }
}

/// A pixel of a mask after a smaller mask has been carried to it: set, if the cell that shows it is one, or, if the picture is mirrored,
/// the cell that shows its mirror image; otherwise as it was.
pub proof fn law_carried(out: Seq<u8>, w: int, h: int, m: Seq<u8>, size: int, rows: Seq<usize>, cols: Seq<usize>, flip: bool, x: int, y: int)
    requires
        out.len() == w * h,
        rows.len() == h,
        cols.len() == w,
        0 <= x < w,
        0 <= y < h,
    ensures
        ({
            let c = carried(out, w, m, size, rows, cols, flip);
            let col = cols[if flip { w - 1 - x } else { x }];
            &&& c.len() == out.len()
            &&& c[y * w + x] == (if m[rows[y] * size + col] == 1 { 1u8 } else { out[y * w + x] })
        }),
{
    lemma_cell(w, h, x, y);
}

/// A cell of a canvas onto which a small mask has been drawn: one, if it lies in the place that was drawn to and the cell of the small mask
/// under it is one; zero otherwise.
pub proof fn law_drawn(crop: Seq<u8>, cw: int, ch: int, x: int, y: int, bw: int, bh: int, size: int, cx: int, cy: int)
    requires
        0 <= cx < size,
        0 <= cy < size,
    ensures
        ({
            let d = drawn(crop, cw, ch, x, y, bw, bh, size);
            let inside = x <= cx < x + bw && y <= cy < y + bh;
            &&& d.len() == size * size
            &&& d[cy * size + cx] == (if inside && crop[((cy - y) * ch / bh) * cw + (cx - x) * cw / bw] == 1 { 1u8 } else { 0u8 })
        }),
{
    lemma_cell(size, size, cx, cy);
}

/// What is covered for a face: exactly the pixels of the frame no more than `ex` columns and `ey` rows from its box.
pub proof fn law_cover(xyxy: [usize; 4], ex: int, ey: int, w: int, h: int, x: int, y: int)
    requires
        0 <= ex,
        0 <= ey,
        0 <= x < w <= usize::MAX,
        0 <= y < h <= usize::MAX,
    ensures
        cover(xyxy, ex, ey, w, h).has(x, y) <==> xyxy[0] - ex <= x <= xyxy[2] + ex && xyxy[1] - ey <= y <= xyxy[3] + ey,
{
}

} // verus!
