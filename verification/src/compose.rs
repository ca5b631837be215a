//! Mask composition on NV12 frames.
use crate::grid::{cell, lemma_cell, lemma_offset, lemma_offset_open};
use vstd::prelude::*;

pub use crate::morph::{dilate, dilate3, dilate_region, erode_region, shift_mask_region};

verus! {

/// How the masked part of a frame is made unrecognisable.
#[derive(Debug, Clone, Copy, PartialEq, Eq, Structural)]
pub enum MaskStyle {
    /// Blocks of `cell` by `cell` pixels, each painted in its mean colour.
    Mosaic { cell: usize },
    /// Two box passes, horizontal then vertical, over `radius` pixels to each side.
    Blur { radius: usize },
    /// Plain black.
    Solid,
}

/// A rectangle of pixels: columns `x1..x2` of rows `y1..y2`.
#[derive(Debug, Clone, Copy, PartialEq, Eq, Structural)]
pub struct Region {
    pub x1: usize,
    pub y1: usize,
    pub x2: usize,
    pub y2: usize,
}

impl Region {
    pub open spec fn wf(self) -> bool {
        self.x1 <= self.x2 && self.y1 <= self.y2
    }

    pub open spec fn width(self) -> int {
        self.x2 - self.x1
    }

    pub open spec fn height(self) -> int {
        self.y2 - self.y1
    }

    pub open spec fn has(self, x: int, y: int) -> bool {
        self.x1 <= x < self.x2 && self.y1 <= y < self.y2
    }
}

/// Whether some pixel of the mask is set.
pub open spec fn any_set(mask: Seq<u8>) -> bool {
    exists|i: int| 0 <= i < mask.len() && mask[i] != 0
}

/// `b` holds the least and the greatest column and row (both ends belong to it) of the set
/// pixels among the first `n` of a mask with rows of `w` pixels.
pub open spec fn tight_upto(mask: Seq<u8>, w: int, n: int, b: Region) -> bool {
    &&& forall|i: int|
        0 <= i < n && #[trigger] mask[i] != 0 ==> b.x1 <= i % w <= b.x2 && b.y1 <= i / w <= b.y2
    &&& exists|i: int| 0 <= i < n && #[trigger] mask[i] != 0 && i % w == b.x1
    &&& exists|i: int| 0 <= i < n && #[trigger] mask[i] != 0 && i / w == b.y1
    &&& exists|i: int| 0 <= i < n && #[trigger] mask[i] != 0 && i % w == b.x2
    &&& exists|i: int| 0 <= i < n && #[trigger] mask[i] != 0 && i / w == b.y2
}

/// The tightest box around the set pixels of a mask; both ends belong to it.
pub open spec fn bounds(mask: Seq<u8>, w: int) -> Region {
    choose|b: Region| tight_upto(mask, w, mask.len() as int, b)
}

/// The box around the set pixels, grown by `pad` to every side and cut off at the frame.
pub open spec fn padded(mask: Seq<u8>, w: int, h: int, pad: int) -> Region {
    let b = bounds(mask, w);
    Region {
        x1: (if b.x1 < pad { 0 } else { b.x1 - pad }) as usize,
        y1: (if b.y1 < pad { 0 } else { b.y1 - pad }) as usize,
        x2: (if b.x2 + 1 + pad < w { b.x2 + 1 + pad } else { w }) as usize,
        y2: (if b.y2 + 1 + pad < h { b.y2 + 1 + pad } else { h }) as usize,
    }
}

/// A mask has only one tightest box.
pub proof fn lemma_tight_unique(mask: Seq<u8>, w: int, n: int, a: Region, b: Region)
    requires
        tight_upto(mask, w, n, a),
        tight_upto(mask, w, n, b),
    ensures
        a == b,
{
    let i1 = choose|i: int| 0 <= i < n && #[trigger] mask[i] != 0 && i % w == a.x1;
    let i2 = choose|i: int| 0 <= i < n && #[trigger] mask[i] != 0 && i / w == a.y1;
    let i3 = choose|i: int| 0 <= i < n && #[trigger] mask[i] != 0 && i % w == a.x2;
    let i4 = choose|i: int| 0 <= i < n && #[trigger] mask[i] != 0 && i / w == a.y2;
    let j1 = choose|i: int| 0 <= i < n && #[trigger] mask[i] != 0 && i % w == b.x1;
    let j2 = choose|i: int| 0 <= i < n && #[trigger] mask[i] != 0 && i / w == b.y1;
    let j3 = choose|i: int| 0 <= i < n && #[trigger] mask[i] != 0 && i % w == b.x2;
    let j4 = choose|i: int| 0 <= i < n && #[trigger] mask[i] != 0 && i / w == b.y2;
    assert(mask[i1] != 0 && mask[i2] != 0 && mask[i3] != 0 && mask[i4] != 0);
    assert(mask[j1] != 0 && mask[j2] != 0 && mask[j3] != 0 && mask[j4] != 0);
}

/// The box around the set pixels of a `w` by `h` mask, grown by `pad` and cut off at the frame;
/// `None` for an empty mask.
pub fn mask_bbox(mask: &[u8], w: usize, h: usize, pad: usize) -> (res: Option<Region>)
    requires
        mask@.len() == w * h,
        w + pad <= usize::MAX,
        h + pad <= usize::MAX,
    ensures
        res is None <==> !any_set(mask@),
        res is Some ==> res->0 == padded(mask@, w as int, h as int, pad as int),
        res is Some ==> tight_upto(mask@, w as int, mask@.len() as int, bounds(mask@, w as int)),
        res is Some ==> bounds(mask@, w as int).x2 < w && bounds(mask@, w as int).y2 < h,
{
    let mut b = Region { x1: 0, y1: 0, x2: 0, y2: 0 };
    let mut found = false;
    for i in 0..mask.len()
        invariant
            mask@.len() == w * h,
            !found ==> forall|j: int| 0 <= j < i ==> mask@[j] == 0,
            found ==> tight_upto(mask@, w as int, i as int, b),
            found ==> exists|j: int| 0 <= j < i && mask@[j] != 0,
            found ==> b.x2 < w && b.y2 < h,
    {
        if mask[i] != 0 {
            proof {
                assert(w > 0) by (nonlinear_arith)
                    requires
                        i < w * h,
                        0 <= i,
                        0 <= w,
                ;
                lemma_offset(w as int, h as int, i as int);
            }
            let x: usize = i % w;
            let y: usize = i / w;
            let ghost old_b = b;
            if found {
                if x < b.x1 {
                    b.x1 = x;
                }
                if y < b.y1 {
                    b.y1 = y;
                }
                if b.x2 < x {
                    b.x2 = x;
                }
                if b.y2 < y {
                    b.y2 = y;
                }
            } else {
                b = Region { x1: x, y1: y, x2: x, y2: y };
            }
            proof {
                let m = mask@;
                assert(m[i as int] != 0);
                if found {
                    let j1 = choose|j: int| 0 <= j < i && #[trigger] m[j] != 0 && j % w as int == old_b.x1;
                    let j2 = choose|j: int| 0 <= j < i && #[trigger] m[j] != 0 && j / w as int == old_b.y1;
                    let j3 = choose|j: int| 0 <= j < i && #[trigger] m[j] != 0 && j % w as int == old_b.x2;
                    let j4 = choose|j: int| 0 <= j < i && #[trigger] m[j] != 0 && j / w as int == old_b.y2;
                    assert(m[j1] != 0 && m[j2] != 0 && m[j3] != 0 && m[j4] != 0);
                }
                assert(tight_upto(m, w as int, i + 1, b));
            }
            found = true;
        }
    }
    if !found {
        return None;
    }
    proof {
        assert(tight_upto(mask@, w as int, mask@.len() as int, b));
        lemma_tight_unique(mask@, w as int, mask@.len() as int, b, bounds(mask@, w as int));
    }
    let x1: usize = if b.x1 < pad { 0 } else { b.x1 - pad };
    let y1: usize = if b.y1 < pad { 0 } else { b.y1 - pad };
    let x2: usize = if b.x2 + 1 + pad < w { b.x2 + 1 + pad } else { w };
    let y2: usize = if b.y2 + 1 + pad < h { b.y2 + 1 + pad } else { h };
    Some(Region { x1, y1, x2, y2 })
}

/// Where the samples of a plane lie in a frame: sample (`x`, `y`) is byte
/// `base + y * stride + x * step`.
#[derive(Debug, Clone, Copy, PartialEq, Eq, Structural)]
pub struct Plane {
    pub base: usize,
    pub stride: usize,
    pub step: usize,
}

impl Plane {
    pub open spec fn at(self, x: int, y: int) -> int {
        self.base + cell(self.stride as int, x * self.step, y)
    }

    pub open spec fn col(self, k: int) -> int {
        ((k - self.base) % self.stride as int) / self.step as int
    }

    pub open spec fn row(self, k: int) -> int {
        (k - self.base) / self.stride as int
    }

    /// Whether byte `k` of a frame is a sample of this plane.
    pub open spec fn owns(self, k: int) -> bool {
        self.base <= k && ((k - self.base) % self.stride as int) % self.step as int == 0
    }

    /// Whether the samples of `g` lie in a frame of `len` bytes, each row within its stride.
    pub open spec fn fits(self, g: Region, len: int) -> bool {
        &&& 0 < self.step
        &&& 0 < self.stride
        &&& g.x2 * self.step <= self.stride
        &&& forall|x: int, y: int| g.has(x, y) ==> #[trigger] self.at(x, y) < len
    }
}

/// A sample of a plane is found again from the byte that holds it.
pub proof fn lemma_plane_at(p: Plane, g: Region, x: int, y: int)
    requires
        0 < p.step,
        0 < p.stride,
        g.x2 * p.step <= p.stride,
        g.has(x, y),
    ensures
        p.base <= p.at(x, y),
        p.owns(p.at(x, y)),
        p.col(p.at(x, y)) == x,
        p.row(p.at(x, y)) == y,
        0 <= x * p.step < p.stride,
        0 <= y * p.stride,
{
    assert(0 <= x * p.step && x * p.step + p.step <= p.stride) by (nonlinear_arith)
        requires
            0 <= x < g.x2,
            0 < p.step,
            g.x2 * p.step <= p.stride,
    ;
    assert(0 <= y * p.stride) by (nonlinear_arith)
        requires
            0 <= y,
            0 < p.stride,
    ;
    lemma_cell(p.stride as int, y + 1, x * p.step, y);
    vstd::arithmetic::div_mod::lemma_fundamental_div_mod_converse(x * p.step, p.step as int, x, 0);
}

/// Two bytes of one plane that hold the same sample are the same byte.
pub proof fn lemma_plane_owns(p: Plane, k: int)
    requires
        0 < p.step,
        0 < p.stride,
        p.owns(k),
    ensures
        p.at(p.col(k), p.row(k)) == k,
        0 <= p.col(k),
        0 <= p.row(k),
{
    let rel = k - p.base;
    lemma_offset_open(p.stride as int, rel);
    lemma_offset_open(p.step as int, rel % p.stride as int);
}

/// Which pixels of the mask make a sample count as masked.
#[derive(Debug, Clone, Copy, PartialEq, Eq, Structural)]
pub enum Hit {
    /// The pixel itself.
    Pixel,
    /// Any of the four pixels that share the chroma sample.
    Quad,
    /// The upper left of those four pixels.
    Corner,
}

impl Hit {
    /// Whether sample (`x`, `y`) is masked by a mask with rows of `w` pixels.
    pub open spec fn on(self, mask: Seq<u8>, w: int, x: int, y: int) -> bool {
        match self {
            Hit::Pixel => mask[cell(w, x, y)] != 0,
            Hit::Quad => {
                ||| mask[cell(w, 2 * x, 2 * y)] != 0
                ||| mask[cell(w, 2 * x + 1, 2 * y)] != 0
                ||| mask[cell(w, 2 * x, 2 * y + 1)] != 0
                ||| mask[cell(w, 2 * x + 1, 2 * y + 1)] != 0
            },
            Hit::Corner => mask[cell(w, 2 * x, 2 * y)] != 0,
        }
    }

    /// Whether every sample of `g` has its pixels in a `w` by `h` mask.
    pub open spec fn fits(self, g: Region, w: int, h: int) -> bool {
        match self {
            Hit::Pixel => g.x2 <= w && g.y2 <= h,
            _ => 2 * g.x2 <= w && 2 * g.y2 <= h,
        }
    }

    /// Whether sample (`x`, `y`) is masked.
    fn test(self, mask: &[u8], w: usize, h: usize, x: usize, y: usize, Ghost(g): Ghost<Region>) -> (r: bool)
        requires
            mask@.len() == w * h,
            self.fits(g, w as int, h as int),
            g.has(x as int, y as int),
        ensures
            r == self.on(mask@, w as int, x as int, y as int),
    {
        assert(mask.len() == w * h);
        match self {
            Hit::Pixel => {
                proof {
                    lemma_cell(w as int, h as int, x as int, y as int);
                }
                mask[y * w + x] != 0
            },
            Hit::Quad => {
                proof {
                    lemma_cell(w as int, h as int, 2 * x as int, 2 * y as int);
                    lemma_cell(w as int, h as int, 2 * x as int + 1, 2 * y as int);
                    lemma_cell(w as int, h as int, 2 * x as int, 2 * y as int + 1);
                    lemma_cell(w as int, h as int, 2 * x as int + 1, 2 * y as int + 1);
                }
                mask[2 * y * w + 2 * x] != 0 || mask[2 * y * w + (2 * x + 1)] != 0
                    || mask[(2 * y + 1) * w + 2 * x] != 0 || mask[(2 * y + 1) * w + (2 * x + 1)] != 0
            },
            Hit::Corner => {
                proof {
                    lemma_cell(w as int, h as int, 2 * x as int, 2 * y as int);
                }
                mask[2 * y * w + 2 * x] != 0
            },
        }
    }
}

/// The frame `s` with the masked samples of `g` replaced by `vals`, which holds one value for
/// each sample of `g`, row by row.
pub open spec fn overlaid(
    s: Seq<u8>,
    p: Plane,
    g: Region,
    mask: Seq<u8>,
    w: int,
    hit: Hit,
    vals: Seq<u8>,
) -> Seq<u8> {
    Seq::new(
        s.len(),
        |k: int|
            if p.owns(k) && g.has(p.col(k), p.row(k)) && hit.on(mask, w, p.col(k), p.row(k)) {
                vals[cell(g.width(), p.col(k) - g.x1, p.row(k) - g.y1)]
            } else {
                s[k]
            },
    )
}

/// As `overlaid`, but only for the samples before column `cx` of row `cy`.
spec fn overlaid_upto(
    s: Seq<u8>,
    p: Plane,
    g: Region,
    mask: Seq<u8>,
    w: int,
    hit: Hit,
    vals: Seq<u8>,
    cx: int,
    cy: int,
) -> Seq<u8> {
    Seq::new(
        s.len(),
        |k: int|
            if p.owns(k) && g.has(p.col(k), p.row(k)) && hit.on(mask, w, p.col(k), p.row(k)) && (p.row(
                k,
            ) < cy || (p.row(k) == cy && p.col(k) < cx)) {
                vals[cell(g.width(), p.col(k) - g.x1, p.row(k) - g.y1)]
            } else {
                s[k]
            },
    )
}

/// Replaces the masked samples of `g` by `vals`.
fn overlay(nv12: &mut [u8], p: Plane, g: Region, mask: &[u8], w: usize, h: usize, hit: Hit, vals: &[u8])
    requires
        g.wf(),
        p.fits(g, old(nv12)@.len() as int),
        mask@.len() == w * h,
        hit.fits(g, w as int, h as int),
        vals@.len() == g.width() * g.height(),
    ensures
        final(nv12)@ == overlaid(old(nv12)@, p, g, mask@, w as int, hit, vals@),
{
    let ghost s = old(nv12)@;
    let width: usize = g.x2 - g.x1;
    let mut y: usize = g.y1;
    assert(vals.len() == g.width() * g.height());
    assert(nv12@ =~= overlaid_upto(s, p, g, mask@, w as int, hit, vals@, g.x1 as int, y as int));
    while y < g.y2
        invariant
            g.wf(),
            p.fits(g, s.len() as int),
            mask@.len() == w * h,
            hit.fits(g, w as int, h as int),
            vals.len() == g.width() * g.height(),
            g.y1 <= y <= g.y2,
            width == g.width(),
            nv12@ == overlaid_upto(s, p, g, mask@, w as int, hit, vals@, g.x1 as int, y as int),
        decreases g.y2 - y,
    {
        let mut x: usize = g.x1;
        while x < g.x2
            invariant
                g.wf(),
                p.fits(g, s.len() as int),
                mask@.len() == w * h,
                hit.fits(g, w as int, h as int),
                vals.len() == g.width() * g.height(),
                g.y1 <= y < g.y2,
                g.x1 <= x <= g.x2,
                width == g.width(),
                nv12@ == overlaid_upto(s, p, g, mask@, w as int, hit, vals@, x as int, y as int),
            decreases g.x2 - x,
        {
            proof {
                lemma_plane_at(p, g, x as int, y as int);
                lemma_cell(g.width(), g.height(), x - g.x1, y - g.y1);
                assert(p.at(x as int, y as int) < s.len());
                assert(nv12.len() == s.len());
            }
            let ghost before = nv12@;
            if hit.test(mask, w, h, x, y, Ghost(g)) {
                let v: u8 = vals[(y - g.y1) * width + (x - g.x1)];
                nv12[p.base + (y * p.stride + x * p.step)] = v;
            }
            proof {
                let next = overlaid_upto(s, p, g, mask@, w as int, hit, vals@, x + 1, y as int);
                assert forall|k: int| 0 <= k < s.len() implies nv12@[k] == next[k] by {
                    if p.owns(k) && p.col(k) == x && p.row(k) == y {
                        lemma_plane_owns(p, k);
                    }
                }
                assert(nv12@ =~= next);
            }
            x = x + 1;
        }
        proof {
            let next = overlaid_upto(s, p, g, mask@, w as int, hit, vals@, g.x1 as int, y + 1);
            assert(nv12@ =~= next);
        }
        y = y + 1;
    }
    assert(nv12@ =~= overlaid(s, p, g, mask@, w as int, hit, vals@));
}

/// The buffer `s`, with rows of `w` cells, after the cells of `g` have been set to `v`.
pub open spec fn filled(s: Seq<u8>, w: int, g: Region, v: u8) -> Seq<u8> {
    Seq::new(s.len(), |k: int| if g.has(k % w, k / w) { v } else { s[k] })
}

/// Sets the cells of `g` in a buffer of `h` rows of `w` cells to `v`.
pub fn fill_rect(buf: &mut [u8], w: usize, h: usize, g: Region, v: u8)
    requires
        old(buf)@.len() == w * h,
        g.x2 <= w,
        g.y2 <= h,
    ensures
        final(buf)@ == filled(old(buf)@, w as int, g, v),
{
    let ghost s = old(buf)@;
    let mut y: usize = g.y1;
    assert(buf@ =~= filled(s, w as int, Region { y2: y, ..g }, v));
    while y < g.y2
        invariant
            s.len() == w * h,
            g.x2 <= w,
            g.y2 <= h,
            g.y1 <= y,
            y <= g.y2 || y == g.y1,
            buf@ == filled(s, w as int, Region { y2: y, ..g }, v),
        decreases g.y2 - y,
    {
        let mut x: usize = g.x1;
        while x < g.x2
            invariant
                s.len() == w * h,
                g.x2 <= w,
                g.y2 <= h,
                g.y1 <= y < g.y2,
                g.x1 <= x,
                x <= g.x2 || x == g.x1,
                buf@.len() == s.len(),
                forall|k: int|
                    0 <= k < s.len() ==> #[trigger] buf@[k] == if g.has(k % w as int, k / w as int) && (k
                        / w as int) < y {
                        v
                    } else if k / w as int == y && g.x1 <= k % w as int && k % (w as int) < x {
                        v
                    } else {
                        s[k]
                    },
            decreases g.x2 - x,
        {
            proof {
                lemma_cell(w as int, h as int, x as int, y as int);
                assert(buf.len() == s.len());
            }
            buf[y * w + x] = v;
            proof {
                assert forall|k: int|
                    #![trigger s[k]]
                    0 <= k < s.len() && k / w as int == y && k % w as int == x implies k == cell(
                    w as int,
                    x as int,
                    y as int,
                ) by {
                    lemma_offset(w as int, h as int, k);
                }
            }
            x = x + 1;
        }
        proof {
            assert forall|k: int| 0 <= k < s.len() implies #[trigger] buf@[k] == filled(
                s,
                w as int,
                Region { y2: (y + 1) as usize, ..g },
                v,
            )[k] by {
                if w > 0 {
                    lemma_offset(w as int, h as int, k);
                }
            }
            assert(buf@ =~= filled(s, w as int, Region { y2: (y + 1) as usize, ..g }, v));
        }
        y = y + 1;
    }
    assert(buf@ =~= filled(s, w as int, g, v));
}

/// The sum of the samples in columns `x1..x2` of row `y`.
pub open spec fn row_sum(s: Seq<u8>, p: Plane, y: int, x1: int, x2: int) -> int
    decreases x2 - x1,
{
    if x2 <= x1 {
        0
    } else {
        row_sum(s, p, y, x1, x2 - 1) + s[p.at(x2 - 1, y)]
    }
}

/// The sum of the samples in columns `x1..x2` of rows `y1..y2`.
pub open spec fn block_sum(s: Seq<u8>, p: Plane, x1: int, x2: int, y1: int, y2: int) -> int
    decreases y2 - y1,
{
    if y2 <= y1 {
        0
    } else {
        block_sum(s, p, x1, x2, y1, y2 - 1) + row_sum(s, p, y2 - 1, x1, x2)
    }
}

/// The mean of the samples of `b`, rounded down.
pub open spec fn mean(s: Seq<u8>, p: Plane, b: Region) -> u8 {
    (block_sum(s, p, b.x1 as int, b.x2 as int, b.y1 as int, b.y2 as int) / (b.width() * b.height())) as u8
}

fn block_mean(nv12: &[u8], p: Plane, b: Region) -> (r: u8)
    requires
        b.x1 < b.x2,
        b.y1 < b.y2,
        b.width() * b.height() <= usize::MAX,
        p.fits(b, nv12@.len() as int),
    ensures
        r == mean(nv12@, p, b),
{
    let ghost s = nv12@;
    let ghost bw = b.width();
    let mut sum: u128 = 0;
    let mut n: u128 = 0;
    let mut y: usize = b.y1;
    assert((y - b.y1) * bw == 0) by (nonlinear_arith)
        requires
            y == b.y1,
    ;
    while y < b.y2
        invariant
            s == nv12@,
            bw == b.width(),
            b.x1 < b.x2,
            b.width() * b.height() <= usize::MAX,
            b.y1 <= y <= b.y2,
            p.fits(b, s.len() as int),
            n == (y - b.y1) * bw,
            sum <= 255 * n,
            sum == block_sum(s, p, b.x1 as int, b.x2 as int, b.y1 as int, y as int),
        decreases b.y2 - y,
    {
        let ghost n0 = n;
        let ghost sum0 = sum;
        let mut x: usize = b.x1;
        while x < b.x2
            invariant
                s == nv12@,
                bw == b.width(),
                b.x1 < b.x2,
                b.width() * b.height() <= usize::MAX,
                b.y1 <= y < b.y2,
                b.x1 <= x <= b.x2,
                p.fits(b, s.len() as int),
                n0 == (y - b.y1) * bw,
                n == n0 + (x - b.x1),
                sum <= 255 * n,
                sum == sum0 + row_sum(s, p, y as int, b.x1 as int, x as int),
            decreases b.x2 - x,
        {
            proof {
                lemma_plane_at(p, b, x as int, y as int);
                assert(p.at(x as int, y as int) < s.len());
                assert(nv12.len() == s.len());
                assert(n0 + bw <= usize::MAX) by (nonlinear_arith)
                    requires
                        n0 == (y - b.y1) * bw,
                        y + 1 - b.y1 <= b.height(),
                        bw == b.width(),
                        0 <= bw,
                        b.width() * b.height() <= usize::MAX,
                ;
            }
            sum = sum + nv12[p.base + (y * p.stride + x * p.step)] as u128;
            n = n + 1;
            x = x + 1;
        }
        proof {
            assert((y + 1 - b.y1) * bw == (y - b.y1) * bw + bw) by (nonlinear_arith);
        }
        y = y + 1;
    }
    proof {
        assert(n > 0) by (nonlinear_arith)
            requires
                n == (b.y2 - b.y1) * bw,
                b.y2 > b.y1,
                bw > 0,
        ;
        assert(n == b.width() * b.height()) by (nonlinear_arith)
            requires
                n == (b.y2 - b.y1) * bw,
                bw == b.width(),
                b.height() == b.y2 - b.y1,
        ;
        assert(0 <= sum / n <= 255) by (nonlinear_arith)
            requires
                n > 0,
                0 <= sum <= 255 * n,
        ;
    }
    (sum / n) as u8
}

/// Where the block of length `c` that holds `v` begins, when blocks are counted off from `lo`.
pub open spec fn block_lo(lo: int, c: int, v: int) -> int {
    lo + ((v - lo) / c) * c
}

/// The block of `c` by `c` samples of `g` that holds (`x`, `y`); blocks are counted off from the
/// upper left corner of `g` and cut off at its lower right.
pub open spec fn block_of(g: Region, c: int, x: int, y: int) -> Region {
    let bx = block_lo(g.x1 as int, c, x);
    let by = block_lo(g.y1 as int, c, y);
    Region {
        x1: bx as usize,
        y1: by as usize,
        x2: (if g.x2 - bx > c { bx + c } else { g.x2 as int }) as usize,
        y2: (if g.y2 - by > c { by + c } else { g.y2 as int }) as usize,
    }
}

/// For each sample of `g`, row by row, the mean of its block.
pub open spec fn mosaic_vals(s: Seq<u8>, p: Plane, g: Region, c: int) -> Seq<u8> {
    Seq::new(
        (g.width() * g.height()) as nat,
        |i: int| mean(s, p, block_of(g, c, g.x1 + i % g.width(), g.y1 + i / g.width())),
    )
}

proof fn lemma_block_lo(lo: int, c: int, b: int, v: int)
    requires
        0 < c,
        lo <= b <= v < b + c,
        (b - lo) % c == 0,
    ensures
        block_lo(lo, c, v) == b,
{
    let q = (b - lo) / c;
    vstd::arithmetic::div_mod::lemma_fundamental_div_mod(b - lo, c);
    assert(c * q == q * c) by (nonlinear_arith);
    vstd::arithmetic::div_mod::lemma_fundamental_div_mod_converse(v - lo, c, q, v - b);
}

/// A smaller region fits where a larger one does.
proof fn lemma_fits_sub(p: Plane, g: Region, b: Region, len: int)
    requires
        p.fits(g, len),
        g.x1 <= b.x1 <= b.x2 <= g.x2,
        g.y1 <= b.y1 <= b.y2 <= g.y2,
        g.width() * g.height() <= usize::MAX,
    ensures
        p.fits(b, len),
        b.width() * b.height() <= usize::MAX,
{
    assert(b.x2 * p.step <= g.x2 * p.step) by (nonlinear_arith)
        requires
            b.x2 <= g.x2,
            0 < p.step,
    ;
    assert(b.width() * b.height() <= g.width() * g.height()) by (nonlinear_arith)
        requires
            0 <= b.width() <= g.width(),
            0 <= b.height() <= g.height(),
    ;
    assert forall|x: int, y: int| b.has(x, y) implies #[trigger] p.at(x, y) < len by {
        assert(g.has(x, y));
    }
}

/// The mean colour of the block of each sample of `g`.
fn mosaic_values(nv12: &[u8], p: Plane, g: Region, c: usize) -> (vals: Vec<u8>)
    requires
        0 < c,
        g.wf(),
        g.width() * g.height() <= usize::MAX,
        p.fits(g, nv12@.len() as int),
    ensures
        vals@ == mosaic_vals(nv12@, p, g, c as int),
{
    let ghost s = nv12@;
    let width: usize = g.x2 - g.x1;
    let height: usize = g.y2 - g.y1;
    let mut vals: Vec<u8> = vec![0; width * height];
    let mut by: usize = g.y1;
    proof {
        vstd::arithmetic::div_mod::lemma_small_mod(0, c as nat);
        assert forall|i: int| #![trigger vals@[i]] 0 <= i < vals@.len() implies 0 <= i / width as int by {
            assert(width > 0) by (nonlinear_arith)
                requires
                    0 <= i < width * height,
                    0 <= width,
            ;
            lemma_offset(width as int, height as int, i);
        }
    }
    while by < g.y2
        invariant
            s == nv12@,
            0 < c,
            g.wf(),
            width == g.width(),
            height == g.height(),
            g.width() * g.height() <= usize::MAX,
            p.fits(g, s.len() as int),
            g.y1 <= by <= g.y2,
            by < g.y2 ==> (by - g.y1) % c as int == 0,
            vals@.len() == width * height,
            forall|i: int|
                0 <= i < vals@.len() && (g.y1 + i / width as int) < by ==> #[trigger] vals@[i] == mosaic_vals(
                    s,
                    p,
                    g,
                    c as int,
                )[i],
        decreases g.y2 - by,
    {
        let ey: usize = if g.y2 - by > c { by + c } else { g.y2 };
        let mut bx: usize = g.x1;
        proof {
            vstd::arithmetic::div_mod::lemma_small_mod(0, c as nat);
        }
        while bx < g.x2
            invariant
                s == nv12@,
                0 < c,
                g.wf(),
                width == g.width(),
                height == g.height(),
                g.width() * g.height() <= usize::MAX,
                p.fits(g, s.len() as int),
                g.y1 <= by < ey <= g.y2,
                ey == (if g.y2 - by > c { by + c } else { g.y2 as int }),
                (by - g.y1) % c as int == 0,
                g.x1 <= bx <= g.x2,
                bx < g.x2 ==> (bx - g.x1) % c as int == 0,
                vals@.len() == width * height,
                forall|i: int|
                    0 <= i < vals@.len() && ((g.y1 + i / width as int) < by || (g.y1 + i / width as int) < ey
                        && (g.x1 + i % width as int) < bx) ==> #[trigger] vals@[i] == mosaic_vals(
                        s,
                        p,
                        g,
                        c as int,
                    )[i],
            decreases g.x2 - bx,
        {
            let ex: usize = if g.x2 - bx > c { bx + c } else { g.x2 };
            let b = Region { x1: bx, y1: by, x2: ex, y2: ey };
            proof {
                lemma_fits_sub(p, g, b, s.len() as int);
            }
            let m: u8 = block_mean(nv12, p, b);
            let r = Region { x1: bx - g.x1, y1: by - g.y1, x2: ex - g.x1, y2: ey - g.y1 };
            fill_rect(&mut vals, width, height, r, m);
            proof {
                assert forall|i: int|
                    #![trigger vals@[i]]
                    0 <= i < vals@.len() && r.has(i % width as int, i / width as int) implies block_of(
                    g,
                    c as int,
                    g.x1 + i % width as int,
                    g.y1 + i / width as int,
                ) == b by {
                    lemma_block_lo(g.x1 as int, c as int, bx as int, g.x1 + i % width as int);
                    lemma_block_lo(g.y1 as int, c as int, by as int, g.y1 + i / width as int);
                }
                if g.x2 - bx > c {
                    vstd::arithmetic::div_mod::lemma_mod_add_multiples_vanish(bx - g.x1, c as int);
                }
            }
            bx = ex;
        }
        proof {
            assert forall|i: int|
                #![trigger vals@[i]]
                0 <= i < vals@.len() implies 0 <= i % width as int && i % (width as int) < width by {
                assert(width > 0) by (nonlinear_arith)
                    requires
                        0 <= i < width * height,
                        0 <= width,
                ;
            }
            if g.y2 - by > c {
                vstd::arithmetic::div_mod::lemma_mod_add_multiples_vanish(by - g.y1, c as int);
            }
        }
        by = ey;
    }
    proof {
        assert forall|i: int| 0 <= i < vals@.len() implies #[trigger] vals@[i] == mosaic_vals(
            s,
            p,
            g,
            c as int,
        )[i] by {
            assert(width > 0) by (nonlinear_arith)
                requires
                    0 <= i < width * height,
                    0 <= width,
            ;
            lemma_offset(width as int, height as int, i);
        }
        assert(vals@ =~= mosaic_vals(s, p, g, c as int));
    }
    vals
}

/// `i`, held between 0 and `hi`.
pub open spec fn clamped(i: int, hi: int) -> int {
    if i < 0 {
        0
    } else if i > hi {
        hi
    } else {
        i
    }
}

/// The sum of the `n` samples from `a` on of the line whose sample `i` is byte
/// `base + i * stride`; past either end (0 and `hi`) the end itself is taken again.
pub open spec fn taps(s: Seq<u8>, base: int, stride: int, hi: int, a: int, n: int) -> int
    decreases n,
{
    if n <= 0 {
        0
    } else {
        taps(s, base, stride, hi, a, n - 1) + s[base + clamped(a + n - 1, hi) * stride]
    }
}

/// The mean of the `2 * r + 1` samples around sample `i` of a line, rounded down.
pub open spec fn box_mean(s: Seq<u8>, base: int, stride: int, hi: int, i: int, r: int) -> u8 {
    (taps(s, base, stride, hi, i - r, 2 * r + 1) / (2 * r + 1)) as u8
}

/// The horizontal pass over `g`, row by row. It samples the columns of `g` alone.
pub open spec fn row_blurred(s: Seq<u8>, p: Plane, g: Region, r: int) -> Seq<u8> {
    Seq::new(
        (g.width() * g.height()) as nat,
        |i: int|
            box_mean(
                s,
                p.at(g.x1 as int, g.y1 + i / g.width()),
                p.step as int,
                g.width() - 1,
                i % g.width(),
                r,
            ),
    )
}

/// Both passes over `g`, row by row. The vertical pass samples the rows of `g` alone.
pub open spec fn blur_vals(s: Seq<u8>, p: Plane, g: Region, r: int) -> Seq<u8> {
    let t = row_blurred(s, p, g, r);
    Seq::new(
        (g.width() * g.height()) as nat,
        |i: int| box_mean(t, i % g.width(), g.width(), g.height() - 1, i / g.width(), r),
    )
}

proof fn lemma_taps_bound(s: Seq<u8>, base: int, stride: int, hi: int, a: int, n: int)
    requires
        0 <= n,
    ensures
        0 <= taps(s, base, stride, hi, a, n) <= 255 * n,
    decreases n,
{
    if n > 0 {
        lemma_taps_bound(s, base, stride, hi, a, n - 1);
    }
}

/// Moving the window by one sample drops its first sample and takes in the next.
proof fn lemma_taps_slide(s: Seq<u8>, base: int, stride: int, hi: int, a: int, n: int)
    requires
        0 <= n,
    ensures
        taps(s, base, stride, hi, a + 1, n) + s[base + clamped(a, hi) * stride] == taps(
            s,
            base,
            stride,
            hi,
            a,
            n + 1,
        ),
    decreases n,
{
    reveal_with_fuel(taps, 2);
    if n > 0 {
        lemma_taps_slide(s, base, stride, hi, a, n - 1);
        assert(a + 1 + n - 1 == a + n);
    }
}

/// The offset of `clamped(x - r + d, hi)`.
fn tap_index(x: usize, d: usize, r: usize, hi: usize) -> (i: usize)
    requires
        x <= hi,
    ensures
        i == clamped(x - r + d, hi as int),
{
    if d < r {
        let back: usize = r - d;
        if x < back {
            0
        } else {
            x - back
        }
    } else {
        let ahead: usize = d - r;
        if hi - x < ahead {
            hi
        } else {
            x + ahead
        }
    }
}

proof fn lemma_tap_in(base: int, stride: int, hi: int, c: int, len: int)
    requires
        0 <= base,
        0 <= stride,
        0 <= c <= hi,
        base + hi * stride < len,
    ensures
        0 <= c * stride <= hi * stride,
        0 <= base + c * stride < len,
{
    assert(0 <= c * stride <= hi * stride) by (nonlinear_arith)
        requires
            0 <= stride,
            0 <= c <= hi,
    ;
}

/// The box means around all samples of a line.
fn box_line(
    src: &[u8],
    base: usize,
    stride: usize,
    hi: usize,
    r: usize,
) -> (line: Vec<u8>)
    requires
        r <= 64,
        hi < usize::MAX,
        base + hi * stride < src@.len(),
    ensures
        line@.len() == hi + 1,
        forall|i: int|
            0 <= i <= hi ==> #[trigger] line@[i] == box_mean(
                src@,
                base as int,
                stride as int,
                hi as int,
                i,
                r as int,
            ),
{
    let ghost s = src@;
    let mut line: Vec<u8> = Vec::new();
    let win: u32 = 2 * r as u32 + 1;
    let mut sum: u32 = 0;
    let mut d: usize = 0;
    while d < 2 * r + 1
        invariant
            s == src@,
            r <= 64,
            d <= 2 * r + 1,
            base + hi * stride < s.len(),
            sum <= 255 * d,
            sum == taps(s, base as int, stride as int, hi as int, 0 - r, d as int),
        decreases 2 * r + 1 - d,
    {
        let c: usize = tap_index(0, d, r, hi);
        proof {
            lemma_tap_in(base as int, stride as int, hi as int, c as int, s.len() as int);
            assert(src.len() == s.len());
            assert(0 - r + (d + 1) - 1 == 0 - r + d);
        }
        sum = sum + src[base + c * stride] as u32;
        d = d + 1;
    }
    let mut i: usize = 0;
    while i <= hi
        invariant
            s == src@,
            r <= 64,
            win == 2 * r + 1,
            hi < usize::MAX,
            i <= hi + 1,
            base + hi * stride < s.len(),
            line@.len() == i,
            sum == taps(s, base as int, stride as int, hi as int, i - r, 2 * r + 1),
            forall|j: int|
                0 <= j < i ==> #[trigger] line@[j] == box_mean(
                    s,
                    base as int,
                    stride as int,
                    hi as int,
                    j,
                    r as int,
                ),
        decreases hi + 1 - i,
    {
        proof {
            lemma_taps_bound(s, base as int, stride as int, hi as int, i - r, 2 * r + 1);
            assert(0 <= sum / win <= 255) by (nonlinear_arith)
                requires
                    0 <= sum <= 255 * win,
                    win > 0,
            ;
        }
        line.push((sum / win) as u8);
        let ahead: usize = tap_index(i, 2 * r + 1, r, hi);
        let behind: usize = tap_index(i, 0, r, hi);
        proof {
            lemma_tap_in(base as int, stride as int, hi as int, ahead as int, s.len() as int);
            lemma_tap_in(base as int, stride as int, hi as int, behind as int, s.len() as int);
            assert(src.len() == s.len());
            lemma_taps_slide(s, base as int, stride as int, hi as int, i - r, 2 * r + 1);
            assert(i - r + (2 * r + 2) - 1 == i - r + (2 * r + 1));
            lemma_taps_bound(s, base as int, stride as int, hi as int, i - r + 1, 2 * r + 1);
        }
        sum = sum + src[base + ahead * stride] as u32;
        sum = sum - src[base + behind * stride] as u32;
        i = i + 1;
    }
    line
}

/// Both box passes over `g`.
fn blur_values(nv12: &[u8], p: Plane, g: Region, r: usize) -> (vals: Vec<u8>)
    requires
        r <= 64,
        g.wf(),
        g.width() * g.height() <= usize::MAX,
        p.fits(g, nv12@.len() as int),
    ensures
        vals@ == blur_vals(nv12@, p, g, r as int),
{
    let ghost s = nv12@;
    let width: usize = g.x2 - g.x1;
    let height: usize = g.y2 - g.y1;
    let mut vals: Vec<u8> = Vec::new();
    if width == 0 || height == 0 {
        proof {
            assert(g.width() * g.height() == 0) by (nonlinear_arith)
                requires
                    g.width() == 0 || g.height() == 0,
            ;
            assert(vals@ =~= blur_vals(s, p, g, r as int));
        }
        return vals;
    }
    let mut tmp: Vec<u8> = Vec::new();
    let mut y: usize = g.y1;
    assert(0 == (y - g.y1) * width) by (nonlinear_arith)
        requires
            y == g.y1,
    ;
    while y < g.y2
        invariant
            s == nv12@,
            r <= 64,
            width == g.width() > 0,
            height == g.height() > 0,
            g.width() * g.height() <= usize::MAX,
            p.fits(g, s.len() as int),
            g.y1 <= y <= g.y2,
            tmp@.len() == (y - g.y1) * width,
            forall|i: int|
                0 <= i < tmp@.len() ==> #[trigger] tmp@[i] == row_blurred(s, p, g, r as int)[i],
        decreases g.y2 - y,
    {
        proof {
            lemma_plane_at(p, g, g.x1 as int, y as int);
            lemma_plane_at(p, g, g.x2 - 1, y as int);
            assert((g.x2 - 1) * p.step == g.x1 * p.step + (width - 1) * p.step) by (nonlinear_arith)
                requires
                    g.x2 - 1 == g.x1 + (width - 1),
            ;
            assert(p.at(g.x2 - 1, y as int) < s.len());
            assert(nv12.len() == s.len());
        }
        let ghost tmp0 = tmp@;
        let mut line: Vec<u8> = box_line(nv12, p.base + y * p.stride + g.x1 * p.step, p.step, width - 1, r);
        let ghost l = line@;
        tmp.append(&mut line);
        proof {
            assert((y + 1 - g.y1) * width == (y - g.y1) * width + width) by (nonlinear_arith);
            assert((y + 1 - g.y1) * width <= width * height) by (nonlinear_arith)
                requires
                    y + 1 - g.y1 <= height,
                    0 <= width,
            ;
            assert forall|i: int| 0 <= i < tmp@.len() implies #[trigger] tmp@[i] == row_blurred(
                s,
                p,
                g,
                r as int,
            )[i] by {
                if i < tmp0.len() {
                    assert(tmp@[i] == tmp0[i]);
                } else {
                    let j = i - tmp0.len();
                    assert(tmp@[i] == l[j]);
                    lemma_cell(width as int, height as int, j, y - g.y1);
                }
            }
        }
        y = y + 1;
    }
    proof {
        assert((g.y2 - g.y1) * width == g.width() * g.height()) by (nonlinear_arith)
            requires
                g.y2 - g.y1 == g.height(),
                width == g.width(),
        ;
    }
    assert(tmp@ =~= row_blurred(s, p, g, r as int));
    let mut cols: Vec<Vec<u8>> = Vec::new();
    let mut x: usize = 0;
    while x < width
        invariant
            r <= 64,
            width == g.width() > 0,
            height == g.height() > 0,
            tmp@.len() == g.width() * g.height(),
            x <= width,
            cols@.len() == x,
            forall|c: int| 0 <= c < x ==> (#[trigger] cols@[c])@.len() == height,
            forall|c: int, q: int|
                0 <= c < x && 0 <= q < height ==> #[trigger] cols@[c]@[q] == box_mean(
                    tmp@,
                    c,
                    width as int,
                    height - 1,
                    q,
                    r as int,
                ),
        decreases width - x,
    {
        proof {
            lemma_cell(width as int, height as int, x as int, height - 1);
        }
        let col: Vec<u8> = box_line(&tmp, x, width, height - 1, r);
        cols.push(col);
        x = x + 1;
    }
    let mut i: usize = 0;
    let area: usize = tmp.len();
    while i < area
        invariant
            width == g.width() > 0,
            height == g.height() > 0,
            area == g.width() * g.height(),
            i <= area,
            vals@.len() == i,
            cols@.len() == width,
            forall|c: int| 0 <= c < width ==> (#[trigger] cols@[c])@.len() == height,
            forall|c: int, q: int|
                0 <= c < width && 0 <= q < height ==> #[trigger] cols@[c]@[q] == box_mean(
                    tmp@,
                    c,
                    width as int,
                    height - 1,
                    q,
                    r as int,
                ),
            tmp@ == row_blurred(s, p, g, r as int),
            forall|j: int| 0 <= j < i ==> #[trigger] vals@[j] == blur_vals(s, p, g, r as int)[j],
        decreases area - i,
    {
        proof {
            lemma_offset(width as int, height as int, i as int);
        }
        vals.push(cols[i % width][i / width]);
        i = i + 1;
    }
    assert(vals@ =~= blur_vals(s, p, g, r as int));
    vals
}

/// By how much a style reaches beyond the set pixels.
pub open spec fn reach(style: MaskStyle) -> int {
    match style {
        MaskStyle::Mosaic { cell } => cell as int,
        MaskStyle::Blur { radius } => radius * 3,
        MaskStyle::Solid => 0,
    }
}

/// The chroma samples of the pixels of `g`.
pub open spec fn half(g: Region) -> Region {
    Region {
        x1: (g.x1 / 2) as usize,
        y1: (g.y1 / 2) as usize,
        x2: ((g.x2 + 1) / 2) as usize,
        y2: ((g.y2 + 1) / 2) as usize,
    }
}

/// The brightness plane of a frame with rows of `w` pixels.
pub open spec fn luma(w: int) -> Plane {
    Plane { base: 0, stride: w as usize, step: 1 }
}

/// The plane of the first (`c` is 0) or the second (`c` is 1) colour difference of a `w` by `h` frame.
pub open spec fn chroma(w: int, h: int, c: int) -> Plane {
    Plane { base: (w * h + c) as usize, stride: w as usize, step: 2 }
}

/// `n` times the value `v`.
pub open spec fn constant(n: int, v: u8) -> Seq<u8> {
    Seq::new(n as nat, |i: int| v)
}

/// Black: brightness 16, both colour differences 128.
pub open spec fn blackened(s: Seq<u8>, w: int, h: int, mask: Seq<u8>, g: Region) -> Seq<u8> {
    let q = half(g);
    let grey = constant(q.width() * q.height(), 128);
    let s1 = overlaid(s, luma(w), g, mask, w, Hit::Pixel, constant(g.width() * g.height(), 16));
    let s2 = overlaid(s1, chroma(w, h, 0), q, mask, w, Hit::Quad, grey);
    overlaid(s2, chroma(w, h, 1), q, mask, w, Hit::Quad, grey)
}

/// Block means: brightness in blocks of `c`, each colour difference in blocks of half that.
pub open spec fn pixelated(s: Seq<u8>, w: int, h: int, mask: Seq<u8>, g: Region, c: int) -> Seq<u8> {
    let q = half(g);
    let cc = if c / 2 < 1 { 1 } else { c / 2 };
    let u = chroma(w, h, 0);
    let v = chroma(w, h, 1);
    let s1 = overlaid(s, luma(w), g, mask, w, Hit::Pixel, mosaic_vals(s, luma(w), g, c));
    let s2 = overlaid(s1, u, q, mask, w, Hit::Quad, mosaic_vals(s, u, q, cc));
    overlaid(s2, v, q, mask, w, Hit::Quad, mosaic_vals(s, v, q, cc))
}

/// Box blur: brightness with radius `r`, each colour difference with half of it.
pub open spec fn blurred(s: Seq<u8>, w: int, h: int, mask: Seq<u8>, g: Region, r: int) -> Seq<u8> {
    let q = half(g);
    let u = chroma(w, h, 0);
    let v = chroma(w, h, 1);
    let s1 = overlaid(s, luma(w), g, mask, w, Hit::Pixel, blur_vals(s, luma(w), g, r));
    let s2 = overlaid(s1, u, q, mask, w, Hit::Corner, blur_vals(s, u, q, (r + 1) / 2));
    overlaid(s2, v, q, mask, w, Hit::Corner, blur_vals(s, v, q, (r + 1) / 2))
}

/// The frame `s` after the mask has been applied in the given style.
pub open spec fn composed(s: Seq<u8>, w: int, h: int, mask: Seq<u8>, style: MaskStyle) -> Seq<u8> {
    let g = padded(mask, w, h, reach(style));
    if !any_set(mask) {
        s
    } else {
        match style {
            MaskStyle::Solid => blackened(s, w, h, mask, g),
            MaskStyle::Mosaic { cell } => pixelated(s, w, h, mask, g, if cell < 2 { 2 } else { cell as int }),
            MaskStyle::Blur { radius } => blurred(
                s,
                w,
                h,
                mask,
                g,
                if radius < 1 { 1 } else if radius > 64 { 64 } else { radius as int },
            ),
        }
    }
}

/// What a frame and a mask must be like to be composed: one mask pixel for each pixel, a frame
/// that holds the brightness plane and the chroma rows, and a touched region that covers whole
/// chroma samples. The last holds of every mask where both sides of the frame are even.
pub open spec fn composable(len: int, w: int, h: int, mask: Seq<u8>, style: MaskStyle) -> bool {
    let g = padded(mask, w, h, reach(style));
    &&& mask.len() == w * h
    &&& w * h + (h / 2) * w <= len
    &&& w + reach(style) <= usize::MAX
    &&& h + reach(style) <= usize::MAX
    &&& any_set(mask) ==> (w % 2 == 0 && h % 2 == 0) || (g.x2 + g.x2 % 2 <= w && g.y2 + g.y2 % 2 <= h)
}

proof fn lemma_luma_fits(w: int, h: int, g: Region, len: int)
    requires
        0 < w <= usize::MAX,
        g.x2 <= w,
        g.y2 <= h,
        w * h <= len,
    ensures
        luma(w).fits(g, len),
{
    let p = luma(w);
    assert forall|x: int, y: int| g.has(x, y) implies #[trigger] p.at(x, y) < len by {
        lemma_cell(w, h, x, y);
        assert(x * p.step == x) by (nonlinear_arith)
            requires
                p.step == 1,
        ;
    }
}

proof fn lemma_chroma_fits(w: int, h: int, c: int, q: Region, len: int)
    requires
        0 < w <= usize::MAX,
        0 <= h,
        2 * q.x2 <= w,
        2 * q.y2 <= h,
        0 <= c <= 1,
        w * h + (h / 2) * w <= len,
        0 <= w * h + c <= usize::MAX,
    ensures
        chroma(w, h, c).fits(q, len),
{
    let p = chroma(w, h, c);
    assert(q.x2 * p.step <= p.stride) by (nonlinear_arith)
        requires
            2 * q.x2 <= w,
            p.step <= 2,
            p.stride == w,
    ;
    assert forall|x: int, y: int| q.has(x, y) implies #[trigger] p.at(x, y) < len by {
        assert(0 <= x * p.step && x * p.step + c < w) by (nonlinear_arith)
            requires
                0 <= x < q.x2,
                2 * q.x2 <= w,
                0 <= c < p.step <= 2,
        ;
        lemma_cell(w, h / 2, x * p.step + c, y);
        assert(w * (h / 2) == (h / 2) * w) by (nonlinear_arith);
    }
}

/// A region around set pixels: not empty, inside the frame, and its chroma samples too.
proof fn lemma_touched(mask: Seq<u8>, w: int, h: int, style: MaskStyle, len: int)
    requires
        0 <= w,
        0 <= h,
        composable(len, w, h, mask, style),
        any_set(mask),
        tight_upto(mask, w, mask.len() as int, bounds(mask, w)),
        bounds(mask, w).x2 < w <= usize::MAX,
        bounds(mask, w).y2 < h <= usize::MAX,
    ensures
        padded(mask, w, h, reach(style)).wf(),
        half(padded(mask, w, h, reach(style))).wf(),
        padded(mask, w, h, reach(style)).x2 <= w,
        padded(mask, w, h, reach(style)).y2 <= h,
        2 * half(padded(mask, w, h, reach(style))).x2 <= w,
        2 * half(padded(mask, w, h, reach(style))).y2 <= h,
        w * h + 2 <= len,
{
    let b = bounds(mask, w);
    let i = choose|i: int| 0 <= i < mask.len() && #[trigger] mask[i] != 0 && i % w == b.x1;
    assert(mask[i] != 0);
    assert(b.x1 <= i % w <= b.x2 && b.y1 <= i / w <= b.y2);
    let g = padded(mask, w, h, reach(style));
    assert(g.x2 >= 1 && g.y2 >= 1);
    assert(2 <= (h / 2) * w) by (nonlinear_arith)
        requires
            h >= 2,
            w >= 2,
    ;
}

/// A rectangle inside another rectangle holds no more cells.
proof fn lemma_area(g: Region, w: int, h: int, len: int)
    requires
        g.wf(),
        g.x2 <= w,
        g.y2 <= h,
        w * h <= len,
    ensures
        g.width() * g.height() <= len,
{
    assert(g.width() * g.height() <= w * h) by (nonlinear_arith)
        requires
            0 <= g.width() <= w,
            0 <= g.height() <= h,
    ;
}

fn constant_values(n: usize, v: u8) -> (vals: Vec<u8>)
    ensures
        vals@ == constant(n as int, v),
{
    let vals: Vec<u8> = vec![v; n];
    assert(vals@ =~= constant(n as int, v));
    vals
}

fn solid(nv12: &mut [u8], w: usize, h: usize, mask: &[u8], g: Region)
    requires
        w > 0,
        mask@.len() == w * h,
        w * h + (h / 2) * w <= old(nv12)@.len(),
        w * h + 2 <= old(nv12)@.len(),
        g.wf(),
        g.x2 <= w,
        g.y2 <= h,
        2 * half(g).x2 <= w,
        2 * half(g).y2 <= h,
    ensures
        final(nv12)@ == blackened(old(nv12)@, w as int, h as int, mask@, g),
{
    let ghost len = old(nv12)@.len() as int;
    assert(nv12.len() == len);
    assert(mask.len() == w * h);
    let q = Region { x1: g.x1 / 2, y1: g.y1 / 2, x2: (g.x2 + 1) / 2, y2: (g.y2 + 1) / 2 };
    proof {
        lemma_luma_fits(w as int, h as int, g, len);
        lemma_chroma_fits(w as int, h as int, 0, q, len);
        lemma_chroma_fits(w as int, h as int, 1, q, len);
        lemma_area(g, w as int, h as int, len);
        lemma_area(q, w as int, h as int, len);
    }
    let dark: Vec<u8> = constant_values((g.x2 - g.x1) * (g.y2 - g.y1), 16);
    let grey: Vec<u8> = constant_values((q.x2 - q.x1) * (q.y2 - q.y1), 128);
    overlay(nv12, Plane { base: 0, stride: w, step: 1 }, g, mask, w, h, Hit::Pixel, &dark);
    overlay(nv12, Plane { base: w * h, stride: w, step: 2 }, q, mask, w, h, Hit::Quad, &grey);
    overlay(nv12, Plane { base: w * h + 1, stride: w, step: 2 }, q, mask, w, h, Hit::Quad, &grey);
}

fn pixelate(nv12: &mut [u8], w: usize, h: usize, mask: &[u8], g: Region, c: usize)
    requires
        w > 0,
        c > 0,
        mask@.len() == w * h,
        w * h + (h / 2) * w <= old(nv12)@.len(),
        w * h + 2 <= old(nv12)@.len(),
        g.wf(),
        g.x2 <= w,
        g.y2 <= h,
        2 * half(g).x2 <= w,
        2 * half(g).y2 <= h,
    ensures
        final(nv12)@ == pixelated(old(nv12)@, w as int, h as int, mask@, g, c as int),
{
    let ghost len = old(nv12)@.len() as int;
    assert(nv12.len() == len);
    assert(mask.len() == w * h);
    let q = Region { x1: g.x1 / 2, y1: g.y1 / 2, x2: (g.x2 + 1) / 2, y2: (g.y2 + 1) / 2 };
    let cc: usize = if c / 2 < 1 { 1 } else { c / 2 };
    proof {
        lemma_luma_fits(w as int, h as int, g, len);
        lemma_chroma_fits(w as int, h as int, 0, q, len);
        lemma_chroma_fits(w as int, h as int, 1, q, len);
        lemma_area(g, w as int, h as int, len);
        lemma_area(q, w as int, h as int, len);
    }
    let yp = Plane { base: 0, stride: w, step: 1 };
    let up = Plane { base: w * h, stride: w, step: 2 };
    let vp = Plane { base: w * h + 1, stride: w, step: 2 };
    let yv: Vec<u8> = mosaic_values(nv12, yp, g, c);
    let uv: Vec<u8> = mosaic_values(nv12, up, q, cc);
    let vv: Vec<u8> = mosaic_values(nv12, vp, q, cc);
    overlay(nv12, yp, g, mask, w, h, Hit::Pixel, &yv);
    overlay(nv12, up, q, mask, w, h, Hit::Quad, &uv);
    overlay(nv12, vp, q, mask, w, h, Hit::Quad, &vv);
}

fn blur(nv12: &mut [u8], w: usize, h: usize, mask: &[u8], g: Region, r: usize)
    requires
        w > 0,
        r <= 64,
        mask@.len() == w * h,
        w * h + (h / 2) * w <= old(nv12)@.len(),
        w * h + 2 <= old(nv12)@.len(),
        g.wf(),
        g.x2 <= w,
        g.y2 <= h,
        2 * half(g).x2 <= w,
        2 * half(g).y2 <= h,
    ensures
        final(nv12)@ == blurred(old(nv12)@, w as int, h as int, mask@, g, r as int),
{
    let ghost len = old(nv12)@.len() as int;
    assert(nv12.len() == len);
    assert(mask.len() == w * h);
    let q = Region { x1: g.x1 / 2, y1: g.y1 / 2, x2: (g.x2 + 1) / 2, y2: (g.y2 + 1) / 2 };
    proof {
        lemma_luma_fits(w as int, h as int, g, len);
        lemma_chroma_fits(w as int, h as int, 0, q, len);
        lemma_chroma_fits(w as int, h as int, 1, q, len);
        lemma_area(g, w as int, h as int, len);
        lemma_area(q, w as int, h as int, len);
    }
    let yp = Plane { base: 0, stride: w, step: 1 };
    let up = Plane { base: w * h, stride: w, step: 2 };
    let vp = Plane { base: w * h + 1, stride: w, step: 2 };
    let yv: Vec<u8> = blur_values(nv12, yp, g, r);
    let uv: Vec<u8> = blur_values(nv12, up, q, (r + 1) / 2);
    let vv: Vec<u8> = blur_values(nv12, vp, q, (r + 1) / 2);
    overlay(nv12, yp, g, mask, w, h, Hit::Pixel, &yv);
    overlay(nv12, up, q, mask, w, h, Hit::Corner, &uv);
    overlay(nv12, vp, q, mask, w, h, Hit::Corner, &vv);
}

/// Whether a mask can be applied to a frame of `len` bytes.
pub fn can_compose(len: usize, w: usize, h: usize, mask: &[u8], style: &MaskStyle) -> (r: bool)
    ensures
        r == composable(len as int, w as int, h as int, mask@, *style),
{
    let pad: u128 = match style {
        MaskStyle::Mosaic { cell } => *cell as u128,
        MaskStyle::Blur { radius } => *radius as u128 * 3,
        MaskStyle::Solid => 0,
    };
    proof {
        assert(0 <= w * h <= u128::MAX) by (nonlinear_arith)
            requires
                0 <= w <= u64::MAX,
                0 <= h <= u64::MAX,
        ;
        assert(0 <= (h / 2) * w <= w * h) by (nonlinear_arith)
            requires
                0 <= h / 2 <= h,
                0 <= w,
        ;
    }
    if mask.len() as u128 != w as u128 * h as u128 {
        return false;
    }
    if (w * h) as u128 + ((h / 2) * w) as u128 > len as u128 {
        return false;
    }
    if w as u128 + pad > usize::MAX as u128 || h as u128 + pad > usize::MAX as u128 {
        return false;
    }
    if w % 2 == 0 && h % 2 == 0 {
        return true;
    }
    match mask_bbox(mask, w, h, pad as usize) {
        None => true,
        Some(g) => g.x2 as u128 + (g.x2 % 2) as u128 <= w as u128 && g.y2 as u128 + (g.y2 % 2) as u128 <= h as u128,
    }
}

/// Applies a mask of `w` by `h` pixels (set pixels are covered) to an NV12 frame.
pub fn apply(nv12: &mut [u8], w: usize, h: usize, mask: &[u8], style: &MaskStyle)
    requires
        composable(old(nv12)@.len() as int, w as int, h as int, mask@, *style),
    ensures
        final(nv12)@ == composed(old(nv12)@, w as int, h as int, mask@, *style),
{
    let pad: usize = match style {
        MaskStyle::Mosaic { cell } => *cell,
        MaskStyle::Blur { radius } => *radius * 3,
        MaskStyle::Solid => 0,
    };
    match mask_bbox(mask, w, h, pad) {
        None => {},
        Some(g) => {
            proof {
                lemma_touched(mask@, w as int, h as int, *style, old(nv12)@.len() as int);
            }
            match style {
                MaskStyle::Solid => solid(nv12, w, h, mask, g),
                MaskStyle::Mosaic { cell } => {
                    let c: usize = if *cell < 2 { 2 } else { *cell };
                    pixelate(nv12, w, h, mask, g, c)
                },
                MaskStyle::Blur { radius } => {
                    let r: usize = if *radius < 1 { 1 } else if *radius > 64 { 64 } else { *radius };
                    blur(nv12, w, h, mask, g, r)
                },
            }
        },
    }
}

/// A compositor of masks over NV12 frames.
pub trait ComposeBackend: Send {
    /// Whether the compositor, as it is, may make `out` of the frame `s`; anything, if it does not say.
    open spec fn makes(&self, s: Seq<u8>, w: int, h: int, mask: Seq<u8>, style: MaskStyle, out: Seq<u8>) -> bool {
        true
    }

    /// Applies the mask in place.
    fn apply(&mut self, nv12: &mut [u8], w: usize, h: usize, mask: &[u8], style: &MaskStyle)
        requires
            composable(old(nv12)@.len() as int, w as int, h as int, mask@, *style),
        ensures
            final(nv12)@.len() == old(nv12)@.len(),
            old(self).makes(old(nv12)@, w as int, h as int, mask@, *style, final(nv12)@),
    ;
}

/// The compositor that works on the processor, see [`apply`].
#[derive(Debug, Default)]
pub struct ComposeCpu;

impl ComposeBackend for ComposeCpu {
    open spec fn makes(&self, s: Seq<u8>, w: int, h: int, mask: Seq<u8>, style: MaskStyle, out: Seq<u8>) -> bool {
        out == composed(s, w, h, mask, style)
    }

    fn apply(&mut self, nv12: &mut [u8], w: usize, h: usize, mask: &[u8], style: &MaskStyle) {
        apply(nv12, w, h, mask, style)
    }
}

/// Every set pixel lies in the region that a style touches.
proof fn lemma_set_pixel_touched(mask: Seq<u8>, w: int, h: int, pad: int, x: int, y: int)
    requires
        0 <= x < w <= usize::MAX,
        0 <= y < h <= usize::MAX,
        0 <= pad,
        mask.len() == w * h,
        mask[cell(w, x, y)] != 0,
    ensures
        any_set(mask),
        padded(mask, w, h, pad).has(x, y),
{
    lemma_cell(w, h, x, y);
    let i = cell(w, x, y);
    assert(mask[i] != 0);
    lemma_bounds_exist(mask, w, h);
    let b = bounds(mask, w);
    assert(b.x1 <= i % w <= b.x2 && b.y1 <= i / w <= b.y2);
}

/// A mask with a set pixel has a tightest box.
proof fn lemma_bounds_exist(mask: Seq<u8>, w: int, h: int)
    requires
        any_set(mask),
        mask.len() == w * h,
        0 < w <= usize::MAX,
        0 <= h <= usize::MAX,
    ensures
        tight_upto(mask, w, mask.len() as int, bounds(mask, w)),
{
    lemma_bounds_exist_upto(mask, w, h, mask.len() as int);
    let b = choose|b: Region| tight_upto(mask, w, mask.len() as int, b);
    assert(tight_upto(mask, w, mask.len() as int, b));
}

proof fn lemma_bounds_exist_upto(mask: Seq<u8>, w: int, h: int, n: int)
    requires
        mask.len() == w * h,
        0 < w <= usize::MAX,
        0 <= h <= usize::MAX,
        0 <= n <= mask.len(),
        exists|i: int| 0 <= i < n && mask[i] != 0,
    ensures
        exists|b: Region| tight_upto(mask, w, n, b),
    decreases n,
{
    let k = n - 1;
    lemma_offset(w, h, k);
    let x = (k % w) as usize;
    let y = (k / w) as usize;
    if exists|i: int| 0 <= i < k && mask[i] != 0 {
        lemma_bounds_exist_upto(mask, w, h, k);
        let b = choose|b: Region| tight_upto(mask, w, k, b);
        let j1 = choose|j: int| 0 <= j < k && #[trigger] mask[j] != 0 && j % w == b.x1;
        let j2 = choose|j: int| 0 <= j < k && #[trigger] mask[j] != 0 && j / w == b.y1;
        let j3 = choose|j: int| 0 <= j < k && #[trigger] mask[j] != 0 && j % w == b.x2;
        let j4 = choose|j: int| 0 <= j < k && #[trigger] mask[j] != 0 && j / w == b.y2;
        assert(mask[j1] != 0 && mask[j2] != 0 && mask[j3] != 0 && mask[j4] != 0);
        if mask[k] == 0 {
            assert(tight_upto(mask, w, n, b));
        } else {
            let c = Region {
                x1: if x < b.x1 { x } else { b.x1 },
                y1: if y < b.y1 { y } else { b.y1 },
                x2: if x > b.x2 { x } else { b.x2 },
                y2: if y > b.y2 { y } else { b.y2 },
            };
            assert(mask[k] != 0);
            assert(tight_upto(mask, w, n, c));
        }
    } else {
        let c = Region { x1: x, y1: y, x2: x, y2: y };
        assert(mask[k] != 0);
        assert(tight_upto(mask, w, n, c));
    }
}

/// An empty mask leaves the frame as it is.
pub proof fn law_empty_mask_is_noop(s: Seq<u8>, w: int, h: int, mask: Seq<u8>, style: MaskStyle)
    requires
        forall|i: int| 0 <= i < mask.len() ==> mask[i] == 0,
    ensures
        composed(s, w, h, mask, style) == s,
{
}

/// A frame keeps its length.
pub proof fn law_length_kept(s: Seq<u8>, w: int, h: int, mask: Seq<u8>, style: MaskStyle)
    ensures
        composed(s, w, h, mask, style).len() == s.len(),
{
}

/// The brightness of a pixel that is not set in the mask stays what it was, in every style.
pub proof fn law_unmasked_luma_unchanged(
    s: Seq<u8>,
    w: int,
    h: int,
    mask: Seq<u8>,
    style: MaskStyle,
    x: int,
    y: int,
)
    requires
        0 < w <= usize::MAX,
        0 < h <= usize::MAX,
        w * h + 1 <= usize::MAX,
        composable(s.len() as int, w, h, mask, style),
        0 <= x < w,
        0 <= y < h,
        mask[cell(w, x, y)] == 0,
    ensures
        composed(s, w, h, mask, style)[cell(w, x, y)] == s[cell(w, x, y)],
{
    lemma_cell(w, h, x, y);
    let k = cell(w, x, y);
    assert(luma(w).row(k) == y);
    assert(luma(w).col(k) == x) by {
        assert((k % w) / 1 == k % w);
    }
    lemma_chroma_apart(w, h, k);
}

/// The planes of the colour differences hold no byte of the brightness plane.
proof fn lemma_chroma_apart(w: int, h: int, k: int)
    requires
        0 < w <= usize::MAX,
        0 <= h,
        w * h + 1 <= usize::MAX,
        0 <= k < w * h,
    ensures
        !chroma(w, h, 0).owns(k),
        !chroma(w, h, 1).owns(k),
{
}

/// A set pixel comes out with brightness 16 in the plain style.
pub proof fn law_solid_blacks_luma(s: Seq<u8>, w: int, h: int, mask: Seq<u8>, x: int, y: int)
    requires
        0 < w <= usize::MAX,
        0 < h <= usize::MAX,
        w * h + 1 <= usize::MAX,
        composable(s.len() as int, w, h, mask, MaskStyle::Solid),
        0 <= x < w,
        0 <= y < h,
        mask[cell(w, x, y)] != 0,
    ensures
        composed(s, w, h, mask, MaskStyle::Solid)[cell(w, x, y)] == 16,
{
    lemma_cell(w, h, x, y);
    lemma_set_pixel_touched(mask, w, h, 0, x, y);
    let k = cell(w, x, y);
    let g = padded(mask, w, h, 0);
    assert(luma(w).row(k) == y);
    assert(luma(w).col(k) == x) by {
        assert((k % w) / 1 == k % w);
    }
    assert((k % w) % 1 == 0);
    lemma_cell(g.width(), g.height(), x - g.x1, y - g.y1);
    lemma_chroma_apart(w, h, k);
}

/// Where byte `c` of the chroma sample of pixel (`x`, `y`) lies, and that a region of the plane of the
/// other colour difference does not hold it.
proof fn lemma_chroma_at(w: int, h: int, c: int, q: Region, x: int, y: int)
    requires
        0 < w <= usize::MAX,
        0 < h <= usize::MAX,
        w * h + 1 <= usize::MAX,
        0 <= x,
        0 <= y,
        2 * (x / 2) + 1 < w,
        y < h,
        0 <= c <= 1,
        2 * q.x2 <= w,
    ensures
        ({
            let p = chroma(w, h, c);
            let o = chroma(w, h, 1 - c);
            let k = p.at(x / 2, y / 2);
            &&& k == w * h + c + cell(w, 2 * (x / 2), y / 2)
            &&& k >= w * h
            &&& p.owns(k)
            &&& p.col(k) == x / 2
            &&& p.row(k) == y / 2
            &&& !(o.owns(k) && q.has(o.col(k), o.row(k)))
        }),
{
    let p = chroma(w, h, c);
    let r = Region { x1: 0, y1: 0, x2: (x / 2 + 1) as usize, y2: (y / 2 + 1) as usize };
    lemma_plane_at(p, r, x / 2, y / 2);
    assert((x / 2) * p.step == 2 * (x / 2)) by (nonlinear_arith)
        requires
            p.step == 2,
    ;
    let k = p.at(x / 2, y / 2);
    let o = chroma(w, h, 1 - c);
    assert(0 <= w * h) by (nonlinear_arith)
        requires
            0 < w,
            0 < h,
    ;
    assert(k == w * h + c + cell(w, 2 * (x / 2), y / 2));
    assert(o.step as int == 2);
    if c == 0 {
        if x / 2 > 0 {
            lemma_cell(w, y / 2 + 1, 2 * (x / 2) - 1, y / 2);
            assert(k - o.base == cell(w, 2 * (x / 2) - 1, y / 2));
            assert((k - o.base) % o.stride as int == 2 * (x / 2) - 1);
            assert((2 * (x / 2) - 1) % 2 == 1);
        } else if y / 2 > 0 {
            assert((y / 2) * w == (y / 2 - 1) * w + w) by (nonlinear_arith);
            lemma_cell(w, y / 2, w - 1, y / 2 - 1);
            assert(k - o.base == cell(w, w - 1, y / 2 - 1));
            assert(o.col(k) == (w - 1) / 2);
            assert(w % 2 == 0 ==> (w - 1) % 2 == 1);
        } else {
            assert(cell(w, 2 * (x / 2), y / 2) == 0) by (nonlinear_arith)
                requires
                    x / 2 == 0,
                    y / 2 == 0,
            ;
        }
    } else {
        lemma_cell(w, y / 2 + 1, 2 * (x / 2) + 1, y / 2);
        assert(k - o.base == cell(w, 2 * (x / 2) + 1, y / 2));
        assert((k - o.base) % o.stride as int == 2 * (x / 2) + 1);
        assert((2 * (x / 2) + 1) % 2 == 1);
    }
    assert(p.owns(k) && p.col(k) == x / 2 && p.row(k) == y / 2);
    assert(!(o.owns(k) && q.has(o.col(k), o.row(k))));
}

/// The region that a style touches, and its chroma samples, lie inside the frame.
proof fn lemma_touched_inside(mask: Seq<u8>, w: int, h: int, style: MaskStyle, len: int)
    requires
        0 < w <= usize::MAX,
        0 < h <= usize::MAX,
        composable(len, w, h, mask, style),
        any_set(mask),
    ensures
        padded(mask, w, h, reach(style)).x2 <= w,
        padded(mask, w, h, reach(style)).y2 <= h,
        2 * half(padded(mask, w, h, reach(style))).x2 <= w,
        2 * half(padded(mask, w, h, reach(style))).y2 <= h,
{
}

/// Both colour differences of a pixel whose chroma sample no set pixel shares stay what they were.
pub proof fn law_unmasked_chroma_unchanged(
    s: Seq<u8>,
    w: int,
    h: int,
    mask: Seq<u8>,
    style: MaskStyle,
    c: int,
    x: int,
    y: int,
)
    requires
        0 < w <= usize::MAX,
        0 < h <= usize::MAX,
        w * h + 1 <= usize::MAX,
        composable(s.len() as int, w, h, mask, style),
        0 <= x,
        0 <= y,
        2 * (x / 2) + 1 < w,
        2 * (y / 2) + 1 < h,
        0 <= c <= 1,
        !Hit::Quad.on(mask, w, x / 2, y / 2),
    ensures
        ({
            let k = w * h + c + cell(w, 2 * (x / 2), y / 2);
            composed(s, w, h, mask, style)[k] == s[k]
        }),
{
    if any_set(mask) {
        let g = padded(mask, w, h, reach(style));
        lemma_touched_inside(mask, w, h, style, s.len() as int);
        lemma_chroma_at(w, h, c, half(g), x, y);
        let k = w * h + c + cell(w, 2 * (x / 2), y / 2);
        lemma_cell(w, h / 2, 2 * (x / 2) + c, y / 2);
        assert(w * (h / 2) == (h / 2) * w) by (nonlinear_arith);
        lemma_luma_apart(w, h, g, k);
    }
}

/// A region inside the frame holds no byte behind the brightness plane.
proof fn lemma_luma_apart(w: int, h: int, g: Region, k: int)
    requires
        0 < w <= usize::MAX,
        g.y2 <= h,
        w * h <= k,
    ensures
        !g.has(luma(w).col(k), luma(w).row(k)),
{
    assert(k / w >= h) by (nonlinear_arith)
        requires
            0 < w,
            w * h <= k,
    ;
}

/// Both colour differences of a pixel whose chroma sample a set pixel shares come out as 128 in the
/// plain style.
pub proof fn law_solid_greys_chroma(s: Seq<u8>, w: int, h: int, mask: Seq<u8>, c: int, x: int, y: int)
    requires
        0 < w <= usize::MAX,
        0 < h <= usize::MAX,
        w * h + 1 <= usize::MAX,
        composable(s.len() as int, w, h, mask, MaskStyle::Solid),
        0 <= x < w,
        0 <= y < h,
        0 <= c <= 1,
        mask[cell(w, x, y)] != 0,
    ensures
        composed(s, w, h, mask, MaskStyle::Solid)[w * h + c + cell(w, 2 * (x / 2), y / 2)] == 128,
{
    lemma_set_pixel_touched(mask, w, h, 0, x, y);
    let g = padded(mask, w, h, 0);
    let q = half(g);
    lemma_touched_inside(mask, w, h, MaskStyle::Solid, s.len() as int);
    lemma_chroma_at(w, h, c, q, x, y);
    lemma_cell(w, h / 2, 2 * (x / 2) + c, y / 2);
    assert(w * (h / 2) == (h / 2) * w) by (nonlinear_arith);
    lemma_cell(q.width(), q.height(), x / 2 - q.x1, y / 2 - q.y1);
    assert(Hit::Quad.on(mask, w, x / 2, y / 2)) by {
        assert(x == 2 * (x / 2) || x == 2 * (x / 2) + 1);
        assert(y == 2 * (y / 2) || y == 2 * (y / 2) + 1);
    }
}

/// Two set pixels of one block come out with the same brightness in the block style.
pub proof fn law_mosaic_flattens_blocks(
    s: Seq<u8>,
    w: int,
    h: int,
    mask: Seq<u8>,
    side: usize,
    x: int,
    y: int,
    x2: int,
    y2: int,
)
    requires
        0 < w <= usize::MAX,
        0 < h <= usize::MAX,
        w * h + 1 <= usize::MAX,
        composable(s.len() as int, w, h, mask, (MaskStyle::Mosaic { cell: side })),
        0 <= x < w,
        0 <= y < h,
        0 <= x2 < w,
        0 <= y2 < h,
        mask[cell(w, x, y)] != 0,
        mask[cell(w, x2, y2)] != 0,
        ({
            let g = padded(mask, w, h, side as int);
            let c = if side < 2 { 2 } else { side as int };
            block_of(g, c, x, y) == block_of(g, c, x2, y2)
        }),
    ensures
        ({
            let t = composed(s, w, h, mask, (MaskStyle::Mosaic { cell: side }));
            t[cell(w, x, y)] == t[cell(w, x2, y2)]
        }),
{
    lemma_mosaic_luma(s, w, h, mask, side, x, y);
    lemma_mosaic_luma(s, w, h, mask, side, x2, y2);
}

/// Applying a mask in the plain style twice is applying it once.
pub proof fn law_solid_twice(s: Seq<u8>, w: int, h: int, mask: Seq<u8>)
    ensures
        ({
            let t = composed(s, w, h, mask, MaskStyle::Solid);
            composed(t, w, h, mask, MaskStyle::Solid) == t
        }),
{
    let t = composed(s, w, h, mask, MaskStyle::Solid);
    assert(composed(t, w, h, mask, MaskStyle::Solid) =~= t);
}

proof fn lemma_row_flat(t: Seq<u8>, p: Plane, y: int, x1: int, x2: int, v: u8)
    requires
        x1 <= x2,
        forall|x: int| x1 <= x < x2 ==> t[#[trigger] p.at(x, y)] == v,
    ensures
        row_sum(t, p, y, x1, x2) == (x2 - x1) * v,
    decreases x2 - x1,
{
    if x1 < x2 {
        lemma_row_flat(t, p, y, x1, x2 - 1, v);
        assert(t[p.at(x2 - 1, y)] == v);
        assert((x2 - x1) * v == (x2 - 1 - x1) * v + v) by (nonlinear_arith);
    } else {
        assert((x2 - x1) * v == 0) by (nonlinear_arith)
            requires
                x1 == x2,
        ;
    }
}

proof fn lemma_block_flat(t: Seq<u8>, p: Plane, x1: int, x2: int, y1: int, y2: int, v: u8)
    requires
        x1 <= x2,
        y1 <= y2,
        forall|x: int, y: int| x1 <= x < x2 && y1 <= y < y2 ==> t[#[trigger] p.at(x, y)] == v,
    ensures
        block_sum(t, p, x1, x2, y1, y2) == ((x2 - x1) * (y2 - y1)) * v,
    decreases y2 - y1,
{
    if y1 < y2 {
        lemma_block_flat(t, p, x1, x2, y1, y2 - 1, v);
        lemma_row_flat(t, p, y2 - 1, x1, x2, v);
        assert(((x2 - x1) * (y2 - y1)) * v == ((x2 - x1) * (y2 - 1 - y1)) * v + (x2 - x1) * v) by (nonlinear_arith);
    } else {
        assert(((x2 - x1) * (y2 - y1)) * v == 0) by (nonlinear_arith)
            requires
                y1 == y2,
        ;
    }
}

/// The block of a sample lies in its region, holds the sample, and is the block of each of its samples.
proof fn lemma_block(g: Region, c: int, x: int, y: int)
    requires
        0 < c,
        g.has(x, y),
    ensures
        block_of(g, c, x, y).has(x, y),
        forall|a: int, b: int| #[trigger]
            block_of(g, c, x, y).has(a, b) ==> g.has(a, b) && block_of(g, c, a, b) == block_of(g, c, x, y),
{
    let (bx, by) = (block_lo(g.x1 as int, c, x), block_lo(g.y1 as int, c, y));
    lemma_in_block(g.x1 as int, c, x);
    lemma_in_block(g.y1 as int, c, y);
    let k = block_of(g, c, x, y);
    assert forall|a: int, b: int| #[trigger] k.has(a, b) implies g.has(a, b) && block_of(g, c, a, b) == k by {
        lemma_block_lo(g.x1 as int, c, bx, a);
        lemma_block_lo(g.y1 as int, c, by, b);
    }
}

proof fn lemma_in_block(lo: int, c: int, v: int)
    requires
        0 < c,
        lo <= v,
    ensures
        lo <= block_lo(lo, c, v) <= v < block_lo(lo, c, v) + c,
        (block_lo(lo, c, v) - lo) % c == 0,
{
    let q = (v - lo) / c;
    vstd::arithmetic::div_mod::lemma_fundamental_div_mod(v - lo, c);
    assert(c * q == q * c) by (nonlinear_arith);
    assert(0 <= q * c) by (nonlinear_arith)
        requires
            0 <= q,
            0 < c,
    ;
    vstd::arithmetic::div_mod::lemma_mod_multiples_basic(q, c);
}

/// A plane whose samples in `g` are the means of their blocks has these means too.
proof fn lemma_means_again(s: Seq<u8>, t: Seq<u8>, p: Plane, g: Region, c: int)
    requires
        0 < c,
        g.wf(),
        forall|x: int, y: int| g.has(x, y) ==> t[#[trigger] p.at(x, y)] == mean(s, p, block_of(g, c, x, y)),
    ensures
        mosaic_vals(t, p, g, c) == mosaic_vals(s, p, g, c),
{
    let n = g.width() * g.height();
    let (vs, vt) = (mosaic_vals(s, p, g, c), mosaic_vals(t, p, g, c));
    assert forall|i: int| 0 <= i < vs.len() implies vt[i] == vs[i] by {
        assert(g.width() > 0) by (nonlinear_arith)
            requires
                0 <= i < g.width() * g.height(),
                g.width() >= 0,
        ;
        assert(0 <= i % g.width() < g.width() && 0 <= i / g.width() < g.height()) by (nonlinear_arith)
            requires
                0 <= i < g.width() * g.height(),
                g.width() > 0,
        ;
        let (x, y) = (g.x1 + i % g.width(), g.y1 + i / g.width());
        assert(g.has(x, y));
        let b = block_of(g, c, x, y);
        lemma_block(g, c, x, y);
        let v = mean(s, p, b);
        assert forall|a: int, d: int| b.x1 <= a < b.x2 && b.y1 <= d < b.y2 implies t[#[trigger] p.at(a, d)] == v by {
            assert(b.has(a, d));
        }
        lemma_block_flat(t, p, b.x1 as int, b.x2 as int, b.y1 as int, b.y2 as int, v);
        let m = b.width() * b.height();
        assert(m > 0) by (nonlinear_arith)
            requires
                m == b.width() * b.height(),
                b.width() > 0,
                b.height() > 0,
        ;
        assert((m * v) / m == v) by (nonlinear_arith)
            requires
                m > 0,
        ;
    }
    assert(vt =~= vs);
}

/// Applying a mask that is set everywhere in the block style twice is applying it once.
pub proof fn law_mosaic_twice(s: Seq<u8>, w: int, h: int, mask: Seq<u8>, side: usize)
    requires
        0 < w <= usize::MAX,
        0 < h <= usize::MAX,
        w % 2 == 0,
        h % 2 == 0,
        w * h + 1 <= usize::MAX,
        composable(s.len() as int, w, h, mask, (MaskStyle::Mosaic { cell: side })),
        forall|i: int| 0 <= i < mask.len() ==> mask[i] != 0,
    ensures
        ({
            let style = MaskStyle::Mosaic { cell: side };
            let t = composed(s, w, h, mask, style);
            composed(t, w, h, mask, style) == t
        }),
{
    let style = MaskStyle::Mosaic { cell: side };
    let g = padded(mask, w, h, side as int);
    let q = half(g);
    let c = if side < 2 { 2 } else { side as int };
    let cc = if c / 2 < 1 { 1 } else { c / 2 };
    let t = composed(s, w, h, mask, style);
    if any_set(mask) {
        lemma_touched_inside(mask, w, h, style, s.len() as int);
        lemma_cell(w, h, 0, 0);
        lemma_set_pixel_touched(mask, w, h, side as int, 0, 0);
        assert(g.has(0, 0) && g.wf() && q.wf());
        let (l, u, v) = (luma(w), chroma(w, h, 0), chroma(w, h, 1));
        assert forall|x: int, y: int| g.has(x, y) implies t[#[trigger] l.at(x, y)] == mean(s, l, block_of(g, c, x, y)) by {
            lemma_cell(w, h, x, y);
            lemma_mosaic_luma(s, w, h, mask, side, x, y);
            assert(x * 1 == x);
            assert(l.at(x, y) == cell(w, x, y));
        }
        lemma_means_again(s, t, l, g, c);
        assert forall|x: int, y: int| q.has(x, y) implies t[#[trigger] u.at(x, y)] == mean(s, u, block_of(q, cc, x, y)) by {
            lemma_mosaic_chroma(s, w, h, mask, side, 0, x, y);
        }
        lemma_means_again(s, t, u, q, cc);
        assert forall|x: int, y: int| q.has(x, y) implies t[#[trigger] v.at(x, y)] == mean(s, v, block_of(q, cc, x, y)) by {
            lemma_mosaic_chroma(s, w, h, mask, side, 1, x, y);
        }
        lemma_means_again(s, t, v, q, cc);
    }
    assert(composed(t, w, h, mask, style) =~= t);
}

proof fn lemma_mosaic_chroma(s: Seq<u8>, w: int, h: int, mask: Seq<u8>, side: usize, d: int, x: int, y: int)
    requires
        0 < w <= usize::MAX,
        0 < h <= usize::MAX,
        w * h + 1 <= usize::MAX,
        composable(s.len() as int, w, h, mask, (MaskStyle::Mosaic { cell: side })),
        forall|i: int| 0 <= i < mask.len() ==> mask[i] != 0,
        any_set(mask),
        0 <= d <= 1,
        half(padded(mask, w, h, side as int)).has(x, y),
    ensures
        ({
            let t = composed(s, w, h, mask, (MaskStyle::Mosaic { cell: side }));
            let q = half(padded(mask, w, h, side as int));
            let c = if side < 2 { 2 } else { side as int };
            let cc = if c / 2 < 1 { 1 } else { c / 2 };
            let p = chroma(w, h, d);
            t[p.at(x, y)] == mean(s, p, block_of(q, cc, x, y))
        }),
{
    let style = MaskStyle::Mosaic { cell: side };
    let g = padded(mask, w, h, side as int);
    let q = half(g);
    let c = if side < 2 { 2 } else { side as int };
    let cc = if c / 2 < 1 { 1 } else { c / 2 };
    let p = chroma(w, h, d);
    let k = p.at(x, y);
    lemma_touched_inside(mask, w, h, style, s.len() as int);
    lemma_chroma_at(w, h, d, q, 2 * x, 2 * y);
    assert((2 * x) / 2 == x && (2 * y) / 2 == y);
    assert(k < s.len()) by {
        lemma_cell(w, h / 2, 2 * x + d, y);
        assert(w * (h / 2) == (h / 2) * w) by (nonlinear_arith);
    }
    assert(Hit::Quad.on(mask, w, x, y)) by {
        lemma_cell(w, h, 2 * x, 2 * y);
    }
    let vals = mosaic_vals(s, p, q, cc);
    let j = cell(q.width(), x - q.x1, y - q.y1);
    assert(vals[j] == mean(s, p, block_of(q, cc, x, y))) by {
        lemma_cell(q.width(), q.height(), x - q.x1, y - q.y1);
    }
    let (u, v) = (chroma(w, h, 0), chroma(w, h, 1));
    let s1 = overlaid(s, luma(w), g, mask, w, Hit::Pixel, mosaic_vals(s, luma(w), g, c));
    let s2 = overlaid(s1, u, q, mask, w, Hit::Quad, mosaic_vals(s, u, q, cc));
    let t = overlaid(s2, v, q, mask, w, Hit::Quad, mosaic_vals(s, v, q, cc));
    assert(t == composed(s, w, h, mask, style));
    assert(p.owns(k) && p.col(k) == x && p.row(k) == y);
    if d == 0 {
        assert(s2[k] == vals[j]);
        assert(t[k] == s2[k]);
    } else {
        assert(t[k] == vals[j]);
    }
}

#[verifier::spinoff_prover]
proof fn lemma_mosaic_luma(s: Seq<u8>, w: int, h: int, mask: Seq<u8>, side: usize, x: int, y: int)
    requires
        0 < w <= usize::MAX,
        0 < h <= usize::MAX,
        w * h + 1 <= usize::MAX,
        composable(s.len() as int, w, h, mask, (MaskStyle::Mosaic { cell: side })),
        0 <= x < w,
        0 <= y < h,
        mask[cell(w, x, y)] != 0,
    ensures
        ({
            let t = composed(s, w, h, mask, (MaskStyle::Mosaic { cell: side }));
            let g = padded(mask, w, h, side as int);
            let c = if side < 2 { 2 } else { side as int };
            t[cell(w, x, y)] == mean(s, luma(w), block_of(g, c, x, y))
        }),
{
    lemma_cell(w, h, x, y);
    lemma_set_pixel_touched(mask, w, h, side as int, x, y);
    let k = cell(w, x, y);
    let g = padded(mask, w, h, side as int);
    assert(luma(w).row(k) == y);
    assert(luma(w).col(k) == x) by {
        assert((k % w) / 1 == k % w);
    }
    assert((k % w) % 1 == 0);
    let style = MaskStyle::Mosaic { cell: side };
    let q = half(g);
    let c = if side < 2 { 2 } else { side as int };
    let cc = if c / 2 < 1 { 1 } else { c / 2 };
    let vals = mosaic_vals(s, luma(w), g, c);
    let j = cell(g.width(), x - g.x1, y - g.y1);
    assert(vals[j] == mean(s, luma(w), block_of(g, c, x, y))) by {
        lemma_cell(g.width(), g.height(), x - g.x1, y - g.y1);
    }
    let (u, v) = (chroma(w, h, 0), chroma(w, h, 1));
    let s1 = overlaid(s, luma(w), g, mask, w, Hit::Pixel, vals);
    let s2 = overlaid(s1, u, q, mask, w, Hit::Quad, mosaic_vals(s, u, q, cc));
    let t = overlaid(s2, v, q, mask, w, Hit::Quad, mosaic_vals(s, v, q, cc));
    assert(t == composed(s, w, h, mask, style));
    lemma_chroma_apart(w, h, k);
    assert(s1[k] == vals[j]);
    assert(s2[k] == s1[k]);
    assert(t[k] == s2[k]);
}

/// `f(0) + f(1) + … + f(n - 1)`.
pub open spec fn total(f: spec_fn(int) -> int, n: int) -> int
    decreases n,
{
    if n <= 0 {
        0
    } else {
        total(f, n - 1) + f(n - 1)
    }
}

pub proof fn lemma_total_same(f: spec_fn(int) -> int, g: spec_fn(int) -> int, n: int)
    requires
        forall|i: int| 0 <= i < n ==> #[trigger] f(i) == g(i),
    ensures
        total(f, n) == total(g, n),
    decreases n,
{
    if n > 0 {
        lemma_total_same(f, g, n - 1);
        assert(f(n - 1) == g(n - 1));
    }
}

proof fn lemma_taps_total(s: Seq<u8>, base: int, stride: int, hi: int, a: int, n: int)
    requires
        0 <= n,
    ensures
        taps(s, base, stride, hi, a, n) == total(|i: int| s[base + clamped(a + i, hi) * stride] as int, n),
    decreases n,
{
    let f = |i: int| s[base + clamped(a + i, hi) * stride] as int;
    if n > 0 {
        lemma_taps_total(s, base, stride, hi, a, n - 1);
        assert(f(n - 1) == s[base + clamped(a + n - 1, hi) * stride] as int);
    }
}

proof fn lemma_row_total(s: Seq<u8>, p: Plane, y: int, x1: int, x2: int)
    requires
        x1 <= x2,
    ensures
        row_sum(s, p, y, x1, x2) == total(|i: int| s[p.at(x1 + i, y)] as int, x2 - x1),
    decreases x2 - x1,
{
    let f = |i: int| s[p.at(x1 + i, y)] as int;
    if x1 < x2 {
        lemma_row_total(s, p, y, x1, x2 - 1);
        assert(f(x2 - 1 - x1) == s[p.at(x2 - 1, y)] as int);
    }
}

proof fn lemma_block_total(s: Seq<u8>, p: Plane, x1: int, x2: int, y1: int, y2: int)
    requires
        x1 <= x2,
        y1 <= y2,
    ensures
        block_sum(s, p, x1, x2, y1, y2) == total(
            |j: int| total(|i: int| s[p.at(x1 + i, y1 + j)] as int, x2 - x1),
            y2 - y1,
        ),
    decreases y2 - y1,
{
    let f = |j: int| total(|i: int| s[p.at(x1 + i, y1 + j)] as int, x2 - x1);
    if y1 < y2 {
        lemma_block_total(s, p, x1, x2, y1, y2 - 1);
        lemma_row_total(s, p, y2 - 1, x1, x2);
        let a = |i: int| s[p.at(x1 + i, y2 - 1)] as int;
        let b = |i: int| s[p.at(x1 + i, y1 + (y2 - 1 - y1))] as int;
        lemma_total_same(a, b, x2 - x1);
        assert(f(y2 - 1 - y1) == total(b, x2 - x1));
    }
}

/// The region that is touched: exactly the pixels that are no more than `pad` columns outside the columns between two set pixels,
/// and no more than `pad` rows outside the rows between two set pixels.
pub proof fn law_touched_region(mask: Seq<u8>, w: int, h: int, pad: int, x: int, y: int)
    requires
        mask.len() == w * h,
        0 <= x < w <= usize::MAX,
        0 <= y < h <= usize::MAX,
        0 <= pad,
        any_set(mask),
    ensures
        padded(mask, w, h, pad).x2 <= w,
        padded(mask, w, h, pad).y2 <= h,
        padded(mask, w, h, pad).has(x, y) <==> {
            &&& exists|i: int| 0 <= i < mask.len() && #[trigger] mask[i] != 0 && i % w - pad <= x
            &&& exists|i: int| 0 <= i < mask.len() && #[trigger] mask[i] != 0 && x <= i % w + pad
            &&& exists|i: int| 0 <= i < mask.len() && #[trigger] mask[i] != 0 && i / w - pad <= y
            &&& exists|i: int| 0 <= i < mask.len() && #[trigger] mask[i] != 0 && y <= i / w + pad
        },
{
    lemma_bounds_exist(mask, w, h);
    let b = bounds(mask, w);
    let i1 = choose|i: int| 0 <= i < mask.len() && #[trigger] mask[i] != 0 && i % w == b.x1;
    let i2 = choose|i: int| 0 <= i < mask.len() && #[trigger] mask[i] != 0 && i / w == b.y1;
    let i3 = choose|i: int| 0 <= i < mask.len() && #[trigger] mask[i] != 0 && i % w == b.x2;
    let i4 = choose|i: int| 0 <= i < mask.len() && #[trigger] mask[i] != 0 && i / w == b.y2;
    assert(mask[i1] != 0 && mask[i2] != 0 && mask[i3] != 0 && mask[i4] != 0);
    lemma_offset(w, h, i1);
    lemma_offset(w, h, i2);
    lemma_offset(w, h, i3);
    lemma_offset(w, h, i4);
    let g = padded(mask, w, h, pad);
    if g.has(x, y) {
        assert(i1 % w - pad <= x && x <= i3 % w + pad);
        assert(i2 / w - pad <= y && y <= i4 / w + pad);
    }
}

/// `v`, held between `lo` and `hi`.
spec fn held(v: int, lo: int, hi: int) -> int {
    if v < lo {
        lo
    } else if v > hi {
        hi
    } else {
        v
    }
}

/// One value of a two-pass blur, as sums.
proof fn lemma_blur_value(s: Seq<u8>, p: Plane, g: Region, r: int, x: int, y: int)
    requires
        0 <= r,
        g.has(x, y),
        p.step > 0,
    ensures
        blur_vals(s, p, g, r)[cell(g.width(), x - g.x1, y - g.y1)] == (total(
            |j: int|
                (total(
                    |i: int| s[p.at(held(x - r + i, g.x1 as int, g.x2 - 1), held(y - r + j, g.y1 as int, g.y2 - 1))] as int,
                    2 * r + 1,
                ) / (2 * r + 1)) as u8 as int,
            2 * r + 1,
        ) / (2 * r + 1)) as u8,
{
    let (gw, gh) = (g.width(), g.height());
    let n = 2 * r + 1;
    let t = row_blurred(s, p, g, r);
    let (a, b) = (x - g.x1, y - g.y1);
    lemma_cell(gw, gh, a, b);
    lemma_taps_total(t, a, gw, gh - 1, b - r, n);
    let f = |j: int| t[a + clamped(b - r + j, gh - 1) * gw] as int;
    let h = |j: int|
        (total(|i: int| s[p.at(held(x - r + i, g.x1 as int, g.x2 - 1), held(y - r + j, g.y1 as int, g.y2 - 1))] as int, n) / n) as u8 as int;
    assert forall|j: int| 0 <= j < n implies #[trigger] f(j) == h(j) by {
        let row = clamped(b - r + j, gh - 1);
        let yy = held(y - r + j, g.y1 as int, g.y2 - 1);
        assert(g.y1 + row == yy);
        lemma_cell(gw, gh, a, row);
        let base = p.at(g.x1 as int, yy);
        lemma_taps_total(s, base, p.step as int, gw - 1, a - r, n);
        let u = |i: int| s[base + clamped(a - r + i, gw - 1) * p.step as int] as int;
        let v = |i: int| s[p.at(held(x - r + i, g.x1 as int, g.x2 - 1), yy)] as int;
        assert forall|i: int| 0 <= i < n implies #[trigger] u(i) == v(i) by {
            let c = clamped(a - r + i, gw - 1);
            let xx = held(x - r + i, g.x1 as int, g.x2 - 1);
            assert(g.x1 + c == xx);
            assert((g.x1 + c) * p.step == g.x1 * p.step + c * p.step) by (nonlinear_arith);
        }
        lemma_total_same(u, v, n);
        assert(a + row * gw == cell(gw, a, row));
        assert(t[a + row * gw] == box_mean(s, base, p.step as int, gw - 1, a, r));
    }
    lemma_total_same(f, h, n);
}

/// The brightness of a set pixel that is blurred: the mean over its column of the means over the rows, each of the pixel and of
/// exactly as many others to either side as the radius says, which is held between 1 and 64. Past the edges of the touched region
/// the pixels at its edges are taken again.
pub proof fn law_blur_luma(s: Seq<u8>, w: int, h: int, mask: Seq<u8>, radius: usize, x: int, y: int)
    requires
        0 < w <= usize::MAX,
        0 < h <= usize::MAX,
        w * h + 1 <= usize::MAX,
        composable(s.len() as int, w, h, mask, (MaskStyle::Blur { radius })),
        0 <= x < w,
        0 <= y < h,
        mask[cell(w, x, y)] != 0,
    ensures
        ({
            let r = if radius < 1 { 1 } else if radius > 64 { 64 } else { radius as int };
            let g = padded(mask, w, h, 3 * radius);
            let col = |i: int| if x - r + i < g.x1 { g.x1 as int } else if x - r + i > g.x2 - 1 { g.x2 - 1 } else { x - r + i };
            let row = |j: int| if y - r + j < g.y1 { g.y1 as int } else if y - r + j > g.y2 - 1 { g.y2 - 1 } else { y - r + j };
            let line = |j: int| (total(|i: int| s[row(j) * w + col(i)] as int, 2 * r + 1) / (2 * r + 1)) as u8 as int;
            composed(s, w, h, mask, (MaskStyle::Blur { radius }))[y * w + x] == (total(line, 2 * r + 1) / (2 * r + 1)) as u8
        }),
{
    let style = MaskStyle::Blur { radius };
    let r = if radius < 1 { 1 } else if radius > 64 { 64 } else { radius as int };
    let n = 2 * r + 1;
    lemma_cell(w, h, x, y);
    lemma_set_pixel_touched(mask, w, h, 3 * radius, x, y);
    let k = cell(w, x, y);
    let g = padded(mask, w, h, 3 * radius);
    assert(reach(style) == 3 * radius);
    let p = luma(w);
    assert(p.row(k) == y);
    assert(p.col(k) == x) by {
        assert((k % w) / 1 == k % w);
    }
    assert((k % w) % 1 == 0);
    lemma_cell(g.width(), g.height(), x - g.x1, y - g.y1);
    lemma_chroma_apart(w, h, k);
    let vals = blur_vals(s, p, g, r);
    assert(composed(s, w, h, mask, style)[k] == vals[cell(g.width(), x - g.x1, y - g.y1)]);
    lemma_blur_value(s, p, g, r, x, y);
    let col = |i: int| if x - r + i < g.x1 { g.x1 as int } else if x - r + i > g.x2 - 1 { g.x2 - 1 } else { x - r + i };
    let row = |j: int| if y - r + j < g.y1 { g.y1 as int } else if y - r + j > g.y2 - 1 { g.y2 - 1 } else { y - r + j };
    let line = |j: int| (total(|i: int| s[row(j) * w + col(i)] as int, n) / n) as u8 as int;
    let other = |j: int|
        (total(|i: int| s[p.at(held(x - r + i, g.x1 as int, g.x2 - 1), held(y - r + j, g.y1 as int, g.y2 - 1))] as int, n) / n) as u8 as int;
    assert forall|j: int| 0 <= j < n implies #[trigger] other(j) == line(j) by {
        let a = |i: int| s[p.at(held(x - r + i, g.x1 as int, g.x2 - 1), held(y - r + j, g.y1 as int, g.y2 - 1))] as int;
        let b = |i: int| s[row(j) * w + col(i)] as int;
        assert forall|i: int| 0 <= i < n implies #[trigger] a(i) == b(i) by {
            assert(col(i) * 1 == col(i));
        }
        lemma_total_same(a, b, n);
    }
    lemma_total_same(other, line, n);
}

/// A colour difference that is blurred, as the brightness is, with half of the radius, rounded up, where the upper left of its four
/// pixels is set; elsewhere it stays.
pub proof fn law_blur_chroma(s: Seq<u8>, w: int, h: int, mask: Seq<u8>, radius: usize, c: int, x: int, y: int)
    requires
        0 < w <= usize::MAX,
        0 < h <= usize::MAX,
        w * h + 1 <= usize::MAX,
        composable(s.len() as int, w, h, mask, (MaskStyle::Blur { radius })),
        0 <= c <= 1,
        0 <= x,
        0 <= y,
        2 * x + 1 < w,
        2 * y + 1 < h,
    ensures
        ({
            let now = composed(s, w, h, mask, (MaskStyle::Blur { radius }));
            let r = ((if radius < 1 { 1 } else if radius > 64 { 64 } else { radius as int }) + 1) / 2;
            let g = padded(mask, w, h, 3 * radius);
            let (l, t, e, b) = (g.x1 as int / 2, g.y1 as int / 2, (g.x2 + 1) / 2 - 1, (g.y2 + 1) / 2 - 1);
            let col = |i: int| if x - r + i < l { l } else if x - r + i > e { e } else { x - r + i };
            let row = |j: int| if y - r + j < t { t } else if y - r + j > b { b } else { y - r + j };
            let line = |j: int| (total(|i: int| s[w * h + row(j) * w + 2 * col(i) + c] as int, 2 * r + 1) / (2 * r + 1)) as u8 as int;
            let k = w * h + y * w + 2 * x + c;
            &&& mask[cell(w, 2 * x, 2 * y)] != 0 ==> now[k] == (total(line, 2 * r + 1) / (2 * r + 1)) as u8
            &&& mask[cell(w, 2 * x, 2 * y)] == 0 ==> now[k] == s[k]
        }),
{
    let r0 = if radius < 1 { 1 } else if radius > 64 { 64 } else { radius as int };
    let r = (r0 + 1) / 2;
    let g = padded(mask, w, h, 3 * radius);
    lemma_blurred_chroma(s, w, h, mask, radius, c, x, y);
    if mask[cell(w, 2 * x, 2 * y)] != 0 {
        lemma_chroma_sums(s, w, h, c, half(g), r, x, y);
    }
}

proof fn lemma_blurred_chroma(s: Seq<u8>, w: int, h: int, mask: Seq<u8>, radius: usize, c: int, x: int, y: int)
    requires
        0 < w <= usize::MAX,
        0 < h <= usize::MAX,
        w * h + 1 <= usize::MAX,
        composable(s.len() as int, w, h, mask, (MaskStyle::Blur { radius })),
        0 <= c <= 1,
        0 <= x,
        0 <= y,
        2 * x + 1 < w,
        2 * y + 1 < h,
    ensures
        ({
            let now = composed(s, w, h, mask, (MaskStyle::Blur { radius }));
            let r = ((if radius < 1 { 1 } else if radius > 64 { 64 } else { radius as int }) + 1) / 2;
            let q = half(padded(mask, w, h, 3 * radius));
            let k = w * h + y * w + 2 * x + c;
            &&& mask[cell(w, 2 * x, 2 * y)] != 0 ==> q.has(x, y) && 2 * q.x2 <= w && now[k] == blur_vals(s, chroma(w, h, c), q, r)[cell(
                q.width(),
                x - q.x1,
                y - q.y1,
            )]
            &&& mask[cell(w, 2 * x, 2 * y)] == 0 ==> now[k] == s[k]
        }),
{
    let style = MaskStyle::Blur { radius };
    let r0 = if radius < 1 { 1 } else if radius > 64 { 64 } else { radius as int };
    let r = (r0 + 1) / 2;
    if !any_set(mask) {
        lemma_cell(w, h, 2 * x, 2 * y);
    } else {
        let g = padded(mask, w, h, 3 * radius);
        assert(reach(style) == 3 * radius);
        let q = half(g);
        let p = chroma(w, h, c);
        let k = p.at(x, y);
        lemma_touched_inside(mask, w, h, style, s.len() as int);
        lemma_chroma_at(w, h, c, q, 2 * x, 2 * y);
        assert((2 * x) / 2 == x && (2 * y) / 2 == y);
        lemma_cell(w, h / 2, 2 * x + c, y);
        assert(w * (h / 2) == (h / 2) * w) by (nonlinear_arith);
        assert(k == w * h + y * w + 2 * x + c);
        assert(k < s.len());
        lemma_luma_apart(w, h, g, k);
        let (u, v) = (chroma(w, h, 0), chroma(w, h, 1));
        let s1 = overlaid(s, luma(w), g, mask, w, Hit::Pixel, blur_vals(s, luma(w), g, r0));
        let s2 = overlaid(s1, u, q, mask, w, Hit::Corner, blur_vals(s, u, q, r));
        let t = overlaid(s2, v, q, mask, w, Hit::Corner, blur_vals(s, v, q, r));
        assert(t == composed(s, w, h, mask, style));
        assert(s1[k] == s[k]);
        let vals = blur_vals(s, p, q, r);
        let j = cell(q.width(), x - q.x1, y - q.y1);
        if mask[cell(w, 2 * x, 2 * y)] != 0 {
            lemma_set_pixel_touched(mask, w, h, 3 * radius, 2 * x, 2 * y);
            assert(q.has(x, y));
            if c == 0 {
                assert(s2[k] == vals[j]);
                assert(t[k] == s2[k]);
            } else {
                assert(t[k] == vals[j]);
            }
        }
    }
}

proof fn lemma_chroma_sums(s: Seq<u8>, w: int, h: int, c: int, q: Region, r: int, x: int, y: int)
    requires
        0 < w <= usize::MAX,
        0 <= w * h,
        w * h + 1 <= usize::MAX,
        0 <= c <= 1,
        0 <= r,
        q.has(x, y),
    ensures
        ({
            let (l, t, e, b) = (q.x1 as int, q.y1 as int, q.x2 - 1, q.y2 - 1);
            let col = |i: int| if x - r + i < l { l } else if x - r + i > e { e } else { x - r + i };
            let row = |j: int| if y - r + j < t { t } else if y - r + j > b { b } else { y - r + j };
            let line = |j: int| (total(|i: int| s[w * h + row(j) * w + 2 * col(i) + c] as int, 2 * r + 1) / (2 * r + 1)) as u8 as int;
            blur_vals(s, chroma(w, h, c), q, r)[cell(q.width(), x - q.x1, y - q.y1)] == (total(line, 2 * r + 1) / (2 * r + 1)) as u8
        }),
{
    let n = 2 * r + 1;
    let p = chroma(w, h, c);
    lemma_blur_value(s, p, q, r, x, y);
    let (l, t, e, b) = (q.x1 as int, q.y1 as int, q.x2 - 1, q.y2 - 1);
    let col = |i: int| if x - r + i < l { l } else if x - r + i > e { e } else { x - r + i };
    let row = |j: int| if y - r + j < t { t } else if y - r + j > b { b } else { y - r + j };
    let line = |j: int| (total(|i: int| s[w * h + row(j) * w + 2 * col(i) + c] as int, n) / n) as u8 as int;
    let other = |j: int|
        (total(|i: int| s[p.at(held(x - r + i, l, e), held(y - r + j, t, b))] as int, n) / n) as u8 as int;
    assert forall|j: int| 0 <= j < n implies #[trigger] other(j) == line(j) by {
        let a = |i: int| s[p.at(held(x - r + i, l, e), held(y - r + j, t, b))] as int;
        let d = |i: int| s[w * h + row(j) * w + 2 * col(i) + c] as int;
        assert forall|i: int| 0 <= i < n implies #[trigger] a(i) == d(i) by {
            lemma_chroma_place(w, h, c, col(i), row(j));
        }
        lemma_total_same(a, d, n);
    }
    lemma_total_same(other, line, n);
}

proof fn lemma_chroma_place(w: int, h: int, c: int, x: int, y: int)
    requires
        0 < w <= usize::MAX,
        0 <= w * h,
        w * h + 1 <= usize::MAX,
        0 <= c <= 1,
    ensures
        chroma(w, h, c).at(x, y) == w * h + y * w + 2 * x + c,
{
    assert(x * 2 == 2 * x);
}

/// The brightness of a set pixel in the block style: the mean of the touched pixels of its block, rounded down. Blocks have the
/// length asked for, but at least 2, are counted off from the upper left of the touched region, and are cut off at its lower right;
/// (`bx`, `by`) is where the block begins.
pub proof fn law_mosaic_luma(s: Seq<u8>, w: int, h: int, mask: Seq<u8>, side: usize, x: int, y: int, bx: int, by: int)
    requires
        0 < w <= usize::MAX,
        0 < h <= usize::MAX,
        w * h + 1 <= usize::MAX,
        composable(s.len() as int, w, h, mask, (MaskStyle::Mosaic { cell: side })),
        0 <= x < w,
        0 <= y < h,
        mask[cell(w, x, y)] != 0,
        ({
            let g = padded(mask, w, h, side as int);
            let c = if side < 2 { 2 } else { side as int };
            &&& g.x1 <= bx <= x < bx + c
            &&& g.y1 <= by <= y < by + c
            &&& (bx - g.x1) % c == 0
            &&& (by - g.y1) % c == 0
        }),
    ensures
        ({
            let g = padded(mask, w, h, side as int);
            let c = if side < 2 { 2 } else { side as int };
            let bw = if bx + c < g.x2 { c } else { g.x2 - bx };
            let bh = if by + c < g.y2 { c } else { g.y2 - by };
            composed(s, w, h, mask, (MaskStyle::Mosaic { cell: side }))[y * w + x] == (total(
                |j: int| total(|i: int| s[(by + j) * w + (bx + i)] as int, bw),
                bh,
            ) / (bw * bh)) as u8
        }),
{
    let g = padded(mask, w, h, side as int);
    let c = if side < 2 { 2 } else { side as int };
    lemma_mosaic_luma(s, w, h, mask, side, x, y);
    lemma_set_pixel_touched(mask, w, h, side as int, x, y);
    lemma_block_lo(g.x1 as int, c, bx, x);
    lemma_block_lo(g.y1 as int, c, by, y);
    let b = block_of(g, c, x, y);
    let bw = if bx + c < g.x2 { c } else { g.x2 - bx };
    let bh = if by + c < g.y2 { c } else { g.y2 - by };
    assert(b.x1 == bx && b.y1 == by && b.width() == bw && b.height() == bh);
    let p = luma(w);
    lemma_block_total(s, p, bx, b.x2 as int, by, b.y2 as int);
    let f = |j: int| total(|i: int| s[p.at(bx + i, by + j)] as int, bw);
    let e = |j: int| total(|i: int| s[(by + j) * w + (bx + i)] as int, bw);
    assert forall|j: int| 0 <= j < bh implies #[trigger] f(j) == e(j) by {
        let a = |i: int| s[p.at(bx + i, by + j)] as int;
        let d = |i: int| s[(by + j) * w + (bx + i)] as int;
        assert forall|i: int| 0 <= i < bw implies #[trigger] a(i) == d(i) by {
            assert((bx + i) * 1 == bx + i);
        }
        lemma_total_same(a, d, bw);
    }
    lemma_total_same(f, e, bh);
}

/// A colour difference in the block style, where any of its four pixels is set: the mean of the touched ones of its block, as for the
/// brightness, in blocks of half the length, rounded down.
pub proof fn law_mosaic_chroma(s: Seq<u8>, w: int, h: int, mask: Seq<u8>, side: usize, c: int, x: int, y: int, bx: int, by: int)
    requires
        0 < w <= usize::MAX,
        0 < h <= usize::MAX,
        w * h + 1 <= usize::MAX,
        composable(s.len() as int, w, h, mask, (MaskStyle::Mosaic { cell: side })),
        0 <= c <= 1,
        0 <= x,
        0 <= y,
        2 * x + 1 < w,
        2 * y + 1 < h,
        mask[cell(w, 2 * x, 2 * y)] != 0 || mask[cell(w, 2 * x + 1, 2 * y)] != 0 || mask[cell(w, 2 * x, 2 * y + 1)] != 0 || mask[cell(
            w,
            2 * x + 1,
            2 * y + 1,
        )] != 0,
        ({
            let g = padded(mask, w, h, side as int);
            let d = if side < 4 { 1 } else { side as int / 2 };
            &&& g.x1 as int / 2 <= bx <= x < bx + d
            &&& g.y1 as int / 2 <= by <= y < by + d
            &&& (bx - g.x1 as int / 2) % d == 0
            &&& (by - g.y1 as int / 2) % d == 0
        }),
    ensures
        ({
            let g = padded(mask, w, h, side as int);
            let d = if side < 4 { 1 } else { side as int / 2 };
            let bw = if bx + d < (g.x2 + 1) / 2 { d } else { (g.x2 + 1) / 2 - bx };
            let bh = if by + d < (g.y2 + 1) / 2 { d } else { (g.y2 + 1) / 2 - by };
            composed(s, w, h, mask, (MaskStyle::Mosaic { cell: side }))[w * h + y * w + 2 * x + c] == (total(
                |j: int| total(|i: int| s[w * h + (by + j) * w + 2 * (bx + i) + c] as int, bw),
                bh,
            ) / (bw * bh)) as u8
        }),
{
    let g = padded(mask, w, h, side as int);
    let d = if side < 4 { 1 } else { side as int / 2 };
    lemma_mosaic_chroma_value(s, w, h, mask, side, c, x, y);
    lemma_chroma_means(s, w, h, c, half(g), d, x, y, bx, by);
}

proof fn lemma_mosaic_chroma_value(s: Seq<u8>, w: int, h: int, mask: Seq<u8>, side: usize, c: int, x: int, y: int)
    requires
        0 < w <= usize::MAX,
        0 < h <= usize::MAX,
        w * h + 1 <= usize::MAX,
        composable(s.len() as int, w, h, mask, (MaskStyle::Mosaic { cell: side })),
        0 <= c <= 1,
        0 <= x,
        0 <= y,
        2 * x + 1 < w,
        2 * y + 1 < h,
        Hit::Quad.on(mask, w, x, y),
    ensures
        ({
            let q = half(padded(mask, w, h, side as int));
            let d = if side < 4 { 1 } else { side as int / 2 };
            &&& q.has(x, y)
            &&& 0 <= w * h
            &&& composed(s, w, h, mask, (MaskStyle::Mosaic { cell: side }))[w * h + y * w + 2 * x + c] == mean(
                s,
                chroma(w, h, c),
                block_of(q, d, x, y),
            )
        }),
{
    let style = MaskStyle::Mosaic { cell: side };
    let g = padded(mask, w, h, side as int);
    let q = half(g);
    let c0 = if side < 2 { 2 } else { side as int };
    let d = if side < 4 { 1 } else { side as int / 2 };
    assert(d == if c0 / 2 < 1 { 1 } else { c0 / 2 });
    let p = chroma(w, h, c);
    let k = p.at(x, y);
    if mask[cell(w, 2 * x, 2 * y)] != 0 {
        lemma_set_pixel_touched(mask, w, h, side as int, 2 * x, 2 * y);
    } else if mask[cell(w, 2 * x + 1, 2 * y)] != 0 {
        lemma_set_pixel_touched(mask, w, h, side as int, 2 * x + 1, 2 * y);
    } else if mask[cell(w, 2 * x, 2 * y + 1)] != 0 {
        lemma_set_pixel_touched(mask, w, h, side as int, 2 * x, 2 * y + 1);
    } else {
        lemma_set_pixel_touched(mask, w, h, side as int, 2 * x + 1, 2 * y + 1);
    }
    assert(q.has(x, y));
    lemma_touched_inside(mask, w, h, style, s.len() as int);
    lemma_chroma_at(w, h, c, q, 2 * x, 2 * y);
    assert((2 * x) / 2 == x && (2 * y) / 2 == y);
    lemma_cell(w, h / 2, 2 * x + c, y);
    assert(w * (h / 2) == (h / 2) * w) by (nonlinear_arith);
    lemma_cell(w, h, 2 * x, 2 * y);
    assert(k == w * h + y * w + 2 * x + c);
    assert(k < s.len());
    let vals = mosaic_vals(s, p, q, d);
    let at = cell(q.width(), x - q.x1, y - q.y1);
    assert(vals[at] == mean(s, p, block_of(q, d, x, y))) by {
        lemma_cell(q.width(), q.height(), x - q.x1, y - q.y1);
    }
    let (u, v) = (chroma(w, h, 0), chroma(w, h, 1));
    let s1 = overlaid(s, luma(w), g, mask, w, Hit::Pixel, mosaic_vals(s, luma(w), g, c0));
    let s2 = overlaid(s1, u, q, mask, w, Hit::Quad, mosaic_vals(s, u, q, d));
    let t = overlaid(s2, v, q, mask, w, Hit::Quad, mosaic_vals(s, v, q, d));
    assert(t == composed(s, w, h, mask, style));
    assert(p.owns(k) && p.col(k) == x && p.row(k) == y);
    if c == 0 {
        assert(s2[k] == vals[at]);
        assert(t[k] == s2[k]);
    } else {
        assert(t[k] == vals[at]);
    }
}

proof fn lemma_chroma_means(s: Seq<u8>, w: int, h: int, c: int, q: Region, d: int, x: int, y: int, bx: int, by: int)
    requires
        0 < w <= usize::MAX,
        0 <= w * h,
        w * h + 1 <= usize::MAX,
        0 <= c <= 1,
        0 < d,
        q.has(x, y),
        q.x1 <= bx <= x < bx + d,
        q.y1 <= by <= y < by + d,
        (bx - q.x1) % d == 0,
        (by - q.y1) % d == 0,
    ensures
        ({
            let bw = if bx + d < q.x2 { d } else { q.x2 - bx };
            let bh = if by + d < q.y2 { d } else { q.y2 - by };
            mean(s, chroma(w, h, c), block_of(q, d, x, y)) == (total(
                |j: int| total(|i: int| s[w * h + (by + j) * w + 2 * (bx + i) + c] as int, bw),
                bh,
            ) / (bw * bh)) as u8
        }),
{
    let p = chroma(w, h, c);
    lemma_block_lo(q.x1 as int, d, bx, x);
    lemma_block_lo(q.y1 as int, d, by, y);
    let b = block_of(q, d, x, y);
    let bw = if bx + d < q.x2 { d } else { q.x2 - bx };
    let bh = if by + d < q.y2 { d } else { q.y2 - by };
    assert(b.x1 == bx && b.y1 == by && b.width() == bw && b.height() == bh);
    lemma_block_total(s, p, bx, b.x2 as int, by, b.y2 as int);
    let f = |j: int| total(|i: int| s[p.at(bx + i, by + j)] as int, bw);
    let e = |j: int| total(|i: int| s[w * h + (by + j) * w + 2 * (bx + i) + c] as int, bw);
    assert forall|j: int| 0 <= j < bh implies #[trigger] f(j) == e(j) by {
        let a = |i: int| s[p.at(bx + i, by + j)] as int;
        let o = |i: int| s[w * h + (by + j) * w + 2 * (bx + i) + c] as int;
        assert forall|i: int| 0 <= i < bw implies #[trigger] a(i) == o(i) by {
            lemma_chroma_place(w, h, c, bx + i, by + j);
        }
        lemma_total_same(a, o, bw);
    }
    lemma_total_same(f, e, bh);
}

/// Filling a rectangle changes its cells and no others.
pub proof fn law_filled(s: Seq<u8>, w: int, h: int, g: Region, v: u8, x: int, y: int)
    requires
        s.len() == w * h,
        0 <= x < w,
        0 <= y < h,
    ensures
        filled(s, w, g, v).len() == s.len(),
        filled(s, w, g, v)[y * w + x] == (if g.x1 <= x < g.x2 && g.y1 <= y < g.y2 {
            v
        } else {
            s[y * w + x]
        }),
{
    lemma_cell(w, h, x, y);
}

} // verus!
