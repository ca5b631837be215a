//! Colours: from brightness and colour differences (limited range, as in ITU-R BT.601) to red, green and blue, and back.
//!
//! The conversions are those of single-precision arithmetic, step by step. A number is held as an integer, in units of
//! 2 to the power of -29; after each step it is rounded to 24 significant bits, a tie to the even neighbour.
use crate::grid::{cell, lemma_cell, lemma_offset};
use vstd::prelude::*;

verus! {

/// One, in the units that numbers are held in.
pub const ONE: i64 = 0x2000_0000;

/// 1.1644 in single precision.
pub const Y_GAIN: i64 = 625132480;

/// 1.5960 in single precision.
pub const V_TO_RED: i64 = 856845952;

/// 0.3917 in single precision.
pub const U_TO_GREEN: i64 = 210292336;

/// 0.8130 in single precision.
pub const V_TO_GREEN: i64 = 436476064;

/// 2.0172 in single precision.
pub const U_TO_BLUE: i64 = 1082976000;

/// 0.2568 in single precision.
pub const RED_TO_Y: i64 = 137868448;

/// 0.5041 in single precision.
pub const GREEN_TO_Y: i64 = 270636640;

/// 0.0979 in single precision.
pub const BLUE_TO_Y: i64 = 52559664;

/// 0.1482 in single precision.
pub const RED_TO_U: i64 = 79564272;

/// 0.2910 in single precision.
pub const GREEN_TO_U: i64 = 156229440;

/// 0.4392 in single precision.
pub const BLUE_TO_U: i64 = 235793712;

/// 0.4392 in single precision.
pub const RED_TO_V: i64 = 235793712;

/// 0.3678 in single precision.
pub const GREEN_TO_V: i64 = 197461120;

/// 0.0714 in single precision.
pub const BLUE_TO_V: i64 = 38332584;

/// The least power of two, one or greater, of which `n` holds less than 2 to the power of 24.
pub open spec fn grain(n: nat) -> nat
    decreases n,
{
    if n < 0x100_0000 {
        1
    } else {
        2 * grain(n / 2)
    }
}

/// The multiple of the grain of `n` that is nearest to it; of two that are as near, the one with the even multiplier.
pub open spec fn nearest(n: nat) -> nat {
    let g = grain(n);
    let q = n / g;
    let r = n % g;
    if 2 * r > g || (2 * r == g && q % 2 == 1) {
        (q + 1) * g
    } else {
        q * g
    }
}

/// `n` rounded to 24 significant bits.
#[verifier::opaque]
pub open spec fn single(n: int) -> int {
    if n < 0 {
        -(nearest((-n) as nat))
    } else {
        nearest(n as nat) as int
    }
}

proof fn lemma_grain(n: nat)
    ensures
        1 <= grain(n),
        n >= 0x100_0000 ==> grain(n) <= n,
        n < 0x100_0000 * grain(n),
    decreases n,
{
    if n >= 0x100_0000 {
        lemma_grain(n / 2);
    }
}

proof fn lemma_nearest(n: nat)
    ensures
        nearest(n) <= 2 * n,
        n < 0x100_0000 ==> nearest(n) == n,
{
    lemma_grain(n);
    let g = grain(n);
    let q = n / g;
    let r = n % g;
    vstd::arithmetic::div_mod::lemma_fundamental_div_mod(n as int, g as int);
    assert(q * g + r == n) by (nonlinear_arith)
        requires
            n == g * q + r,
    ;
    if n < 0x100_0000 {
        assert(g * q == q) by (nonlinear_arith)
            requires
                g == 1,
        ;
        assert(q * g == q) by (nonlinear_arith)
            requires
                g == 1,
        ;
    } else {
        assert((q + 1) * g == q * g + g) by (nonlinear_arith);
    }
}

/// `n` rounded to 24 significant bits.
fn round_single(n: i64) -> (r: i64)
    requires
        -0x1000_0000_0000_0000 <= n <= 0x1000_0000_0000_0000,
    ensures
        r == single(n as int),
        -2 * (if n < 0 {
            -n
        } else {
            n as int
        }) <= r <= 2 * (if n < 0 {
            -n
        } else {
            n as int
        }),
{
    let a: u64 = if n < 0 { (-n) as u64 } else { n as u64 };
    let mut m: u64 = a;
    let mut g: u64 = 1;
    while m >= 0x100_0000
        invariant
            1 <= g,
            a <= 0x1000_0000_0000_0000,
            g * grain(m as nat) == grain(a as nat),
            g * m <= a,
        decreases m,
    {
        proof {
            assert(g * (2 * grain((m / 2) as nat)) == (2 * g) * grain((m / 2) as nat)) by (nonlinear_arith);
            assert((2 * g) * (m / 2) <= g * m) by (nonlinear_arith)
                requires
                    2 * (m / 2) <= m,
                    0 <= g,
            ;
            assert(2 * g <= (2 * g) * (m / 2)) by (nonlinear_arith)
                requires
                    1 <= m / 2,
                    0 <= g,
            ;
        }
        g = g * 2;
        m = m / 2;
    }
    proof {
        assert(g * grain(m as nat) == g) by (nonlinear_arith)
            requires
                grain(m as nat) == 1,
        ;
        assert(g == grain(a as nat));
        lemma_nearest(a as nat);
    }
    let q: u64 = a / g;
    let r: u64 = a % g;
    proof {
        vstd::arithmetic::div_mod::lemma_fundamental_div_mod(a as int, g as int);
        assert(q * g + r == a) by (nonlinear_arith)
            requires
                a == g * q + r,
        ;
        assert((q + 1) * g == q * g + g) by (nonlinear_arith);
        lemma_grain(a as nat);
        assert(g <= 0x1000_0000_0000_0000);
        assert(q <= a) by (nonlinear_arith)
            requires
                q * g <= a,
                1 <= g,
                0 <= q,
        ;
    }
    let k: u64 = if 2 * r > g || (2 * r == g && q % 2 == 1) { q + 1 } else { q };
    let v: u64 = k * g;
    proof {
        reveal(single);
    }
    if n < 0 {
        -(v as i64)
    } else {
        v as i64
    }
}

/// The whole part of a number, not less than 0 and not more than 255.
pub open spec fn whole8(n: int) -> u8 {
    if n < 0 {
        0
    } else if n / ONE as int > 255 {
        255
    } else {
        (n / ONE as int) as u8
    }
}

/// The whole number nearest to `n` in units of one `unit`-th, a tie upwards, not less than 0 and not more than 255.
pub open spec fn near8(n: int, unit: int) -> u8 {
    if n < 0 {
        0
    } else if (2 * n + unit) / (2 * unit) > 255 {
        255
    } else {
        ((2 * n + unit) / (2 * unit)) as u8
    }
}

/// The brightness of a pixel as all three colours get it.
pub open spec fn bright(y: u8) -> int {
    single((y - 16) * Y_GAIN)
}

/// The red of a pixel.
pub open spec fn red(y: u8, v: u8) -> u8 {
    whole8(single(bright(y) + single((v - 128) * V_TO_RED)))
}

/// The green of a pixel.
pub open spec fn green(y: u8, u: u8, v: u8) -> u8 {
    whole8(single(single(bright(y) - single((u - 128) * U_TO_GREEN)) - single((v - 128) * V_TO_GREEN)))
}

/// The blue of a pixel.
pub open spec fn blue(y: u8, u: u8) -> u8 {
    whole8(single(bright(y) + single((u - 128) * U_TO_BLUE)))
}

fn cut8(n: i64) -> (v: u8)
    ensures
        v == whole8(n as int),
{
    if n < 0 {
        0
    } else if n / ONE > 255 {
        255
    } else {
        (n / ONE) as u8
    }
}

fn round8(n: i64, unit: i64) -> (v: u8)
    requires
        0 < unit <= 0x8000_0000,
        n <= 0x1000_0000_0000_0000,
    ensures
        v == near8(n as int, unit as int),
{
    if n < 0 {
        0
    } else if (2 * n + unit) / (2 * unit) > 255 {
        255
    } else {
        ((2 * n + unit) / (2 * unit)) as u8
    }
}

/// The product of a byte, less `less`, and a factor.
fn times(x: u8, less: i64, factor: i64) -> (r: i64)
    requires
        0 <= less <= 128,
        -0x8000_0000 <= factor <= 0x8000_0000,
    ensures
        r == single((x - less) * factor),
        -0x400_0000_0000 <= r <= 0x400_0000_0000,
{
    let d: i64 = x as i64 - less;
    assert(-0x80_0000_0000 <= d * factor <= 0x80_0000_0000) by (nonlinear_arith)
        requires
            -256 <= d <= 256,
            -0x8000_0000 <= factor <= 0x8000_0000,
    ;
    round_single(d * factor)
}

/// The three colours of a pixel.
pub fn pixel_rgb(y: u8, u: u8, v: u8) -> (r: (u8, u8, u8))
    ensures
        r.0 == red(y, v),
        r.1 == green(y, u, v),
        r.2 == blue(y, u),
{
    let b: i64 = times(y, 16, Y_GAIN);
    let rr: i64 = round_single(b + times(v, 128, V_TO_RED));
    let g1: i64 = round_single(b - times(u, 128, U_TO_GREEN));
    let gg: i64 = round_single(g1 - times(v, 128, V_TO_GREEN));
    let bb: i64 = round_single(b + times(u, 128, U_TO_BLUE));
    (cut8(rr), cut8(gg), cut8(bb))
}

/// Whether a frame of `len` bytes holds the brightness and the colours of every pixel of a `w` by `h` picture.
pub open spec fn holds_frame(len: int, w: int, h: int) -> bool {
    &&& w * h <= len
    &&& w > 0 && h > 0 ==> w * h + ((h - 1) / 2) * w + ((w - 1) / 2) * 2 + 1 < len
}

/// Whether `len` bytes hold a `w` by `h` frame.
pub fn does_hold_frame(len: usize, w: usize, h: usize) -> (r: bool)
    ensures
        r == holds_frame(len as int, w as int, h as int),
{
    proof {
        let m: int = u64::MAX as int;
        assert(m * m <= u128::MAX);
        assert(0 <= w * h <= m * m) by (nonlinear_arith)
            requires
                0 <= w <= m,
                0 <= h <= m,
        ;
        if h > 0 {
            assert(0 <= ((h - 1) / 2) * w <= w * h) by (nonlinear_arith)
                requires
                    0 <= (h - 1) / 2 <= h,
                    0 <= w,
            ;
        }
    }
    let all: u128 = w as u128 * h as u128;
    if all > len as u128 {
        return false;
    }
    w == 0 || h == 0 || all + ((h - 1) / 2) as u128 * w as u128 + ((w - 1) / 2) as u128 * 2 + 1 < len as u128
}

/// Whether `len` bytes hold a `w` by `h` frame whose picture can be counted.
pub fn can_convert(len: usize, w: usize, h: usize) -> (r: bool)
    ensures
        r == (holds_frame(len as int, w as int, h as int) && w * h * 4 <= usize::MAX),
{
    does_hold_frame(len, w, h) && (w * h) as u128 * 4 <= usize::MAX as u128
}

/// A byte of the picture of a frame at (`x`, `y`): red, green, blue, or opaque.
pub open spec fn channel(f: Seq<u8>, w: int, h: int, x: int, y: int, c: int) -> u8 {
    let l = f[y * w + x];
    let u = f[w * h + (y / 2) * w + (x / 2) * 2];
    let v = f[w * h + (y / 2) * w + (x / 2) * 2 + 1];
    if c == 0 {
        red(l, v)
    } else if c == 1 {
        green(l, u, v)
    } else if c == 2 {
        blue(l, u)
    } else {
        255
    }
}

/// The picture of a frame, scaled to `dw` by `dh` pixels.
pub open spec fn picture(f: Seq<u8>, w: int, h: int, dw: int, dh: int) -> Seq<u8> {
    Seq::new(
        (dw * dh * 4) as nat,
        |k: int| channel(f, w, h, ((k / 4) % dw) * w / dw, ((k / 4) / dw) * h / dh, k % 4),
    )
}

/// The picture of a frame, pixel for pixel.
pub open spec fn full_picture(f: Seq<u8>, w: int, h: int) -> Seq<u8> {
    Seq::new((w * h * 4) as nat, |k: int| channel(f, w, h, (k / 4) % w, (k / 4) / w, k % 4))
}

proof fn lemma_fits(len: int, w: int, h: int, x: int, y: int)
    requires
        holds_frame(len, w, h),
        0 <= x < w,
        0 <= y < h,
    ensures
        0 <= y * w + x < w * h,
        0 <= (y / 2) * w,
        w * h + (y / 2) * w + (x / 2) * 2 + 1 < len,
{
    lemma_cell(w, h, x, y);
    assert(0 <= (y / 2) * w <= ((h - 1) / 2) * w) by (nonlinear_arith)
        requires
            0 <= y / 2 <= (h - 1) / 2,
            0 <= w,
    ;
}

proof fn lemma_scaled(p: int, n: int, d: int)
    requires
        0 <= p < d,
        0 < n,
    ensures
        0 <= p * n / d < n,
        0 <= p * n <= d * n,
{
    assert(0 <= p * n && p * n < d * n) by (nonlinear_arith)
        requires
            0 <= p < d,
            0 < n,
    ;
    assert(0 <= p * n / d < n) by (nonlinear_arith)
        requires
            0 <= p * n < d * n,
            0 < d,
    ;
}

/// The picture of a `w` by `h` frame, scaled to `dw` by `dh` pixels: four bytes per pixel, red, green, blue, opaque.
pub fn nv12_to_rgba_scaled(nv12: &[u8], w: usize, h: usize, dw: usize, dh: usize) -> (out: Vec<u8>)
    requires
        holds_frame(nv12@.len() as int, w as int, h as int),
        dw * dh * 4 <= usize::MAX,
        dw * w <= usize::MAX,
        dh * h <= usize::MAX,
        dw > 0 && dh > 0 ==> w > 0 && h > 0,
    ensures
        out@ == picture(nv12@, w as int, h as int, dw as int, dh as int),
{
    assert(nv12.len() == nv12@.len());
    let mut out: Vec<u8> = Vec::new();
    let ghost want = picture(nv12@, w as int, h as int, dw as int, dh as int);
    let base: usize = w * h;
    let total: usize = dw * dh;
    for p in 0..total
        invariant
            nv12@.len() <= usize::MAX,
            holds_frame(nv12@.len() as int, w as int, h as int),
            dw * w <= usize::MAX,
            dh * h <= usize::MAX,
            dw > 0 && dh > 0 ==> w > 0 && h > 0,
            base == w * h,
            total == dw * dh,
            total * 4 <= usize::MAX,
            want == picture(nv12@, w as int, h as int, dw as int, dh as int),
            out@.len() == p * 4,
            forall|k: int| 0 <= k < out@.len() ==> #[trigger] out@[k] == want[k],
    {
        proof {
            assert(dw > 0 && dh > 0) by (nonlinear_arith)
                requires
                    0 <= p < dw * dh,
                    0 <= dw,
                    0 <= dh,
            ;
            lemma_offset(dw as int, dh as int, p as int);
            lemma_scaled((p % dw) as int, w as int, dw as int);
            lemma_scaled((p / dw) as int, h as int, dh as int);
        }
        let sx: usize = (p % dw) * w / dw;
        let sy: usize = (p / dw) * h / dh;
        proof {
            lemma_fits(nv12@.len() as int, w as int, h as int, sx as int, sy as int);
        }
        let l: u8 = nv12[sy * w + sx];
        let u: u8 = nv12[base + (sy / 2) * w + (sx / 2) * 2];
        let v: u8 = nv12[base + (sy / 2) * w + (sx / 2) * 2 + 1];
        let c = pixel_rgb(l, u, v);
        assert forall|j: int| 0 <= j < 4 implies (#[trigger] want[p * 4 + j]) == channel(
            nv12@,
            w as int,
            h as int,
            sx as int,
            sy as int,
            j,
        ) by {
            assert((p * 4 + j) / 4 == p && (p * 4 + j) % 4 == j);
        }
        assert(want[p * 4 + 0] == c.0);
        assert(want[p * 4 + 1] == c.1);
        assert(want[p * 4 + 2] == c.2);
        assert(want[p * 4 + 3] == 255);
        out.push(c.0);
        out.push(c.1);
        out.push(c.2);
        out.push(255);
    }
    assert(out@ =~= want);
    out
}

proof fn lemma_unscaled(k: int, w: int, h: int)
    requires
        0 <= k < w * h * 4,
        0 < w,
        0 < h,
    ensures
        ((k / 4) % w) * w / w == (k / 4) % w,
        ((k / 4) / w) * h / h == (k / 4) / w,
{
    vstd::arithmetic::div_mod::lemma_div_by_multiple((k / 4) % w, w);
    vstd::arithmetic::div_mod::lemma_div_by_multiple((k / 4) / w, h);
}

/// The picture of a `w` by `h` frame: four bytes per pixel, red, green, blue, opaque.
pub fn nv12_to_rgba(nv12: &[u8], w: usize, h: usize) -> (out: Vec<u8>)
    requires
        holds_frame(nv12@.len() as int, w as int, h as int),
        w * h * 4 <= usize::MAX,
    ensures
        out@ == full_picture(nv12@, w as int, h as int),
{
    assert(nv12.len() == nv12@.len());
    let mut out: Vec<u8> = Vec::new();
    let ghost want = full_picture(nv12@, w as int, h as int);
    let total: usize = w * h;
    for p in 0..total
        invariant
            nv12@.len() <= usize::MAX,
            holds_frame(nv12@.len() as int, w as int, h as int),
            total == w * h,
            total * 4 <= usize::MAX,
            want == full_picture(nv12@, w as int, h as int),
            out@.len() == p * 4,
            forall|k: int| 0 <= k < out@.len() ==> #[trigger] out@[k] == want[k],
    {
        proof {
            assert(w > 0 && h > 0) by (nonlinear_arith)
                requires
                    0 <= p < w * h,
                    0 <= w,
                    0 <= h,
            ;
            lemma_offset(w as int, h as int, p as int);
        }
        let x: usize = p % w;
        let y: usize = p / w;
        proof {
            lemma_fits(nv12@.len() as int, w as int, h as int, x as int, y as int);
        }
        let l: u8 = nv12[p];
        let u: u8 = nv12[total + (y / 2) * w + (x / 2) * 2];
        let v: u8 = nv12[total + (y / 2) * w + (x / 2) * 2 + 1];
        let c = pixel_rgb(l, u, v);
        assert(cell(w as int, x as int, y as int) == y * w + x);
        assert forall|j: int| 0 <= j < 4 implies (#[trigger] want[p * 4 + j]) == channel(
            nv12@,
            w as int,
            h as int,
            x as int,
            y as int,
            j,
        ) by {
            assert((p * 4 + j) / 4 == p && (p * 4 + j) % 4 == j);
        }
        assert(want[p * 4 + 0] == c.0);
        assert(want[p * 4 + 1] == c.1);
        assert(want[p * 4 + 2] == c.2);
        assert(want[p * 4 + 3] == 255);
        out.push(c.0);
        out.push(c.1);
        out.push(c.2);
        out.push(255);
    }
    assert(out@ =~= want);
    out
}

/// Scaling a picture to the size it has changes nothing.
pub proof fn law_same_size(f: Seq<u8>, w: int, h: int)
    requires
        0 < w,
        0 < h,
    ensures
        picture(f, w, h, w, h) == Seq::new(
            (w * h * 4) as nat,
            |k: int| channel(f, w, h, (k / 4) % w, (k / 4) / w, k % 4),
        ),
{
    let a = picture(f, w, h, w, h);
    let b = Seq::new((w * h * 4) as nat, |k: int| channel(f, w, h, (k / 4) % w, (k / 4) / w, k % 4));
    assert(w * h >= 0) by (nonlinear_arith)
        requires
            0 < w,
            0 < h,
    ;
    assert forall|k: int| 0 <= k < a.len() implies #[trigger] a[k] == b[k] by {
        lemma_unscaled(k, w, h);
    }
    assert(a =~= b);
}

/// The brightness of a pixel with the given colours.
pub open spec fn luma8(r: u8, g: u8, b: u8) -> u8 {
    near8(
        single(single(single(16 * ONE + single(r * RED_TO_Y)) + single(g * GREEN_TO_Y)) + single(b * BLUE_TO_Y)),
        ONE as int,
    )
}

/// What a pixel with the given colours adds to the first colour difference.
pub open spec fn u_part(r: u8, g: u8, b: u8) -> int {
    single(single(single(r * -RED_TO_U) - single(g * GREEN_TO_U)) + single(b * BLUE_TO_U))
}

/// What a pixel with the given colours adds to the second colour difference.
pub open spec fn v_part(r: u8, g: u8, b: u8) -> int {
    single(single(single(r * RED_TO_V) - single(g * GREEN_TO_V)) - single(b * BLUE_TO_V))
}

/// The part of pixel `p` of a picture with three bytes per pixel in the first (`c` is 0) or second colour difference.
pub open spec fn part(rgb: Seq<u8>, p: int, c: int) -> int {
    if c == 0 {
        u_part(rgb[3 * p], rgb[3 * p + 1], rgb[3 * p + 2])
    } else {
        v_part(rgb[3 * p], rgb[3 * p + 1], rgb[3 * p + 2])
    }
}

/// A colour difference of the two by two pixels whose upper left one is (`x`, `y`): the mean of their parts, plus 128.
pub open spec fn difference8(rgb: Seq<u8>, w: int, x: int, y: int, c: int) -> u8 {
    let a = single(0 + part(rgb, y * w + x, c));
    let b = single(a + part(rgb, y * w + x + 1, c));
    let d = single(b + part(rgb, (y + 1) * w + x, c));
    let e = single(d + part(rgb, (y + 1) * w + x + 1, c));
    near8(single(4 * 128 * ONE + e), 4 * ONE as int)
}

/// The frame of a `w` by `h` picture: the brightness of every pixel, then the two colour differences of every two by two
/// pixels.
pub open spec fn frame_of(rgb: Seq<u8>, w: int, h: int) -> Seq<u8> {
    Seq::new(
        (w * h + w * h / 2) as nat,
        |k: int|
            if k < w * h {
                luma8(rgb[3 * k], rgb[3 * k + 1], rgb[3 * k + 2])
            } else {
                let j = k - w * h;
                difference8(rgb, w, (j % w) - (j % w) % 2, 2 * (j / w), (j % w) % 2)
            },
    )
}

fn luma(r: u8, g: u8, b: u8) -> (v: u8)
    ensures
        v == luma8(r, g, b),
{
    let a: i64 = round_single(16 * ONE + times(r, 0, RED_TO_Y));
    let c: i64 = round_single(a + times(g, 0, GREEN_TO_Y));
    let d: i64 = round_single(c + times(b, 0, BLUE_TO_Y));
    round8(d, ONE)
}

fn find_part(rgb: &[u8], p: usize, c: usize) -> (v: i64)
    requires
        3 * p + 2 < rgb@.len(),
    ensures
        v == part(rgb@, p as int, c as int),
        -0x8000_0000_0000 <= v <= 0x8000_0000_0000,
{
    assert(rgb.len() == rgb@.len());
    let (r, g, b): (u8, u8, u8) = (rgb[3 * p], rgb[3 * p + 1], rgb[3 * p + 2]);
    if c == 0 {
        let a: i64 = round_single(times(r, 0, -RED_TO_U) - times(g, 0, GREEN_TO_U));
        round_single(a + times(b, 0, BLUE_TO_U))
    } else {
        let a: i64 = round_single(times(r, 0, RED_TO_V) - times(g, 0, GREEN_TO_V));
        round_single(a - times(b, 0, BLUE_TO_V))
    }
}

fn difference(rgb: &[u8], w: usize, x: usize, y: usize, c: usize) -> (v: u8)
    requires
        3 * ((y + 1) * w + x + 1) + 2 < rgb@.len(),
    ensures
        v == difference8(rgb@, w as int, x as int, y as int, c as int),
{
    assert(rgb.len() == rgb@.len());
    assert((y + 1) * w == y * w + w && 0 <= y * w) by (nonlinear_arith)
        requires
            0 <= y,
            0 <= w,
    ;
    let top: usize = y * w + x;
    let low: usize = top + w;
    let a: i64 = round_single(find_part(rgb, top, c));
    let b: i64 = round_single(a + find_part(rgb, top + 1, c));
    let d: i64 = round_single(b + find_part(rgb, low, c));
    let e: i64 = round_single(d + find_part(rgb, low + 1, c));
    round8(round_single(4 * 128 * ONE + e), 4 * ONE)
}

/// The frame of a `w` by `h` picture with three bytes per pixel: red, green, blue.
pub fn rgb_to_nv12(rgb: &[u8], w: usize, h: usize) -> (out: Vec<u8>)
    requires
        w % 2 == 0,
        h % 2 == 0,
        3 * (w * h) <= rgb@.len(),
    ensures
        out@ == frame_of(rgb@, w as int, h as int),
{
    assert(rgb.len() == rgb@.len());
    let mut out: Vec<u8> = Vec::new();
    let ghost want = frame_of(rgb@, w as int, h as int);
    let n: usize = w * h;
    for k in 0..n
        invariant
            n == w * h,
            3 * n <= rgb@.len() <= usize::MAX,
            want == frame_of(rgb@, w as int, h as int),
            out@.len() == k,
            forall|j: int| 0 <= j < k ==> #[trigger] out@[j] == want[j],
    {
        out.push(luma(rgb[3 * k], rgb[3 * k + 1], rgb[3 * k + 2]));
    }
    let half: usize = n / 2;
    for j in 0..half
        invariant
            n == w * h,
            half == n / 2,
            w % 2 == 0,
            h % 2 == 0,
            3 * n <= rgb@.len() <= usize::MAX,
            want == frame_of(rgb@, w as int, h as int),
            out@.len() == n + j,
            forall|i: int| 0 <= i < n + j ==> #[trigger] out@[i] == want[i],
    {
        proof {
            let hh = h as int / 2;
            assert(w * h == 2 * (w * hh)) by (nonlinear_arith)
                requires
                    h == 2 * hh,
            ;
            assert(w > 0) by (nonlinear_arith)
                requires
                    0 <= j < w * h,
                    0 <= w,
                    0 <= h,
            ;
            lemma_offset(w as int, hh, j as int);
            let x = j % w - (j % w) % 2;
            let y = 2 * (j / w);
            lemma_cell(w as int, h as int, x + 1, y + 1);
            assert(cell(w as int, x + 1, y + 1) == (y + 1) * w + x + 1);
        }
        let x: usize = j % w - (j % w) % 2;
        let y: usize = 2 * (j / w);
        out.push(difference(rgb, w, x, y, (j % w) % 2));
        assert(want[n + j] == difference8(rgb@, w as int, x as int, y as int, (j % w) as int % 2));
    }
    assert(out@ =~= want);
    out
}

// There and back.
proof fn lemma_grain_small(n: nat)
    requires
        n >= 0x100_0000,
    ensures
        0x80_0000 * grain(n) <= n,
    decreases n,
{
    if n / 2 >= 0x100_0000 {
        lemma_grain_small(n / 2);
    } else {
        assert(grain(n / 2) == 1);
    }
}

/// Rounding moves a number below 2 to the power of 40 by no more than 2 to the power of 16.
proof fn lemma_single_close(n: int)
    requires
        -0x100_0000_0000 <= n <= 0x100_0000_0000,
    ensures
        -0x1_0000 <= single(n) - n <= 0x1_0000,
{
    reveal(single);
    let a = (if n < 0 {
        -n
    } else {
        n
    }) as nat;
    let g = grain(a);
    lemma_grain(a);
    if a >= 0x100_0000 {
        lemma_grain_small(a);
    }
    let q = a / g;
    let r = a % g;
    vstd::arithmetic::div_mod::lemma_fundamental_div_mod(a as int, g as int);
    assert(q * g + r == a) by (nonlinear_arith)
        requires
            a == g * q + r,
    ;
    assert((q + 1) * g == q * g + g) by (nonlinear_arith);
    if a < 0x100_0000 {
        lemma_nearest(a);
    }
}

/// The number that `near8` gives is the nearest, if it is not cut off.
proof fn lemma_near8(n: int, unit: int)
    requires
        0 < unit,
        0 <= n,
        2 * n + unit < 512 * unit,
    ensures
        -unit <= 2 * unit * near8(n, unit) - 2 * n <= unit,
{
    let d = 2 * unit;
    let q = (2 * n + unit) / d;
    vstd::arithmetic::div_mod::lemma_fundamental_div_mod(2 * n + unit, d);
    assert(0 <= q <= 255) by (nonlinear_arith)
        requires
            2 * n + unit == d * q + (2 * n + unit) % d,
            0 <= (2 * n + unit) % d < d,
            0 <= 2 * n + unit < 256 * d,
            d > 0,
    ;
    assert(d * q == 2 * unit * q) by (nonlinear_arith)
        requires
            d == 2 * unit,
    ;
}

/// The brightness of a colour before any rounding, less 16.
spec fn luma_of(r: int, g: int, b: int) -> int {
    137868448 * r + 270636640 * g + 52559664 * b
}

/// A colour difference of a colour before any rounding, less 128.
spec fn difference_of(r: int, g: int, b: int, c: int) -> int {
    if c == 0 {
        235793712 * b - 79564272 * r - 156229440 * g
    } else {
        235793712 * r - 197461120 * g - 38332584 * b
    }
}

proof fn lemma_luma8(r: u8, g: u8, b: u8)
    ensures
        -(ONE + 0xC_0000) <= 0x4000_0000 * (luma8(r, g, b) - 16) - 2 * luma_of(r as int, g as int, b as int) <= ONE + 0xC_0000,
{
    assert(r * RED_TO_Y == 137868448 * r) by (nonlinear_arith);
    assert(g * GREEN_TO_Y == 270636640 * g) by (nonlinear_arith);
    assert(b * BLUE_TO_Y == 52559664 * b) by (nonlinear_arith);
    lemma_single_close(r * RED_TO_Y);
    lemma_single_close(g * GREEN_TO_Y);
    lemma_single_close(b * BLUE_TO_Y);
    let n1 = 16 * ONE + single(r * RED_TO_Y);
    lemma_single_close(n1);
    let n2 = single(n1) + single(g * GREEN_TO_Y);
    lemma_single_close(n2);
    let n3 = single(n2) + single(b * BLUE_TO_Y);
    lemma_single_close(n3);
    lemma_near8(single(n3), ONE as int);
}

proof fn lemma_part(rgb: Seq<u8>, p: int, c: int)
    requires
        0 <= c <= 1,
    ensures
        -0x5_0000 <= part(rgb, p, c) - difference_of(
            rgb[3 * p] as int,
            rgb[3 * p + 1] as int,
            rgb[3 * p + 2] as int,
            c,
        ) <= 0x5_0000,
        -120 * ONE <= part(rgb, p, c) <= 120 * ONE,
{
    let (r, g, b) = (rgb[3 * p], rgb[3 * p + 1], rgb[3 * p + 2]);
    if c == 0 {
        assert(r * -RED_TO_U == -79564272 * r) by (nonlinear_arith);
        assert(g * GREEN_TO_U == 156229440 * g) by (nonlinear_arith);
        assert(b * BLUE_TO_U == 235793712 * b) by (nonlinear_arith);
        lemma_single_close(r * -RED_TO_U);
        lemma_single_close(g * GREEN_TO_U);
        lemma_single_close(b * BLUE_TO_U);
        let n = single(r * -RED_TO_U) - single(g * GREEN_TO_U);
        lemma_single_close(n);
        lemma_single_close(single(n) + single(b * BLUE_TO_U));
    } else {
        assert(r * RED_TO_V == 235793712 * r) by (nonlinear_arith);
        assert(g * GREEN_TO_V == 197461120 * g) by (nonlinear_arith);
        assert(b * BLUE_TO_V == 38332584 * b) by (nonlinear_arith);
        lemma_single_close(r * RED_TO_V);
        lemma_single_close(g * GREEN_TO_V);
        lemma_single_close(b * BLUE_TO_V);
        let n = single(r * RED_TO_V) - single(g * GREEN_TO_V);
        lemma_single_close(n);
        lemma_single_close(single(n) - single(b * BLUE_TO_V));
    }
}

/// Whether the colours of pixel `p` of a picture differ from `r`, `g` and `b` by no more than `m`.
pub open spec fn alike(rgb: Seq<u8>, p: int, r: u8, g: u8, b: u8, m: int) -> bool {
    &&& r - m <= rgb[3 * p] <= r + m
    &&& g - m <= rgb[3 * p + 1] <= g + m
    &&& b - m <= rgb[3 * p + 2] <= b + m
}

/// The sum of colour `c` of the two by two pixels whose upper left one is (`x`, `y`).
pub open spec fn block_sum(rgb: Seq<u8>, w: int, x: int, y: int, c: int) -> int {
    rgb[3 * (y * w + x) + c] + rgb[3 * (y * w + x + 1) + c] + rgb[3 * ((y + 1) * w + x) + c] + rgb[3 * ((y + 1) * w + x + 1)
        + c]
}

/// Whether the means of the colours of the two by two pixels whose upper left one is (`x`, `y`) differ from `r`, `g` and `b` by
/// no more than a fourth of `er`, `eg` and `eb`.
pub open spec fn mean_near(rgb: Seq<u8>, w: int, x: int, y: int, r: u8, g: u8, b: u8, er: int, eg: int, eb: int) -> bool {
    &&& -er <= block_sum(rgb, w, x, y, 0) - 4 * r <= er
    &&& -eg <= block_sum(rgb, w, x, y, 1) - 4 * g <= eg
    &&& -eb <= block_sum(rgb, w, x, y, 2) - 4 * b <= eb
}

/// What the colours of a block do to its colour differences.
spec fn spread(c: int, er: int, eg: int, eb: int) -> int {
    if c == 0 {
        79564272 * er + 156229440 * eg + 235793712 * eb
    } else {
        235793712 * er + 197461120 * eg + 38332584 * eb
    }
}

proof fn lemma_difference8(
    rgb: Seq<u8>,
    w: int,
    x: int,
    y: int,
    c: int,
    r: u8,
    g: u8,
    b: u8,
    er: int,
    eg: int,
    eb: int,
)
    requires
        0 <= c <= 1,
        mean_near(rgb, w, x, y, r, g, b, er, eg, eb),
    ensures
        ({
            let d = 0x1_0000_0000 * (difference8(rgb, w, x, y, c) - 128) - 8 * difference_of(r as int, g as int, b as int, c);
            let most = 4 * ONE + 0x32_0000 + 2 * spread(c, er, eg, eb);
            -most <= d <= most
        }),
{
    let d = difference_of(r as int, g as int, b as int, c);
    let (i1, i2, i3, i4) = (y * w + x, y * w + x + 1, (y + 1) * w + x, (y + 1) * w + x + 1);
    lemma_part(rgb, i1, c);
    lemma_part(rgb, i2, c);
    lemma_part(rgb, i3, c);
    lemma_part(rgb, i4, c);
    let (p1, p2, p3, p4) = (part(rgb, i1, c), part(rgb, i2, c), part(rgb, i3, c), part(rgb, i4, c));
    let total = p1 + p2 + p3 + p4 - 4 * d;
    let most = 0x14_0000 + spread(c, er, eg, eb);
    lemma_spread(
        rgb[3 * i1] as int,
        rgb[3 * i1 + 1] as int,
        rgb[3 * i1 + 2] as int,
        rgb[3 * i2] as int,
        rgb[3 * i2 + 1] as int,
        rgb[3 * i2 + 2] as int,
        rgb[3 * i3] as int,
        rgb[3 * i3 + 1] as int,
        rgb[3 * i3 + 2] as int,
        rgb[3 * i4] as int,
        rgb[3 * i4 + 1] as int,
        rgb[3 * i4 + 2] as int,
        c,
    );
    lemma_apart(
        block_sum(rgb, w, x, y, 0) - 4 * r,
        block_sum(rgb, w, x, y, 1) - 4 * g,
        block_sum(rgb, w, x, y, 2) - 4 * b,
        c,
        er,
        eg,
        eb,
    );
    assert(-most <= total <= most);
    lemma_mean8(p1, p2, p3, p4, d, most);
}

/// The colour difference of a sum of colours is the sum of their colour differences.
proof fn lemma_spread(
    r1: int,
    g1: int,
    b1: int,
    r2: int,
    g2: int,
    b2: int,
    r3: int,
    g3: int,
    b3: int,
    r4: int,
    g4: int,
    b4: int,
    c: int,
)
    ensures
        difference_of(r1, g1, b1, c) + difference_of(r2, g2, b2, c) + difference_of(r3, g3, b3, c) + difference_of(r4, g4, b4, c)
            == difference_of(r1 + r2 + r3 + r4, g1 + g2 + g3 + g4, b1 + b2 + b3 + b4, c),
{
}

proof fn lemma_apart(r: int, g: int, b: int, c: int, er: int, eg: int, eb: int)
    requires
        -er <= r <= er,
        -eg <= g <= eg,
        -eb <= b <= eb,
        0 <= c <= 1,
    ensures
        -spread(c, er, eg, eb) <= difference_of(r, g, b, c) <= spread(c, er, eg, eb),
{
}

proof fn lemma_mean8(p1: int, p2: int, p3: int, p4: int, d: int, most: int)
    requires
        -120 * ONE <= p1 <= 120 * ONE,
        -120 * ONE <= p2 <= 120 * ONE,
        -120 * ONE <= p3 <= 120 * ONE,
        -120 * ONE <= p4 <= 120 * ONE,
        -most <= p1 + p2 + p3 + p4 - 4 * d <= most,
    ensures
        ({
            let e = single(single(single(single(0 + p1) + p2) + p3) + p4);
            let v = near8(single(4 * 128 * ONE + e), 4 * ONE as int);
            let all = 4 * ONE + 0xA_0000 + 2 * most;
            -all <= 0x1_0000_0000 * (v - 128) - 8 * d <= all
        }),
{
    let n1 = 0 + p1;
    lemma_single_close(n1);
    let n2 = single(n1) + p2;
    lemma_single_close(n2);
    let n3 = single(n2) + p3;
    lemma_single_close(n3);
    let n4 = single(n3) + p4;
    lemma_single_close(n4);
    let n5 = 4 * 128 * ONE + single(n4);
    lemma_single_close(n5);
    lemma_near8(single(n5), 4 * ONE as int);
}

/// A byte that comes of a number near `v`.
proof fn lemma_whole8(n: int, v: u8, most: int)
    requires
        -most <= n - v * ONE <= most,
    ensures
        -(most + ONE) < (whole8(n) - v) * ONE <= most,
{
    let q = n / ONE as int;
    vstd::arithmetic::div_mod::lemma_fundamental_div_mod(n, ONE as int);
}


/// By how many thousandths a colour may move there and back, if the sums of the colours of its block differ from four times
/// its own by no more than `er`, `eg` and `eb`.
pub open spec fn drift(c: int, er: int, eg: int, eb: int) -> int {
    if c == 0 {
        2500 + 176 * er + 147 * eg + 29 * eb
    } else if c == 1 {
        2300 + 104 * er + 104 * eg + 58 * eb
    } else {
        2700 + 75 * er + 147 * eg + 222 * eb
    }
}

proof fn lemma_red(y: u8, v: u8, r: u8, g: u8, b: u8, er: int, eg: int, eb: int)
    requires
        0 <= er,
        0 <= eg,
        0 <= eb,
        -(ONE + 0xC_0000) <= 0x4000_0000 * (y - 16) - 2 * luma_of(r as int, g as int, b as int) <= ONE + 0xC_0000,
        ({
            let d = 0x1_0000_0000 * (v - 128) - 8 * difference_of(r as int, g as int, b as int, 1);
            let most = 4 * ONE + 0x32_0000 + 2 * spread(1, er, eg, eb);
            -most <= d <= most
        }),
    ensures
        -drift(0, er, eg, eb) < 1000 * (red(y, v) - r) < drift(0, er, eg, eb),
{
    let (i, j) = (y - 16, v - 128);
    assert(i * Y_GAIN == 625132480 * i) by (nonlinear_arith);
    lemma_single_close(i * Y_GAIN);
    assert(j * V_TO_RED == 856845952 * j) by (nonlinear_arith);
    lemma_single_close(j * V_TO_RED);
    let n1 = bright(y) + single(j * V_TO_RED);
    lemma_single_close(n1);
    let most = 805305000 + 94489120 * er + 78919890 * eg + 15569230 * eb;
    assert(-most <= single(n1) - r * 0x2000_0000 <= most);
    lemma_whole8(single(n1), r, most);
}

proof fn lemma_blue(y: u8, u: u8, r: u8, g: u8, b: u8, er: int, eg: int, eb: int)
    requires
        0 <= er,
        0 <= eg,
        0 <= eb,
        -(ONE + 0xC_0000) <= 0x4000_0000 * (y - 16) - 2 * luma_of(r as int, g as int, b as int) <= ONE + 0xC_0000,
        ({
            let d = 0x1_0000_0000 * (u - 128) - 8 * difference_of(r as int, g as int, b as int, 0);
            let most = 4 * ONE + 0x32_0000 + 2 * spread(0, er, eg, eb);
            -most <= d <= most
        }),
    ensures
        -drift(2, er, eg, eb) < 1000 * (blue(y, u) - b) < drift(2, er, eg, eb),
{
    let (i, j) = (y - 16, u - 128);
    assert(i * Y_GAIN == 625132480 * i) by (nonlinear_arith);
    lemma_single_close(i * Y_GAIN);
    assert(j * U_TO_BLUE == 1082976000 * j) by (nonlinear_arith);
    lemma_single_close(j * U_TO_BLUE);
    let n1 = bright(y) + single(j * U_TO_BLUE);
    lemma_single_close(n1);
    let most = 912679000 + 40265250 * er + 78919890 * eg + 119185140 * eb;
    assert(-most <= single(n1) - b * 0x2000_0000 <= most);
    lemma_whole8(single(n1), b, most);
}

proof fn lemma_green(y: u8, u: u8, v: u8, r: u8, g: u8, b: u8, er: int, eg: int, eb: int)
    requires
        0 <= er,
        0 <= eg,
        0 <= eb,
        -(ONE + 0xC_0000) <= 0x4000_0000 * (y - 16) - 2 * luma_of(r as int, g as int, b as int) <= ONE + 0xC_0000,
        ({
            let d = 0x1_0000_0000 * (u - 128) - 8 * difference_of(r as int, g as int, b as int, 0);
            let most = 4 * ONE + 0x32_0000 + 2 * spread(0, er, eg, eb);
            -most <= d <= most
        }),
        ({
            let d = 0x1_0000_0000 * (v - 128) - 8 * difference_of(r as int, g as int, b as int, 1);
            let most = 4 * ONE + 0x32_0000 + 2 * spread(1, er, eg, eb);
            -most <= d <= most
        }),
    ensures
        -drift(1, er, eg, eb) < 1000 * (green(y, u, v) - g) < drift(1, er, eg, eb),
{
    let (i, j, k) = (y - 16, u - 128, v - 128);
    assert(i * Y_GAIN == 625132480 * i) by (nonlinear_arith);
    lemma_single_close(i * Y_GAIN);
    assert(j * U_TO_GREEN == 210292336 * j) by (nonlinear_arith);
    lemma_single_close(j * U_TO_GREEN);
    assert(k * V_TO_GREEN == 436476064 * k) by (nonlinear_arith);
    lemma_single_close(k * V_TO_GREEN);
    let n1 = bright(y) - single(j * U_TO_GREEN);
    lemma_single_close(n1);
    let n2 = single(n1) - single(k * V_TO_GREEN);
    lemma_single_close(n2);
    let most = 697931000 + 55834480 * er + 55834480 * eg + 31138460 * eb;
    assert(-most <= single(n2) - g * 0x2000_0000 <= most);
    lemma_whole8(single(n2), g, most);
}

/// What a frame holds of pixel (`x`, `y`) of its picture.
proof fn lemma_frame_at(rgb: Seq<u8>, w: int, h: int, x: int, y: int)
    requires
        w % 2 == 0,
        h % 2 == 0,
        0 <= x < w,
        0 <= y < h,
    ensures
        ({
            let f = frame_of(rgb, w, h);
            let p = y * w + x;
            let k = w * h + (y / 2) * w + (x / 2) * 2;
            &&& f[p] == luma8(rgb[3 * p], rgb[3 * p + 1], rgb[3 * p + 2])
            &&& f[k] == difference8(rgb, w, 2 * (x / 2), 2 * (y / 2), 0)
            &&& f[k + 1] == difference8(rgb, w, 2 * (x / 2), 2 * (y / 2), 1)
        }),
{
    lemma_where(w, h, x, y);
    let j = (y / 2) * w + (x / 2) * 2;
    assert(frame_of(rgb, w, h)[w * h + j] == difference8(rgb, w, (j % w) - (j % w) % 2, 2 * (j / w), (j % w) % 2));
    let j1 = j + 1;
    assert(frame_of(rgb, w, h)[w * h + j1] == difference8(rgb, w, (j1 % w) - (j1 % w) % 2, 2 * (j1 / w), (j1 % w) % 2));
}

proof fn lemma_where(w: int, h: int, x: int, y: int)
    requires
        w % 2 == 0,
        h % 2 == 0,
        0 <= x < w,
        0 <= y < h,
    ensures
        ({
            let j = (y / 2) * w + (x / 2) * 2;
            &&& 0 <= y * w + x < w * h
            &&& 0 <= j
            &&& j + 1 < w * h / 2
            &&& j / w == y / 2
            &&& j % w == (x / 2) * 2
            &&& (j + 1) / w == y / 2
            &&& (j + 1) % w == (x / 2) * 2 + 1
        }),
{
    let (hh, i, x0) = (h / 2, y / 2, 2 * (x / 2));
    assert(w * h == 2 * (w * hh)) by (nonlinear_arith)
        requires
            h == 2 * hh,
    ;
    lemma_cell(w, h, x, y);
    lemma_cell(w, hh, x0, i);
    lemma_cell(w, hh, x0 + 1, i);
    assert(cell(w, x0 + 1, i) == cell(w, x0, i) + 1);
}

proof fn lemma_back(rgb: Seq<u8>, w: int, x: int, y: int, r: u8, g: u8, b: u8, er: int, eg: int, eb: int)
    requires
        mean_near(rgb, w, x, y, r, g, b, er, eg, eb),
    ensures
        ({
            let l = luma8(r, g, b);
            let (u, v) = (difference8(rgb, w, x, y, 0), difference8(rgb, w, x, y, 1));
            &&& -drift(0, er, eg, eb) < 1000 * (red(l, v) - r) < drift(0, er, eg, eb)
            &&& -drift(1, er, eg, eb) < 1000 * (green(l, u, v) - g) < drift(1, er, eg, eb)
            &&& -drift(2, er, eg, eb) < 1000 * (blue(l, u) - b) < drift(2, er, eg, eb)
        }),
{
    let l = luma8(r, g, b);
    let u = difference8(rgb, w, x, y, 0);
    let v = difference8(rgb, w, x, y, 1);
    lemma_luma8(r, g, b);
    lemma_difference8(rgb, w, x, y, 0, r, g, b, er, eg, eb);
    lemma_difference8(rgb, w, x, y, 1, r, g, b, er, eg, eb);
    lemma_red(l, v, r, g, b, er, eg, eb);
    lemma_green(l, u, v, r, g, b, er, eg, eb);
    lemma_blue(l, u, r, g, b, er, eg, eb);
}

/// A colour comes back almost as it was: how far it may move depends on how far the means of the colours of its two by two
/// pixels, which share their colour differences, lie from its own.
pub proof fn law_there_and_back(rgb: Seq<u8>, w: int, h: int, x: int, y: int, er: int, eg: int, eb: int, c: int)
    requires
        w % 2 == 0,
        h % 2 == 0,
        0 <= x < w,
        0 <= y < h,
        0 <= c <= 2,
        mean_near(
            rgb,
            w,
            2 * (x / 2),
            2 * (y / 2),
            rgb[3 * cell(w, x, y)],
            rgb[3 * cell(w, x, y) + 1],
            rgb[3 * cell(w, x, y) + 2],
            er,
            eg,
            eb,
        ),
    ensures
        -drift(c, er, eg, eb) < 1000 * (channel(frame_of(rgb, w, h), w, h, x, y, c) - rgb[3 * cell(w, x, y) + c]) < drift(
            c,
            er,
            eg,
            eb,
        ),
{
    let p = cell(w, x, y);
    lemma_frame_at(rgb, w, h, x, y);
    lemma_back(rgb, w, 2 * (x / 2), 2 * (y / 2), rgb[3 * p], rgb[3 * p + 1], rgb[3 * p + 2], er, eg, eb);
}

/// Where the four pixels that share a colour difference differ from a pixel by no more than `m`, each of its colours moves by
/// less than 2.8 and nine fifths of `m` there and back; by no more than 2, if they are alike.
pub proof fn law_alike_come_back(rgb: Seq<u8>, w: int, h: int, x: int, y: int, m: int, c: int)
    requires
        w % 2 == 0,
        h % 2 == 0,
        0 <= x < w,
        0 <= y < h,
        0 <= c <= 2,
        forall|a: int, b: int|
            x / 2 == a / 2 && y / 2 == b / 2 ==> alike(
                rgb,
                #[trigger] cell(w, a, b),
                rgb[3 * cell(w, x, y)],
                rgb[3 * cell(w, x, y) + 1],
                rgb[3 * cell(w, x, y) + 2],
                m,
            ),
    ensures
        -(14 + 9 * m) < 5 * (channel(frame_of(rgb, w, h), w, h, x, y, c) - rgb[3 * cell(w, x, y) + c]) < 14 + 9 * m,
{
    let p = cell(w, x, y);
    let (r, g, b) = (rgb[3 * p], rgb[3 * p + 1], rgb[3 * p + 2]);
    let (x0, y0) = (2 * (x / 2), 2 * (y / 2));
    assert(alike(rgb, cell(w, x0, y0), r, g, b, m));
    assert(alike(rgb, cell(w, x0 + 1, y0), r, g, b, m));
    assert(alike(rgb, cell(w, x0, y0 + 1), r, g, b, m));
    assert(alike(rgb, cell(w, x0 + 1, y0 + 1), r, g, b, m));
    assert(mean_near(rgb, w, x0, y0, r, g, b, 4 * m, 4 * m, 4 * m));
    law_there_and_back(rgb, w, h, x, y, 4 * m, 4 * m, 4 * m, c);
}

/// A picture whose red grows by 5 from column to column, its green by 5 from row to row, and its blue by 2 from either to
/// the next.
pub open spec fn gradient(w: int, h: int) -> Seq<u8> {
    Seq::new(
        (3 * (w * h)) as nat,
        |k: int|
            {
                let (x, y) = ((k / 3) % w, (k / 3) / w);
                if k % 3 == 0 {
                    (5 * x) as u8
                } else if k % 3 == 1 {
                    (5 * y) as u8
                } else {
                    (60 + 2 * (x + y)) as u8
                }
            },
    )
}

proof fn lemma_gradient(w: int, h: int, x: int, y: int)
    requires
        0 <= x < w <= 48,
        0 <= y < h <= 48,
    ensures
        gradient(w, h)[3 * (y * w + x)] == 5 * x,
        gradient(w, h)[3 * (y * w + x) + 1] == 5 * y,
        gradient(w, h)[3 * (y * w + x) + 2] == 60 + 2 * (x + y),
{
    lemma_cell(w, h, x, y);
    let p = cell(w, x, y);
    assert((3 * p) / 3 == p && (3 * p) % 3 == 0);
    assert((3 * p + 1) / 3 == p && (3 * p + 1) % 3 == 1);
    assert((3 * p + 2) / 3 == p && (3 * p + 2) % 3 == 2);
}

/// A gentle gradient comes back whole: its picture has four bytes for each pixel, the last of them 255, and no colour has
/// moved by more than 6.
pub proof fn law_gradient_comes_back(w: int, h: int, x: int, y: int, c: int)
    requires
        w % 2 == 0,
        h % 2 == 0,
        0 <= x < w <= 48,
        0 <= y < h <= 48,
        0 <= c <= 2,
    ensures
        ({
            let back = full_picture(frame_of(gradient(w, h), w, h), w, h);
            &&& back.len() == 4 * (w * h)
            &&& back[4 * cell(w, x, y) + 3] == 255
            &&& -6 <= back[4 * cell(w, x, y) + c] - gradient(w, h)[3 * cell(w, x, y) + c] <= 6
        }),
{
    let rgb = gradient(w, h);
    let (x0, y0) = (2 * (x / 2), 2 * (y / 2));
    lemma_gradient(w, h, x, y);
    lemma_gradient(w, h, x0, y0);
    lemma_gradient(w, h, x0 + 1, y0);
    lemma_gradient(w, h, x0, y0 + 1);
    lemma_gradient(w, h, x0 + 1, y0 + 1);
    let p = cell(w, x, y);
    assert(y0 * w + (x0 + 1) == y0 * w + x0 + 1);
    assert((y0 + 1) * w + (x0 + 1) == (y0 + 1) * w + x0 + 1);
    assert(mean_near(rgb, w, x0, y0, rgb[3 * p], rgb[3 * p + 1], rgb[3 * p + 2], 10, 10, 8));
    law_there_and_back(rgb, w, h, x, y, 10, 10, 8, c);
    lemma_cell(w, h, x, y);
    assert((4 * p + c) / 4 == p && (4 * p + c) % 4 == c);
    assert((4 * p + 3) / 4 == p && (4 * p + 3) % 4 == 3);
}

/// Each pixel of a scaled picture is the pixel of the whole picture that lies under it.
pub proof fn law_scaled_picks(f: Seq<u8>, w: int, h: int, dw: int, dh: int, x: int, y: int, c: int)
    requires
        0 < w,
        0 < h,
        0 <= x < dw,
        0 <= y < dh,
        0 <= c <= 3,
    ensures
        picture(f, w, h, dw, dh).len() == dw * dh * 4,
        picture(f, w, h, dw, dh)[4 * cell(dw, x, y) + c] == full_picture(f, w, h)[4 * cell(w, x * w / dw, y * h / dh) + c],
{
    lemma_cell(dw, dh, x, y);
    lemma_scaled(x, w, dw);
    lemma_scaled(y, h, dh);
    let (a, b) = (x * w / dw, y * h / dh);
    lemma_cell(w, h, a, b);
    let (k, l) = (4 * cell(dw, x, y) + c, 4 * cell(w, a, b) + c);
    assert(k / 4 == cell(dw, x, y) && k % 4 == c);
    assert(l / 4 == cell(w, a, b) && l % 4 == c);
    assert(0 <= k < dw * dh * 4);
    assert(0 <= l < w * h * 4);
}

/// The brightness of a colour: 16 and 0.2568 of the red, 0.5041 of the green and 0.0979 of the blue, rounded to the nearest.
pub proof fn law_luma(r: u8, g: u8, b: u8)
    ensures
        -5010 <= 10000 * (luma8(r, g, b) - 16) - (2568 * r + 5041 * g + 979 * b) <= 5010,
{
    lemma_luma8(r, g, b);
}

/// The colour differences of two by two pixels: 128, and of the means of their colours 0.4392 of the blue less 0.1482 of the red and 0.2910
/// of the green, for the first; 0.4392 of the red less 0.3678 of the green and 0.0714 of the blue, for the second; rounded to the nearest.
pub proof fn law_difference(rgb: Seq<u8>, w: int, x: int, y: int)
    ensures
        ({
            let (r, g, b) = (block_sum(rgb, w, x, y, 0), block_sum(rgb, w, x, y, 1), block_sum(rgb, w, x, y, 2));
            &&& -20100 <= 40000 * (difference8(rgb, w, x, y, 0) - 128) - (4392 * b - 1482 * r - 2910 * g) <= 20100
            &&& -20100 <= 40000 * (difference8(rgb, w, x, y, 1) - 128) - (4392 * r - 3678 * g - 714 * b) <= 20100
        }),
{
    lemma_difference_near(rgb, w, x, y, 0);
    lemma_difference_near(rgb, w, x, y, 1);
    let (r, g, b) = (block_sum(rgb, w, x, y, 0), block_sum(rgb, w, x, y, 1), block_sum(rgb, w, x, y, 2));
    assert(0 <= r <= 1020 && 0 <= g <= 1020 && 0 <= b <= 1020);
    lemma_to_decimal(difference8(rgb, w, x, y, 0) as int, r, g, b, 0);
    lemma_to_decimal(difference8(rgb, w, x, y, 1) as int, r, g, b, 1);
}

proof fn lemma_to_decimal(v: int, r: int, g: int, b: int, c: int)
    requires
        0 <= c <= 1,
        0 <= r <= 1020,
        0 <= g <= 1020,
        0 <= b <= 1020,
        -0x8034_0000 <= 0x1_0000_0000 * (v - 128) - 2 * difference_of(r, g, b, c) <= 0x8034_0000,
    ensures
        c == 0 ==> -20100 <= 40000 * (v - 128) - (4392 * b - 1482 * r - 2910 * g) <= 20100,
        c == 1 ==> -20100 <= 40000 * (v - 128) - (4392 * r - 3678 * g - 714 * b) <= 20100,
{
}

proof fn lemma_difference_near(rgb: Seq<u8>, w: int, x: int, y: int, c: int)
    requires
        0 <= c <= 1,
    ensures
        ({
            let (r, g, b) = (block_sum(rgb, w, x, y, 0), block_sum(rgb, w, x, y, 1), block_sum(rgb, w, x, y, 2));
            -0x8034_0000 <= 0x1_0000_0000 * (difference8(rgb, w, x, y, c) - 128) - 2 * difference_of(r, g, b, c) <= 0x8034_0000
        }),
{
    let (i1, i2, i3, i4) = (y * w + x, y * w + x + 1, (y + 1) * w + x, (y + 1) * w + x + 1);
    lemma_part(rgb, i1, c);
    lemma_part(rgb, i2, c);
    lemma_part(rgb, i3, c);
    lemma_part(rgb, i4, c);
    let (p1, p2, p3, p4) = (part(rgb, i1, c), part(rgb, i2, c), part(rgb, i3, c), part(rgb, i4, c));
    let (r, g, b) = (block_sum(rgb, w, x, y, 0), block_sum(rgb, w, x, y, 1), block_sum(rgb, w, x, y, 2));
    let all = difference_of(r, g, b, c);
    let d = all / 4;
    lemma_spread(
        rgb[3 * i1] as int,
        rgb[3 * i1 + 1] as int,
        rgb[3 * i1 + 2] as int,
        rgb[3 * i2] as int,
        rgb[3 * i2 + 1] as int,
        rgb[3 * i2 + 2] as int,
        rgb[3 * i3] as int,
        rgb[3 * i3 + 1] as int,
        rgb[3 * i3 + 2] as int,
        rgb[3 * i4] as int,
        rgb[3 * i4 + 1] as int,
        rgb[3 * i4 + 2] as int,
        c,
    );
    assert(4 * d <= all < 4 * d + 4);
    lemma_mean8(p1, p2, p3, p4, d, 0x14_0004);
}

proof fn lemma_whole8_near(n: int, t: int)
    requires
        -0x5_0000 <= n - t <= 0x5_0000,
    ensures
        t < -0x5_0000 ==> whole8(n) == 0,
        t >= 0x20_0005_0000 ==> whole8(n) == 255,
        0x5_0000 <= t < 0x1F_FFFB_0000 ==> -(0x2005_0000) < 0x2000_0000 * whole8(n) - t <= 0x5_0000,
{
    vstd::arithmetic::div_mod::lemma_fundamental_div_mod(n, ONE as int);
}

/// The colours of a pixel from its brightness and colour differences: red is 1.1644 of the brightness beyond 16 and 1.5960 of the second
/// difference; green is as much less 0.3917 of the first and 0.8130 of the second; blue is as much and 2.0172 of the first; each rounded
/// down and held between 0 and 255.
pub proof fn law_colours(y: u8, u: u8, v: u8)
    ensures
        ({
            let t = 11644 * (y - 16) + 15960 * (v - 128);
            &&& t < -30 ==> red(y, v) == 0
            &&& t >= 2560030 ==> red(y, v) == 255
            &&& 30 <= t < 2559970 ==> -10030 < 10000 * red(y, v) - t < 30
        }),
        ({
            let t = 11644 * (y - 16) - 3917 * (u - 128) - 8130 * (v - 128);
            &&& t < -30 ==> green(y, u, v) == 0
            &&& t >= 2560030 ==> green(y, u, v) == 255
            &&& 30 <= t < 2559970 ==> -10030 < 10000 * green(y, u, v) - t < 30
        }),
        ({
            let t = 11644 * (y - 16) + 20172 * (u - 128);
            &&& t < -30 ==> blue(y, u) == 0
            &&& t >= 2560030 ==> blue(y, u) == 255
            &&& 30 <= t < 2559970 ==> -10030 < 10000 * blue(y, u) - t < 30
        }),
{
    lemma_red_near(y, v);
    lemma_green_near(y, u, v);
    lemma_blue_near(y, u);
}

proof fn lemma_red_near(y: u8, v: u8)
    ensures
        ({
            let t = 11644 * (y - 16) + 15960 * (v - 128);
            &&& t < -30 ==> red(y, v) == 0
            &&& t >= 2560030 ==> red(y, v) == 255
            &&& 30 <= t < 2559970 ==> -10030 < 10000 * red(y, v) - t < 30
        }),
{
    let (i, j) = (y - 16, v - 128);
    assert(i * Y_GAIN == 625132480 * i) by (nonlinear_arith);
    lemma_single_close(i * Y_GAIN);
    assert(j * V_TO_RED == 856845952 * j) by (nonlinear_arith);
    lemma_single_close(j * V_TO_RED);
    let n = bright(y) + single(j * V_TO_RED);
    lemma_single_close(n);
    lemma_whole8_near(single(n), 625132480 * i + 856845952 * j);
}

proof fn lemma_blue_near(y: u8, u: u8)
    ensures
        ({
            let t = 11644 * (y - 16) + 20172 * (u - 128);
            &&& t < -30 ==> blue(y, u) == 0
            &&& t >= 2560030 ==> blue(y, u) == 255
            &&& 30 <= t < 2559970 ==> -10030 < 10000 * blue(y, u) - t < 30
        }),
{
    let (i, j) = (y - 16, u - 128);
    assert(i * Y_GAIN == 625132480 * i) by (nonlinear_arith);
    lemma_single_close(i * Y_GAIN);
    assert(j * U_TO_BLUE == 1082976000 * j) by (nonlinear_arith);
    lemma_single_close(j * U_TO_BLUE);
    let n = bright(y) + single(j * U_TO_BLUE);
    lemma_single_close(n);
    lemma_whole8_near(single(n), 625132480 * i + 1082976000 * j);
}

proof fn lemma_green_near(y: u8, u: u8, v: u8)
    ensures
        ({
            let t = 11644 * (y - 16) - 3917 * (u - 128) - 8130 * (v - 128);
            &&& t < -30 ==> green(y, u, v) == 0
            &&& t >= 2560030 ==> green(y, u, v) == 255
            &&& 30 <= t < 2559970 ==> -10030 < 10000 * green(y, u, v) - t < 30
        }),
{
    let (i, j, k) = (y - 16, u - 128, v - 128);
    assert(i * Y_GAIN == 625132480 * i) by (nonlinear_arith);
    lemma_single_close(i * Y_GAIN);
    assert(j * U_TO_GREEN == 210292336 * j) by (nonlinear_arith);
    lemma_single_close(j * U_TO_GREEN);
    assert(k * V_TO_GREEN == 436476064 * k) by (nonlinear_arith);
    lemma_single_close(k * V_TO_GREEN);
    let n1 = bright(y) - single(j * U_TO_GREEN);
    lemma_single_close(n1);
    let n2 = single(n1) - single(k * V_TO_GREEN);
    lemma_single_close(n2);
    lemma_whole8_near(single(n2), 625132480 * i - 210292336 * j - 436476064 * k);
}

/// What a frame holds of a picture: the brightness of each pixel at its place; behind all of these, for every two by two pixels, the first
/// colour difference and then the second, row by row.
pub proof fn law_frame(rgb: Seq<u8>, w: int, h: int, x: int, y: int)
    requires
        w % 2 == 0,
        h % 2 == 0,
        0 <= x < w,
        0 <= y < h,
    ensures
        ({
            let f = frame_of(rgb, w, h);
            let p = y * w + x;
            let k = w * h + (y / 2) * w + 2 * (x / 2);
            &&& f.len() == w * h + w * h / 2
            &&& f[p] == luma8(rgb[3 * p], rgb[3 * p + 1], rgb[3 * p + 2])
            &&& f[k] == difference8(rgb, w, 2 * (x / 2), 2 * (y / 2), 0)
            &&& f[k + 1] == difference8(rgb, w, 2 * (x / 2), 2 * (y / 2), 1)
        }),
{
    lemma_frame_at(rgb, w, h, x, y);
    lemma_where(w, h, x, y);
}

/// A pixel of the picture of a frame: red, green and blue from the brightness at its place and the two colour differences of its two by two
/// pixels, and 255.
pub proof fn law_picture(f: Seq<u8>, w: int, h: int, x: int, y: int)
    requires
        0 <= x < w,
        0 <= y < h,
    ensures
        ({
            let p = full_picture(f, w, h);
            let k = 4 * (y * w + x);
            let (l, u, v) = (f[y * w + x], f[w * h + (y / 2) * w + 2 * (x / 2)], f[w * h + (y / 2) * w + 2 * (x / 2) + 1]);
            &&& p.len() == 4 * (w * h)
            &&& p[k] == red(l, v)
            &&& p[k + 1] == green(l, u, v)
            &&& p[k + 2] == blue(l, u)
            &&& p[k + 3] == 255
        }),
{
    lemma_cell(w, h, x, y);
    let c = cell(w, x, y);
    assert((4 * c) / 4 == c && (4 * c) % 4 == 0);
    assert((4 * c + 1) / 4 == c && (4 * c + 1) % 4 == 1);
    assert((4 * c + 2) / 4 == c && (4 * c + 2) % 4 == 2);
    assert((4 * c + 3) / 4 == c && (4 * c + 3) % 4 == 3);
}

} // verus!
