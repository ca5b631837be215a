//! Refined masks: choosing among the candidates of the model, and carrying them to the size of the frame.
use crate::decode::{below, is_below, is_number, order_key};
use crate::grid::lemma_offset;
use vstd::prelude::*;

verus! {

/// The edge of the square that the model takes in.
pub const SAM_SIZE: usize = 1024;

/// The edge of the masks that the model gives out.
pub const LOW_RES: usize = 256;

/// Whether the number with these bits is more than zero.
pub open spec fn positive(bits: u32) -> bool {
    0 < bits <= 0x7F80_0000
}

/// How many cells of a mask stand for `n` of the 1024 pixels that the model took in.
pub open spec fn cells(n: int) -> int {
    if n * 256 / 1024 < 1 {
        1
    } else {
        n * 256 / 1024
    }
}

/// A mask in the size of the frame: `sw` by `sh` is the size of the frame in the square that the model took in.
pub open spec fn enlarged(low: Seq<u32>, sw: int, sh: int, w: int, h: int) -> Seq<u8> {
    Seq::new(
        (w * h) as nat,
        |k: int|
            if positive(low[((k / w) * cells(sh) / h) * 256 + (k % w) * cells(sw) / w]) {
                1u8
            } else {
                0u8
            },
    )
}

proof fn lemma_cell_of(p: int, c: int, n: int)
    requires
        0 <= p < n,
        0 < c <= 256,
    ensures
        0 <= p * c / n < c,
        0 <= p * c <= n * 256,
{
    assert(0 <= p * c && p * c < n * c && n * c <= n * 256) by (nonlinear_arith)
        requires
            0 <= p < n,
            0 < c <= 256,
    ;
    assert(0 <= p * c / n < c) by (nonlinear_arith)
        requires
            0 <= p * c < n * c,
            0 < n,
    ;
}

/// Carries a mask to the size of the frame.
pub fn map_low_res_to_frame(low: &[u32], sw: usize, sh: usize, w: usize, h: usize) -> (out: Vec<u8>)
    requires
        low@.len() == 256 * 256,
        sw <= 1024,
        sh <= 1024,
        w * h <= usize::MAX,
        w * 256 <= usize::MAX,
        h * 256 <= usize::MAX,
    ensures
        out@ == enlarged(low@, sw as int, sh as int, w as int, h as int),
{
    let mut out: Vec<u8> = Vec::new();
    let cw: usize = if sw * LOW_RES / SAM_SIZE < 1 { 1 } else { sw * LOW_RES / SAM_SIZE };
    let ch: usize = if sh * LOW_RES / SAM_SIZE < 1 { 1 } else { sh * LOW_RES / SAM_SIZE };
    let ghost want = enlarged(low@, sw as int, sh as int, w as int, h as int);
    let total: usize = w * h;
    for k in 0..total
        invariant
            total == w * h,
            low@.len() == 256 * 256,
            w * 256 <= usize::MAX,
            h * 256 <= usize::MAX,
            cw == cells(sw as int),
            ch == cells(sh as int),
            1 <= cw <= 256,
            1 <= ch <= 256,
            want == enlarged(low@, sw as int, sh as int, w as int, h as int),
            out@.len() == k,
            forall|j: int| 0 <= j < k ==> out@[j] == want[j],
    {
        proof {
            assert(w > 0 && h > 0) by (nonlinear_arith)
                requires
                    0 <= k < w * h,
                    0 <= w,
                    0 <= h,
            ;
            lemma_offset(w as int, h as int, k as int);
            lemma_cell_of((k % w) as int, cw as int, w as int);
            lemma_cell_of((k / w) as int, ch as int, h as int);
        }
        let sx: usize = (k % w) * cw / w;
        let sy: usize = (k / w) * ch / h;
        let bits: u32 = low[sy * 256 + sx];
        out.push(if 0 < bits && bits <= 0x7F80_0000 { 1 } else { 0 });
    }
    assert(out@ =~= want);
    out
}

/// The best of the first `n` scores, the first of equals. A score that is no number beats none, and none beats it.
pub open spec fn best_upto(scores: Seq<u32>, n: int) -> int
    decreases n,
{
    if n <= 1 {
        0
    } else {
        let b = best_upto(scores, n - 1);
        if below(scores[b], scores[n - 1]) {
            n - 1
        } else {
            b
        }
    }
}

/// The best of several candidates, from the bits of their scores.
pub fn best_candidate(scores: &[u32]) -> (b: usize)
    requires
        scores@.len() > 0,
    ensures
        b == best_upto(scores@, scores@.len() as int),
        b < scores@.len(),
        is_number(scores@[0]) || b == 0,
        is_number(scores@[0]) ==> is_number(scores@[b as int]),
        forall|i: int|
            0 <= i < scores@.len() && is_number(scores@[0]) && is_number(#[trigger] scores@[i]) ==> order_key(scores@[i])
                <= order_key(scores@[b as int]),
{
    let mut b: usize = 0;
    let n: usize = scores.len();
    let mut c: usize = 1;
    while c < n
        invariant
            1 <= c <= n,
            n == scores@.len(),
            b < c,
            b == best_upto(scores@, c as int),
            is_number(scores@[0]) || b == 0,
            is_number(scores@[0]) ==> is_number(scores@[b as int]),
            forall|i: int|
                0 <= i < c && is_number(scores@[0]) && is_number(#[trigger] scores@[i]) ==> order_key(scores@[i])
                    <= order_key(scores@[b as int]),
        decreases n - c,
    {
        if is_below(scores[b], scores[c]) {
            b = c;
        }
        c = c + 1;
    }
    b
}

/// A refined mask in the size of the frame: a pixel is set if and only if the cell it lies in, of those that show the frame, is more than
/// zero. A cell stands for four of the pixels that the model took in, and there is at least one.
pub proof fn law_enlarged(low: Seq<u32>, sw: int, sh: int, w: int, h: int, x: int, y: int)
    requires
        0 <= x < w,
        0 <= y < h,
        0 <= sw,
        0 <= sh,
    ensures
        ({
            let cw = if sw < 4 { 1 } else { sw / 4 };
            let ch = if sh < 4 { 1 } else { sh / 4 };
            let v = low[(y * ch / h) * 256 + x * cw / w];
            &&& enlarged(low, sw, sh, w, h).len() == w * h
            &&& enlarged(low, sw, sh, w, h)[y * w + x] == (if 0 < v <= 0x7F80_0000 { 1u8 } else { 0u8 })
        }),
{
    crate::grid::lemma_cell(w, h, x, y);
    assert(sw * 256 / 1024 == sw / 4 && sh * 256 / 1024 == sh / 4);
}

/// The best candidate: no number is greater, and of those that are as great it is the first, if the first score is a number.
pub proof fn law_best_candidate(scores: Seq<u32>, n: int, i: int)
    requires
        0 < n <= scores.len(),
        0 <= i < n,
        is_number(scores[0]),
    ensures
        ({
            let b = best_upto(scores, n);
            &&& 0 <= b < n
            &&& is_number(scores[b])
            &&& !below(scores[b], scores[i])
            &&& i < b && is_number(scores[i]) ==> below(scores[i], scores[b])
        }),
    decreases n,
{
    if n > 1 {
        law_best_candidate(scores, n - 1, if i < n - 1 { i } else { 0 });
    }
}

} // verus!
