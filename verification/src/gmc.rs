//! The motion of the camera: a small picture of each frame, and where two of them match best.
use vstd::prelude::*;

verus! {

/// The edge of the small picture.
pub const GMC_SIZE: usize = 128;

/// The brightness of a `w` by `h` frame in 128 by 128 places.
pub open spec fn small(f: Seq<u8>, w: int, h: int) -> Seq<u8> {
    Seq::new(128 * 128, |k: int| f[((k / 128) * h / 128) * w + (k % 128) * w / 128])
}

proof fn lemma_place(p: int, n: int)
    requires
        0 <= p < 128,
        0 < n,
    ensures
        0 <= p * n / 128 < n,
        0 <= p * n <= 128 * n,
{
    assert(0 <= p * n && p * n < 128 * n) by (nonlinear_arith)
        requires
            0 <= p < 128,
            0 < n,
    ;
}

/// The brightness of a frame in 128 by 128 places.
pub fn downsample(nv12: &[u8], w: usize, h: usize) -> (r: Vec<u8>)
    requires
        0 < w,
        0 < h,
        w * h <= nv12@.len(),
        128 * w <= usize::MAX,
        128 * h <= usize::MAX,
    ensures
        r@ == small(nv12@, w as int, h as int),
{
    assert(nv12.len() == nv12@.len());
    let mut r: Vec<u8> = Vec::new();
    let ghost want = small(nv12@, w as int, h as int);
    for k in 0..GMC_SIZE * GMC_SIZE
        invariant
            0 < w,
            0 < h,
            w * h <= nv12@.len() <= usize::MAX,
            128 * w <= usize::MAX,
            128 * h <= usize::MAX,
            want == small(nv12@, w as int, h as int),
            r@.len() == k,
            forall|j: int| 0 <= j < k ==> r@[j] == want[j],
    {
        let x: usize = k % GMC_SIZE;
        let y: usize = k / GMC_SIZE;
        proof {
            lemma_place(x as int, w as int);
            lemma_place(y as int, h as int);
            crate::grid::lemma_cell(w as int, h as int, x * w / 128 as int, y * h / 128 as int);
        }
        let at: usize = (y * h / GMC_SIZE) * w + x * w / GMC_SIZE;
        r.push(nv12[at]);
    }
    assert(r@ =~= want);
    r
}

/// The greatest of the first `n` keys, the last of equals.
pub open spec fn peak_upto(keys: Seq<u32>, n: int) -> int
    decreases n,
{
    if n <= 1 {
        0
    } else {
        let b = peak_upto(keys, n - 1);
        if keys[n - 1] >= keys[b] {
            n - 1
        } else {
            b
        }
    }
}

/// Where two pictures match best: the greatest of the keys, the last of equals.
pub fn peak(keys: &[u32]) -> (b: usize)
    requires
        keys@.len() > 0,
    ensures
        b == peak_upto(keys@, keys@.len() as int),
        b < keys@.len(),
        forall|i: int| 0 <= i < keys@.len() ==> #[trigger] keys@[i] <= keys@[b as int],
        forall|i: int| b < i < keys@.len() ==> #[trigger] keys@[i] < keys@[b as int],
{
    let mut b: usize = 0;
    let n: usize = keys.len();
    let mut c: usize = 1;
    while c < n
        invariant
            1 <= c <= n,
            n == keys@.len(),
            b < c,
            b == peak_upto(keys@, c as int),
            forall|i: int| 0 <= i < c ==> #[trigger] keys@[i] <= keys@[b as int],
            forall|i: int| b < i < c ==> #[trigger] keys@[i] < keys@[b as int],
        decreases n - c,
    {
        if keys[c] >= keys[b] {
            b = c;
        }
        c = c + 1;
    }
    b
}

/// The motion that a place in the table of matches stands for: more than half way round is motion the other way.
pub fn wrapped(v: usize) -> (r: i64)
    requires
        v < 128,
    ensures
        r == (if v > 64 {
            v - 128
        } else {
            v as int
        }),
{
    if v > GMC_SIZE / 2 {
        v as i64 - 128
    } else {
        v as i64
    }
}

/// The small picture of a frame: each of its places shows the pixel of the frame that lies under it.
pub proof fn law_small(f: Seq<u8>, w: int, h: int, x: int, y: int)
    requires
        0 <= x < 128,
        0 <= y < 128,
    ensures
        small(f, w, h).len() == 128 * 128,
        small(f, w, h)[y * 128 + x] == f[(y * h / 128) * w + x * w / 128],
{
    crate::grid::lemma_cell(128, 128, x, y);
}

/// The greatest of some keys: none is greater, and none behind it is as great.
pub proof fn law_peak(keys: Seq<u32>, n: int, i: int)
    requires
        0 < n <= keys.len(),
        0 <= i < n,
    ensures
        0 <= peak_upto(keys, n) < n,
        keys[i] <= keys[peak_upto(keys, n)],
        i > peak_upto(keys, n) ==> keys[i] < keys[peak_upto(keys, n)],
    decreases n,
{
    if n > 1 {
        law_peak(keys, n - 1, if i < n - 1 { i } else { 0 });
    }
}

} // verus!
