//! Run-length coding of masks.
//!
//! A mask is stored as the number of its runs, four bytes, and for each run its length, four bytes, and
//! its value, one byte. Numbers are little-endian.
use crate::bytes::{
    law_le_round_trip, le, le_at, lemma_le_len, lemma_pow256, push_le, read_le,
};
use vstd::prelude::*;

verus! {

/// A run: how often a value occurs in a row.
#[derive(Debug, Clone, Copy, PartialEq, Eq, Structural)]
pub struct Run {
    pub count: u32,
    pub value: u8,
}

/// The runs of a mask that goes on with `v`: the last run grows, or a new one begins.
pub open spec fn extended(runs: Seq<Run>, v: u8) -> Seq<Run> {
    if runs.len() > 0 && runs.last().value == v && runs.last().count < u32::MAX {
        runs.drop_last().push(Run { count: (runs.last().count + 1) as u32, value: v })
    } else {
        runs.push(Run { count: 1, value: v })
    }
}

/// The runs of a mask, first to last.
pub open spec fn runs_of(mask: Seq<u8>) -> Seq<Run>
    decreases mask.len(),
{
    if mask.len() == 0 {
        Seq::empty()
    } else {
        extended(runs_of(mask.drop_last()), mask.last())
    }
}

/// The mask with the given runs.
pub open spec fn expanded(runs: Seq<Run>) -> Seq<u8>
    decreases runs.len(),
{
    if runs.len() == 0 {
        Seq::empty()
    } else {
        expanded(runs.drop_last()) + Seq::new(runs.last().count as nat, |i: int| runs.last().value)
    }
}

/// The bytes of a list of runs.
pub open spec fn run_bytes(runs: Seq<Run>) -> Seq<u8>
    decreases runs.len(),
{
    if runs.len() == 0 {
        Seq::empty()
    } else {
        run_bytes(runs.drop_last()) + le(runs.last().count as nat, 4).push(runs.last().value)
    }
}

/// The bytes of a mask. The number of runs is stored modulo 2 to the power of 32.
pub open spec fn rle_bytes(mask: Seq<u8>) -> Seq<u8> {
    le((runs_of(mask).len() % 0x1_0000_0000) as nat, 4) + run_bytes(runs_of(mask))
}

/// How many runs the mask stored at `off` claims to have.
pub open spec fn run_count(s: Seq<u8>, off: int) -> int {
    le_at(s, off, 4) as int
}

/// The first `n` runs stored at `off`.
pub open spec fn runs_at(s: Seq<u8>, off: int, n: int) -> Seq<Run> {
    Seq::new(
        n as nat,
        |r: int|
            Run { count: le_at(s, off + 4 + 5 * r, 4) as u32, value: s[off + 4 + 5 * r + 4] },
    )
}

/// Whether `s` holds at `off` a mask of `expect` ones and zeros.
pub open spec fn holds_mask(s: Seq<u8>, off: int, expect: int) -> bool {
    let n = run_count(s, off);
    &&& off + 4 <= s.len()
    &&& off + 4 + 5 * n <= s.len()
    &&& forall|r: int| 0 <= r < n ==> (#[trigger] runs_at(s, off, n)[r]).value <= 1
    &&& expanded(runs_at(s, off, n)).len() == expect
}

/// Where the mask stored at `off` ends.
pub open spec fn mask_end(s: Seq<u8>, off: int) -> int {
    off + 4 + 5 * run_count(s, off)
}

/// The mask stored at `off`.
pub open spec fn mask_at(s: Seq<u8>, off: int) -> Seq<u8> {
    expanded(runs_at(s, off, run_count(s, off)))
}

proof fn lemma_runs_take(s: Seq<u8>, off: int, n: int, r: int)
    requires
        0 < r <= n,
    ensures
        runs_at(s, off, r).drop_last() == runs_at(s, off, r - 1),
        runs_at(s, off, r).last() == runs_at(s, off, n)[r - 1],
{
    assert(runs_at(s, off, r).drop_last() =~= runs_at(s, off, r - 1));
}

proof fn lemma_expanded_grows(s: Seq<u8>, off: int, n: int, r: int)
    requires
        0 <= r <= n,
    ensures
        expanded(runs_at(s, off, r)).len() <= expanded(runs_at(s, off, n)).len(),
    decreases n - r,
{
    if r < n {
        lemma_runs_take(s, off, n, n);
        lemma_expanded_grows(s, off, n - 1, r);
    }
}

/// The runs of a mask say what the mask is.
pub proof fn lemma_expanded_runs_of(mask: Seq<u8>)
    ensures
        expanded(runs_of(mask)) == mask,
        runs_of(mask).len() <= mask.len(),
        mask.len() > 0 ==> runs_of(mask).len() > 0 && runs_of(mask).last().count > 0,
    decreases mask.len(),
{
    if mask.len() > 0 {
        let m = mask.drop_last();
        let r = runs_of(m);
        let e = runs_of(mask);
        lemma_expanded_runs_of(m);
        if r.len() > 0 && r.last().value == mask.last() && r.last().count < u32::MAX {
            let base = expanded(r.drop_last());
            let c = r.last().count as nat;
            assert(e.drop_last() =~= r.drop_last());
            assert(e.last() == (Run { count: (c + 1) as u32, value: mask.last() }));
            assert(m == base + Seq::new(c, |i: int| r.last().value));
            assert(expanded(e) == base + Seq::new(c + 1, |i: int| e.last().value));
            assert forall|i: int| 0 <= i < mask.len() implies #[trigger] expanded(e)[i] == mask[i] by {
                if i < m.len() {
                    assert(mask[i] == m[i]);
                    assert(i >= base.len() ==> m[i] == r.last().value);
                }
            }
            assert(expanded(e) =~= mask);
        } else {
            assert(e.drop_last() =~= r);
            assert(expanded(e) =~= mask);
        }
    } else {
        assert(expanded(runs_of(mask)) =~= mask);
    }
}

proof fn lemma_run_bytes_len(runs: Seq<Run>)
    ensures
        run_bytes(runs).len() == 5 * runs.len(),
    decreases runs.len(),
{
    if runs.len() > 0 {
        lemma_run_bytes_len(runs.drop_last());
        lemma_le_len(runs.last().count as nat, 4);
    }
}

proof fn lemma_run_bytes_at(runs: Seq<Run>, r: int)
    requires
        0 <= r < runs.len(),
    ensures
        run_bytes(runs).subrange(5 * r, 5 * r + 4) == le(runs[r].count as nat, 4),
        run_bytes(runs)[5 * r + 4] == runs[r].value,
    decreases runs.len(),
{
    let m = runs.drop_last();
    lemma_run_bytes_len(m);
    lemma_run_bytes_len(runs);
    lemma_le_len(runs.last().count as nat, 4);
    if r < m.len() {
        lemma_run_bytes_at(m, r);
        assert(run_bytes(runs).subrange(5 * r, 5 * r + 4) =~= run_bytes(m).subrange(5 * r, 5 * r + 4));
    } else {
        assert(run_bytes(runs).subrange(5 * r, 5 * r + 4) =~= le(runs[r].count as nat, 4));
    }
}

proof fn lemma_runs_read(prefix: Seq<u8>, mask: Seq<u8>, suffix: Seq<u8>)
    requires
        runs_of(mask).len() < 0x1_0000_0000,
    ensures
        ({
            let s = prefix + rle_bytes(mask) + suffix;
            let off = prefix.len() as int;
            &&& off + 4 <= s.len()
            &&& run_count(s, off) == runs_of(mask).len()
            &&& off + 4 + 5 * run_count(s, off) <= s.len()
            &&& runs_at(s, off, run_count(s, off)) == runs_of(mask)
            &&& mask_end(s, off) == off + rle_bytes(mask).len()
            &&& rle_bytes(mask).len() == 4 + 5 * runs_of(mask).len()
        }),
{
    let s = prefix + rle_bytes(mask) + suffix;
    let off = prefix.len() as int;
    let runs = runs_of(mask);
    let n = runs.len();
    lemma_pow256();
    law_le_round_trip(n, 4);
    lemma_run_bytes_len(runs);
    assert(s.subrange(off, off + 4) =~= le(n, 4));
    assert forall|r: int| 0 <= r < n implies #[trigger] runs_at(s, off, n as int)[r] == runs[r] by {
        lemma_run_bytes_at(runs, r);
        law_le_round_trip(runs[r].count as nat, 4);
        assert(s.subrange(off + 4 + 5 * r, off + 4 + 5 * r + 4) =~= run_bytes(runs).subrange(5 * r, 5 * r + 4));
        assert(s[off + 4 + 5 * r + 4] == run_bytes(runs)[5 * r + 4]);
    }
    assert(runs_at(s, off, n as int) =~= runs);
}

/// What was stored is read back, wherever it stands among other bytes: every mask of fewer than 2 to
/// the power of 32 runs, and if it consists of ones and zeros it counts as such.
pub proof fn law_rle_round_trip(prefix: Seq<u8>, mask: Seq<u8>, suffix: Seq<u8>)
    requires
        runs_of(mask).len() < 0x1_0000_0000,
    ensures
        ({
            let s = prefix + rle_bytes(mask) + suffix;
            let off = prefix.len() as int;
            &&& mask_at(s, off) == mask
            &&& mask_end(s, off) == off + rle_bytes(mask).len()
            &&& (forall|i: int| 0 <= i < mask.len() ==> mask[i] <= 1) ==> holds_mask(s, off, mask.len() as int)
        }),
{
    lemma_runs_read(prefix, mask, suffix);
    lemma_expanded_runs_of(mask);
    if forall|i: int| 0 <= i < mask.len() ==> mask[i] <= 1 {
        lemma_runs_binary(mask);
    }
}

proof fn lemma_runs_binary(mask: Seq<u8>)
    requires
        forall|i: int| 0 <= i < mask.len() ==> mask[i] <= 1,
    ensures
        forall|r: int| 0 <= r < runs_of(mask).len() ==> (#[trigger] runs_of(mask)[r]).value <= 1,
    decreases mask.len(),
{
    if mask.len() > 0 {
        lemma_runs_binary(mask.drop_last());
        let before = runs_of(mask.drop_last());
        let after = runs_of(mask);
        assert(mask.last() <= 1);
        assert forall|r: int| 0 <= r < after.len() implies (#[trigger] after[r]).value <= 1 by {
            if r < before.len() && r < after.len() - 1 {
                assert(after[r] == before[r]);
            }
        }
    }
}

/// A mask of `n` pixels takes at most `4 + 5 * n` bytes, and has at most `n` runs.
pub proof fn law_rle_size(mask: Seq<u8>)
    ensures
        rle_bytes(mask).len() == 4 + 5 * runs_of(mask).len(),
        runs_of(mask).len() <= mask.len(),
{
    lemma_expanded_runs_of(mask);
    lemma_le_len((runs_of(mask).len() % 0x1_0000_0000) as nat, 4);
    lemma_run_bytes_len(runs_of(mask));
}

/// Appends the bytes of a mask.
pub fn rle_encode(mask: &[u8], out: &mut Vec<u8>)
    ensures
        final(out)@ == old(out)@ + rle_bytes(mask@),
{
    let ghost m = mask@;
    let mut runs: Vec<Run> = Vec::new();
    assert(m.take(0) =~= Seq::<u8>::empty());
    for i in 0..mask.len()
        invariant
            m == mask@,
            runs@ == runs_of(m.take(i as int)),
    {
        let v: u8 = mask[i];
        proof {
            assert(m.take(i + 1).drop_last() =~= m.take(i as int));
        }
        let k: usize = runs.len();
        if k > 0 && runs[k - 1].value == v && runs[k - 1].count < u32::MAX {
            let c: u32 = runs[k - 1].count + 1;
            runs.set(k - 1, Run { count: c, value: v });
            assert(runs@ =~= extended(runs_of(m.take(i as int)), v));
        } else {
            runs.push(Run { count: 1, value: v });
        }
    }
    assert(m.take(m.len() as int) =~= m);
    let ghost before = out@;
    let n: u64 = runs.len() as u64 % 0x1_0000_0000;
    push_le(out, n, 4);
    let ghost head = out@;
    assert(runs@.take(0) =~= Seq::<Run>::empty());
    assert(out@ =~= head + run_bytes(runs@.take(0)));
    for i in 0..runs.len()
        invariant
            out@ == head + run_bytes(runs@.take(i as int)),
    {
        proof {
            assert(runs@.take(i + 1).drop_last() =~= runs@.take(i as int));
        }
        let ghost at = out@;
        push_le(out, runs[i].count as u64, 4);
        out.push(runs[i].value);
        assert(out@ =~= head + run_bytes(runs@.take(i + 1)));
    }
    assert(runs@.take(runs@.len() as int) =~= runs@);
    assert(out@ =~= before + rle_bytes(m));
}

fn push_run(mask: &mut Vec<u8>, count: usize, value: u8)
    requires
        old(mask)@.len() + count <= usize::MAX,
    ensures
        final(mask)@ == old(mask)@ + Seq::new(count as nat, |i: int| value),
{
    let ghost m = mask@;
    let n: usize = mask.len() + count;
    mask.resize(n, value);
    proof {
        assert(mask@.len() == n);
        assert forall|i: int| 0 <= i < m.len() implies mask@[i] == m[i] by {
            if n > m.len() {
                assert(mask@.subrange(0, m.len() as int)[i] == m[i]);
            }
        }
        assert(mask@ =~= m + Seq::new(count as nat, |i: int| value));
    }
}

/// Reads the mask of `expect` ones and zeros that is stored at `off`, and moves `off` behind it. Where
/// there is none, `off` stays.
pub fn rle_decode(bytes: &[u8], off: &mut usize, expect: usize) -> (res: Option<Vec<u8>>)
    ensures
        res is Some <==> holds_mask(bytes@, *old(off) as int, expect as int),
        res is Some ==> res->0@ == mask_at(bytes@, *old(off) as int) && *final(off) == mask_end(
            bytes@,
            *old(off) as int,
        ),
        res is None ==> *final(off) == *old(off),
{
    let ghost s = bytes@;
    let start: usize = *off;
    assert(bytes.len() == s.len());
    if bytes.len() < 4 || start > bytes.len() - 4 {
        return None;
    }
    let n: u64 = read_le(bytes, start, 4);
    proof {
        lemma_pow256();
    }
    let mut pos: usize = start + 4;
    let mut mask: Vec<u8> = Vec::new();
    let mut r: u64 = 0;
    assert(runs_at(s, start as int, 0) =~= Seq::<Run>::empty());
    while r < n
        invariant
            s == bytes@,
            bytes.len() == s.len(),
            *off == start,
            start == *old(off),
            n == run_count(s, start as int),
            r <= n,
            start + 4 <= s.len(),
            pos == start + 4 + 5 * r,
            pos <= s.len(),
            mask@ == expanded(runs_at(s, start as int, r as int)),
            mask@.len() <= expect,
            forall|k: int| 0 <= k < r ==> (#[trigger] runs_at(s, start as int, n as int)[k]).value <= 1,
        decreases n - r,
    {
        if bytes.len() - pos < 5 {
            return None;
        }
        let c: u64 = read_le(bytes, pos, 4);
        let v: u8 = bytes[pos + 4];
        proof {
            lemma_pow256();
            lemma_runs_take(s, start as int, n as int, r + 1);
            assert(runs_at(s, start as int, n as int)[r as int] == (Run { count: c as u32, value: v }));
            assert(expanded(runs_at(s, start as int, r + 1)).len() == mask@.len() + c);
            lemma_expanded_grows(s, start as int, n as int, r + 1);
        }
        if v > 1 {
            return None;
        }
        if c as usize > expect - mask.len() {
            return None;
        }
        push_run(&mut mask, c as usize, v);
        proof {
            let runs = runs_at(s, start as int, r + 1);
            assert(mask@ =~= expanded(runs));
        }
        pos = pos + 5;
        r = r + 1;
    }
    if mask.len() != expect {
        return None;
    }
    *off = pos;
    Some(mask)
}

/// How many of the runs that a stored mask claims to have are there.
pub open spec fn whole_runs(s: Seq<u8>, off: int) -> int {
    let room = (s.len() - off - 4) / 5;
    if run_count(s, off) < room {
        run_count(s, off)
    } else {
        room
    }
}

/// The first `n` runs stored at `off`, with every value above 1 taken as 1.
pub open spec fn flat_runs_at(s: Seq<u8>, off: int, n: int) -> Seq<Run> {
    Seq::new(
        n as nat,
        |r: int|
            Run {
                count: runs_at(s, off, n)[r].count,
                value: if runs_at(s, off, n)[r].value > 1 {
                    1
                } else {
                    runs_at(s, off, n)[r].value
                },
            },
    )
}

/// What can be read of the mask stored at `off`: nothing where not even its number of runs is there,
/// else the runs that are there.
pub open spec fn loose_mask(s: Seq<u8>, off: int) -> Seq<u8> {
    if off + 4 > s.len() {
        Seq::empty()
    } else {
        expanded(flat_runs_at(s, off, whole_runs(s, off)))
    }
}

/// Where what can be read of the mask stored at `off` ends.
pub open spec fn loose_end(s: Seq<u8>, off: int) -> int {
    if off + 4 > s.len() {
        off
    } else {
        off + 4 + 5 * whole_runs(s, off)
    }
}

/// Reads what can be read of the mask stored at `off`, of whatever length, and moves `off` behind it.
/// `None` for a mask of more pixels than can be addressed; then `off` stays.
pub fn rle_decode_any(bytes: &[u8], off: &mut usize) -> (res: Option<Vec<u8>>)
    ensures
        res is Some <==> loose_mask(bytes@, *old(off) as int).len() <= usize::MAX,
        res is Some ==> res->0@ == loose_mask(bytes@, *old(off) as int) && *final(off) == loose_end(
            bytes@,
            *old(off) as int,
        ),
        res is None ==> *final(off) == *old(off),
{
    let ghost s = bytes@;
    let start: usize = *off;
    assert(bytes.len() == s.len());
    let mut mask: Vec<u8> = Vec::new();
    if bytes.len() < 4 || start > bytes.len() - 4 {
        assert(mask@ =~= loose_mask(s, start as int));
        return Some(mask);
    }
    let n: u64 = read_le(bytes, start, 4);
    let ghost k = whole_runs(s, start as int);
    let mut pos: usize = start + 4;
    let mut r: u64 = 0;
    proof {
        lemma_pow256();
        assert(flat_runs_at(s, start as int, 0) =~= Seq::<Run>::empty());
    }
    while r < n && bytes.len() - pos >= 5
        invariant
            s == bytes@,
            bytes.len() == s.len(),
            *off == start,
            start == *old(off),
            n == run_count(s, start as int),
            k == whole_runs(s, start as int),
            r <= n,
            r <= k,
            start + 4 <= s.len(),
            pos == start + 4 + 5 * r,
            pos <= s.len(),
            mask@ == expanded(flat_runs_at(s, start as int, r as int)),
        decreases n - r,
    {
        let c: u64 = read_le(bytes, pos, 4);
        let raw: u8 = bytes[pos + 4];
        let v: u8 = if raw > 1 { 1 } else { raw };
        proof {
            lemma_pow256();
            let runs = flat_runs_at(s, start as int, r + 1);
            assert(runs.drop_last() =~= flat_runs_at(s, start as int, r as int));
            assert(runs.last() == (Run { count: c as u32, value: v }));
            lemma_flat_grows(s, start as int, k, r + 1);
        }
        if c as usize > usize::MAX - mask.len() {
            return None;
        }
        push_run(&mut mask, c as usize, v);
        assert(mask@ =~= expanded(flat_runs_at(s, start as int, r + 1)));
        pos = pos + 5;
        r = r + 1;
    }
    assert(r == k);
    *off = pos;
    assert(mask.len() <= usize::MAX);
    Some(mask)
}

proof fn lemma_flat_grows(s: Seq<u8>, off: int, n: int, r: int)
    requires
        0 <= r <= n,
    ensures
        expanded(flat_runs_at(s, off, r)).len() <= expanded(flat_runs_at(s, off, n)).len(),
    decreases n - r,
{
    if r < n {
        assert(flat_runs_at(s, off, n).drop_last() =~= flat_runs_at(s, off, n - 1));
        lemma_flat_grows(s, off, n - 1, r);
    }
}

/// What was stored is read back by the loose reader too, if it consists of ones and zeros.
pub proof fn law_loose_round_trip(prefix: Seq<u8>, mask: Seq<u8>, suffix: Seq<u8>)
    requires
        runs_of(mask).len() < 0x1_0000_0000,
        forall|i: int| 0 <= i < mask.len() ==> mask[i] <= 1,
    ensures
        ({
            let s = prefix + rle_bytes(mask) + suffix;
            let off = prefix.len() as int;
            &&& loose_mask(s, off) == mask
            &&& loose_end(s, off) == off + rle_bytes(mask).len()
        }),
{
    let s = prefix + rle_bytes(mask) + suffix;
    let off = prefix.len() as int;
    lemma_runs_read(prefix, mask, suffix);
    lemma_expanded_runs_of(mask);
    lemma_runs_binary(mask);
    let n = run_count(s, off);
    assert(whole_runs(s, off) == n);
    assert(flat_runs_at(s, off, n) =~= runs_of(mask));
}

/// How many pixels the first `r` runs have.
pub open spec fn run_start(runs: Seq<Run>, r: int) -> int {
    crate::compose::total(|i: int| runs[i].count as int, r)
}

proof fn lemma_run_start_take(runs: Seq<Run>, r: int)
    requires
        0 <= r < runs.len(),
    ensures
        run_start(runs.drop_last(), r) == run_start(runs, r),
{
    crate::compose::lemma_total_same(|i: int| runs.drop_last()[i].count as int, |i: int| runs[i].count as int, r);
}

proof fn lemma_expanded_at(runs: Seq<Run>)
    ensures
        expanded(runs).len() == run_start(runs, runs.len() as int),
        forall|r: int, i: int|
            0 <= r < runs.len() && 0 <= i < runs[r].count ==> 0 <= #[trigger] (run_start(runs, r) + i) < expanded(runs).len() && expanded(
                runs,
            )[run_start(runs, r) + i] == runs[r].value,
    decreases runs.len(),
{
    if runs.len() > 0 {
        let m = runs.drop_last();
        let n = runs.len() as int;
        lemma_expanded_at(m);
        lemma_run_start_take(runs, n - 1);
        assert(expanded(m).len() == run_start(runs, n - 1));
        assert(run_start(runs, n) == run_start(runs, n - 1) + runs[n - 1].count);
        assert forall|r: int, i: int| 0 <= r < n && 0 <= i < runs[r].count implies 0 <= #[trigger] (run_start(runs, r) + i) < expanded(
            runs,
        ).len() && expanded(runs)[run_start(runs, r) + i] == runs[r].value by {
            if r < n - 1 {
                lemma_run_start_take(runs, r);
                assert(m[r] == runs[r]);
                assert(0 <= run_start(m, r) + i < expanded(m).len());
                assert(expanded(m)[run_start(m, r) + i] == runs[r].value);
            } else {
                assert(expanded(runs)[run_start(runs, r) + i] == runs.last().value);
            }
        }
    }
}

/// The runs of a mask, one behind the other, are the mask: none is empty, two that follow each other differ unless the first is as long
/// as a run can be, and each pixel is that of the run it lies in.
pub proof fn law_runs(mask: Seq<u8>, r: int, i: int)
    requires
        0 <= r < runs_of(mask).len(),
        0 <= i < runs_of(mask)[r].count,
    ensures
        run_start(runs_of(mask), runs_of(mask).len() as int) == mask.len(),
        0 <= run_start(runs_of(mask), r) + i < mask.len(),
        mask[run_start(runs_of(mask), r) + i] == runs_of(mask)[r].value,
        runs_of(mask)[r].count > 0,
        r + 1 < runs_of(mask).len() ==> runs_of(mask)[r].value != runs_of(mask)[r + 1].value || runs_of(mask)[r].count == u32::MAX,
{
    lemma_expanded_runs_of(mask);
    lemma_expanded_at(runs_of(mask));
    lemma_runs_maximal(mask);
}

proof fn lemma_runs_maximal(mask: Seq<u8>)
    ensures
        forall|r: int| 0 <= r < runs_of(mask).len() ==> (#[trigger] runs_of(mask)[r]).count > 0,
        forall|r: int, q: int|
            0 <= r < runs_of(mask).len() && q == r + 1 && q < runs_of(mask).len() ==> (#[trigger] runs_of(mask)[r]).value != (
            #[trigger] runs_of(mask)[q]).value || runs_of(mask)[r].count == u32::MAX,
    decreases mask.len(),
{
    if mask.len() > 0 {
        lemma_runs_maximal(mask.drop_last());
        let was = runs_of(mask.drop_last());
        let now = runs_of(mask);
        if was.len() > 0 {
            assert(was[was.len() - 1].count > 0);
        }
        assert forall|r: int, q: int| 0 <= r < now.len() && q == r + 1 && q < now.len() implies (#[trigger] now[r]).value != (
        #[trigger] now[q]).value || now[r].count == u32::MAX by {
            assert(now[r] == was[r]);
            if q < was.len() {
                assert(was[q].value == now[q].value);
            }
        }
    }
}

/// How a mask is stored: first how many runs there are, in four bytes, the lowest first; then for each run its length, in four bytes, the
/// lowest first, and its value.
pub proof fn law_stored_layout(mask: Seq<u8>, r: int)
    requires
        runs_of(mask).len() < 0x1_0000_0000,
        0 <= r < runs_of(mask).len(),
    ensures
        ({
            let s = rle_bytes(mask);
            let n = runs_of(mask).len();
            let c = runs_of(mask)[r].count as int;
            let at = 4 + 5 * r;
            &&& s.len() == 4 + 5 * n
            &&& s[0] == n % 256
            &&& s[1] == (n / 0x100) % 256
            &&& s[2] == (n / 0x1_0000) % 256
            &&& s[3] == n / 0x100_0000
            &&& s[at] == c % 256
            &&& s[at + 1] == (c / 0x100) % 256
            &&& s[at + 2] == (c / 0x1_0000) % 256
            &&& s[at + 3] == c / 0x100_0000
            &&& s[at + 4] == runs_of(mask)[r].value
        }),
{
    let runs = runs_of(mask);
    let n = runs.len();
    let c = runs[r].count as nat;
    law_rle_size(mask);
    crate::bytes::law_bytes(n);
    crate::bytes::law_bytes(c);
    lemma_run_bytes_len(runs);
    lemma_run_bytes_at(runs, r);
    let b = run_bytes(runs);
    let t = b.subrange(5 * r, 5 * r + 4);
    assert(t[0] == b[5 * r] && t[1] == b[5 * r + 1] && t[2] == b[5 * r + 2] && t[3] == b[5 * r + 3]);
}

/// How stored bytes are read: at `off` stands the number of runs in four bytes, the lowest first; from `off + 4` on each run takes five
/// bytes, its length in four, the lowest first, and its value; the mask ends behind the last run, and each of its pixels is that of the
/// run it lies in.
pub proof fn law_read_layout(s: Seq<u8>, off: int, r: int, i: int)
    requires
        0 <= off,
        off + 4 <= s.len(),
        ({
            let n = s[off] + 0x100 * s[off + 1] + 0x1_0000 * s[off + 2] + 0x100_0000 * s[off + 3];
            let at = off + 4 + 5 * r;
            &&& off + 4 + 5 * n <= s.len()
            &&& 0 <= r < n
            &&& 0 <= i < s[at] + 0x100 * s[at + 1] + 0x1_0000 * s[at + 2] + 0x100_0000 * s[at + 3]
        }),
    ensures
        ({
            let n = s[off] + 0x100 * s[off + 1] + 0x1_0000 * s[off + 2] + 0x100_0000 * s[off + 3];
            let count = |q: int|
                s[off + 4 + 5 * q] + 0x100 * s[off + 5 + 5 * q] + 0x1_0000 * s[off + 6 + 5 * q] + 0x100_0000 * s[off + 7 + 5 * q];
            &&& mask_end(s, off) == off + 4 + 5 * n
            &&& mask_at(s, off).len() == crate::compose::total(count, n)
            &&& mask_at(s, off)[crate::compose::total(count, r) + i] == s[off + 8 + 5 * r]
        }),
{
    let n = run_count(s, off);
    crate::bytes::law_bytes_worth(s, off);
    let runs = runs_at(s, off, n);
    let count = |q: int|
        s[off + 4 + 5 * q] + 0x100 * s[off + 5 + 5 * q] + 0x1_0000 * s[off + 6 + 5 * q] + 0x100_0000 * s[off + 7 + 5 * q];
    let f = |q: int| runs[q].count as int;
    assert forall|q: int| 0 <= q < n implies #[trigger] f(q) == count(q) by {
        crate::bytes::law_bytes_worth(s, off + 4 + 5 * q);
    }
    crate::compose::lemma_total_same(f, count, n);
    crate::compose::lemma_total_same(f, count, r);
    lemma_expanded_at(runs);
    assert(f(r) == count(r));
    assert(0 <= run_start(runs, r) + i < expanded(runs).len());
}

/// Which stored bytes count as a mask of `expect` pixels: those whose runs are all there, are ones or zeros, and are as long together as
/// expected.
pub proof fn law_holds_mask(s: Seq<u8>, off: int, expect: int)
    requires
        0 <= off,
        off + 4 <= s.len(),
    ensures
        ({
            let n = s[off] + 0x100 * s[off + 1] + 0x1_0000 * s[off + 2] + 0x100_0000 * s[off + 3];
            holds_mask(s, off, expect) <==> {
                &&& off + 4 + 5 * n <= s.len()
                &&& forall|r: int| 0 <= r < n ==> #[trigger] s[off + 4 + 5 * r + 4] <= 1
                &&& mask_at(s, off).len() == expect
            }
        }),
        forall|o: int| o + 4 > s.len() ==> !#[trigger] holds_mask(s, o, expect),
{
    crate::bytes::law_bytes_worth(s, off);
    let n = run_count(s, off);
    let runs = runs_at(s, off, n);
    assert forall|r: int| 0 <= r < n implies #[trigger] runs[r].value == s[off + 4 + 5 * r + 4] by {}
    if forall|r: int| 0 <= r < n ==> #[trigger] s[off + 4 + 5 * r + 4] <= 1 {
        assert forall|r: int| 0 <= r < n implies (#[trigger] runs[r]).value <= 1 by {
            assert(s[off + 4 + 5 * r + 4] <= 1);
        }
    }
    if forall|r: int| 0 <= r < n ==> (#[trigger] runs[r]).value <= 1 {
        assert forall|r: int| 0 <= r < n implies #[trigger] s[off + 4 + 5 * r + 4] <= 1 by {
            assert(runs[r].value <= 1);
        }
    }
}

/// What can be read of a mask that need not be whole: of the runs that there should be, as many as there are bytes for, with every value
/// but zero taken as one; nothing, if not even their number is there.
pub proof fn law_loose_layout(s: Seq<u8>, off: int, r: int, i: int)
    requires
        0 <= off,
        off + 4 <= s.len(),
        0 <= r,
        off + 9 + 5 * r <= s.len(),
        r < s[off] + 0x100 * s[off + 1] + 0x1_0000 * s[off + 2] + 0x100_0000 * s[off + 3],
        0 <= i < s[off + 4 + 5 * r] + 0x100 * s[off + 5 + 5 * r] + 0x1_0000 * s[off + 6 + 5 * r] + 0x100_0000 * s[off + 7 + 5 * r],
    ensures
        ({
            let n = s[off] + 0x100 * s[off + 1] + 0x1_0000 * s[off + 2] + 0x100_0000 * s[off + 3];
            let m = if off + 4 + 5 * n <= s.len() { n } else { (s.len() - off - 4) / 5 };
            let count = |q: int|
                s[off + 4 + 5 * q] + 0x100 * s[off + 5 + 5 * q] + 0x1_0000 * s[off + 6 + 5 * q] + 0x100_0000 * s[off + 7 + 5 * q];
            &&& loose_end(s, off) == off + 4 + 5 * m
            &&& loose_mask(s, off).len() == crate::compose::total(count, m)
            &&& loose_mask(s, off)[crate::compose::total(count, r) + i] == (if s[off + 8 + 5 * r] == 0 { 0u8 } else { 1u8 })
        }),
        forall|o: int| o + 4 > s.len() ==> (#[trigger] loose_mask(s, o)).len() == 0 && loose_end(s, o) == o,
{
    let n = whole_runs(s, off);
    crate::bytes::law_bytes_worth(s, off);
    let runs = flat_runs_at(s, off, n);
    let count = |q: int|
        s[off + 4 + 5 * q] + 0x100 * s[off + 5 + 5 * q] + 0x1_0000 * s[off + 6 + 5 * q] + 0x100_0000 * s[off + 7 + 5 * q];
    let f = |q: int| runs[q].count as int;
    assert forall|q: int| 0 <= q < n implies #[trigger] f(q) == count(q) by {
        crate::bytes::law_bytes_worth(s, off + 4 + 5 * q);
    }
    crate::compose::lemma_total_same(f, count, n);
    crate::compose::lemma_total_same(f, count, r);
    lemma_expanded_at(runs);
    assert(f(r) == count(r));
    assert(0 <= run_start(runs, r) + i < expanded(runs).len());
}

} // verus!
