//! Unsigned numbers as little-endian bytes.
use vstd::prelude::*;

verus! {

/// The lowest `k` bytes of `n`, lowest first.
pub open spec fn le(n: nat, k: nat) -> Seq<u8>
    decreases k,
{
    if k == 0 {
        Seq::empty()
    } else {
        seq![(n % 256) as u8] + le(n / 256, (k - 1) as nat)
    }
}

/// The number whose bytes, lowest first, are `s`.
pub open spec fn un_le(s: Seq<u8>) -> nat
    decreases s.len(),
{
    if s.len() == 0 {
        0
    } else {
        (s[0] + 256 * un_le(s.subrange(1, s.len() as int))) as nat
    }
}

/// 256 to the power of `k`.
pub open spec fn pow256(k: nat) -> nat
    decreases k,
{
    if k == 0 {
        1
    } else {
        256 * pow256((k - 1) as nat)
    }
}

/// The number that `k` bytes at offset `off` stand for.
pub open spec fn le_at(s: Seq<u8>, off: int, k: int) -> nat {
    un_le(s.subrange(off, off + k))
}

pub proof fn lemma_le_len(n: nat, k: nat)
    ensures
        le(n, k).len() == k,
    decreases k,
{
    if k > 0 {
        lemma_le_len(n / 256, (k - 1) as nat);
    }
}

/// Reading the bytes of a number gives the number back.
pub proof fn law_le_round_trip(n: nat, k: nat)
    requires
        n < pow256(k),
    ensures
        le(n, k).len() == k,
        un_le(le(n, k)) == n,
    decreases k,
{
    lemma_le_len(n, k);
    if k > 0 {
        law_le_round_trip(n / 256, (k - 1) as nat);
        assert(le(n, k).subrange(1, k as int) =~= le(n / 256, (k - 1) as nat));
    }
}

/// `k` bytes stand for less than 256 to the power of `k`.
pub proof fn lemma_un_le_bound(s: Seq<u8>)
    ensures
        un_le(s) < pow256(s.len()),
    decreases s.len(),
{
    if s.len() > 0 {
        lemma_un_le_bound(s.subrange(1, s.len() as int));
    }
}

pub proof fn lemma_pow256()
    ensures
        pow256(0) == 1,
        pow256(4) == 0x1_0000_0000,
        pow256(8) == 0x1_0000_0000_0000_0000,
{
    reveal_with_fuel(pow256, 9);
}

/// Appends the lowest `k` bytes of `n`.
pub fn push_le(out: &mut Vec<u8>, n: u64, k: usize)
    ensures
        final(out)@ == old(out)@ + le(n as nat, k as nat),
    decreases k,
{
    if k == 0 {
        assert(old(out)@ + le(n as nat, 0) =~= old(out)@);
        return;
    }
    out.push((n % 256) as u8);
    let ghost mid = out@;
    push_le(out, n / 256, k - 1);
    assert(mid + le((n / 256) as nat, (k - 1) as nat) =~= old(out)@ + le(n as nat, k as nat));
}

/// Reads `k` bytes, at most 8, at offset `off`.
pub fn read_le(s: &[u8], off: usize, k: usize) -> (n: u64)
    requires
        k <= 8,
        off + k <= s@.len(),
    ensures
        n == le_at(s@, off as int, k as int),
        n < pow256(k as nat),
    decreases k,
{
    proof {
        lemma_un_le_bound(s@.subrange(off as int, off + k));
        lemma_pow256();
    }
    assert(s.len() == s@.len());
    if k == 0 {
        return 0;
    }
    proof {
        assert(s@.subrange(off as int, off + k).subrange(1, k as int) =~= s@.subrange(
            off + 1,
            off + 1 + (k - 1),
        ));
        lemma_pow256_grows((k - 1) as nat, 7);
        assert(pow256(8) == 256 * pow256(7));
    }
    let high: u64 = read_le(s, off + 1, k - 1);
    s[off] as u64 + 256 * high
}

proof fn lemma_pow256_grows(a: nat, b: nat)
    requires
        a <= b,
    ensures
        pow256(a) <= pow256(b),
    decreases b - a,
{
    if a < b {
        lemma_pow256_grows(a, (b - 1) as nat);
    }
}

/// The bytes of a number, the lowest first: for four bytes and for eight.
pub proof fn law_bytes(n: nat)
    ensures
        le(n, 4).len() == 4,
        le(n, 4)[0] == n % 256,
        le(n, 4)[1] == (n / 0x100) % 256,
        le(n, 4)[2] == (n / 0x1_0000) % 256,
        le(n, 4)[3] == (n / 0x100_0000) % 256,
        le(n, 8).len() == 8,
        le(n, 8).take(4) == le(n, 4),
        le(n, 8).skip(4) == le(n / 0x1_0000_0000, 4),
{
    reveal_with_fuel(le, 9);
    assert(n / 256 / 256 == n / 0x1_0000 && n / 256 / 256 / 256 == n / 0x100_0000 && n / 256 / 256 / 256 / 256 == n / 0x1_0000_0000);
    assert(le(n, 8).take(4) =~= le(n, 4));
    assert(le(n, 8).skip(4) =~= le(n / 0x1_0000_0000, 4));
}

/// What bytes are worth: the first counts as it is, and each further one 256 times as much as the one before.
pub proof fn law_bytes_worth(s: Seq<u8>, off: int)
    requires
        0 <= off,
    ensures
        off + 4 <= s.len() ==> le_at(s, off, 4) == s[off] + 0x100 * s[off + 1] + 0x1_0000 * s[off + 2] + 0x100_0000 * s[off + 3],
        off + 8 <= s.len() ==> le_at(s, off, 8) == le_at(s, off, 4) + 0x1_0000_0000 * le_at(s, off + 4, 4),
{
    reveal_with_fuel(un_le, 9);
    if off + 8 <= s.len() {
        let t = s.subrange(off, off + 8);
        let (a, b) = (s.subrange(off, off + 4), s.subrange(off + 4, off + 8));
        assert(a.subrange(1, 4).subrange(1, 3).subrange(1, 2).subrange(1, 1) =~= Seq::<u8>::empty());
        assert(b.subrange(1, 4).subrange(1, 3).subrange(1, 2).subrange(1, 1) =~= Seq::<u8>::empty());
        assert(t.subrange(1, 8).subrange(1, 7).subrange(1, 6).subrange(1, 5) =~= b);
        assert(un_le(t) == t[0] + 256 * (t[1] + 256 * (t[2] + 256 * (t[3] + 256 * un_le(b)))));
        assert(un_le(a) == a[0] + 256 * (a[1] + 256 * (a[2] + 256 * a[3])));
    }
    if off + 4 <= s.len() {
        let a = s.subrange(off, off + 4);
        assert(a.subrange(1, 4).subrange(1, 3).subrange(1, 2).subrange(1, 1) =~= Seq::<u8>::empty());
        assert(un_le(a) == a[0] + 256 * (a[1] + 256 * (a[2] + 256 * a[3])));
    }
}

} // verus!
