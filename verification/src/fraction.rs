//! Decimal fractions, held exactly, against powers of two.
use crate::text::{dec_value, is_digit};
use vstd::prelude::*;

verus! {

/// 10 to the power of `n`.
pub open spec fn tens(n: nat) -> nat
    decreases n,
{
    if n == 0 {
        1
    } else {
        10 * tens((n - 1) as nat)
    }
}

/// 2 to the power of `n`.
pub open spec fn twos(n: nat) -> nat
    decreases n,
{
    if n == 0 {
        1
    } else {
        2 * twos((n - 1) as nat)
    }
}

/// Whether all of a text is decimal digits.
pub open spec fn only_digits(s: Seq<char>) -> bool {
    forall|i: int| 0 <= i < s.len() ==> is_digit(#[trigger] s[i])
}

/// Whether the fraction with the digits `s` behind the point is more than 1 in 2 to the power of `k`.
pub open spec fn more_than(s: Seq<char>, k: nat) -> bool {
    dec_value(s) * twos(k) > tens(s.len())
}

/// Whether the fraction with the digits `s` behind the point is short of one by more than 1 in 2 to the power of `k`.
pub open spec fn short_by(s: Seq<char>, k: nat) -> bool {
    (tens(s.len()) - dec_value(s)) * twos(k) > tens(s.len())
}

/// The number with the digits `d`, the lowest first.
pub open spec fn value(d: Seq<u8>) -> nat
    decreases d.len(),
{
    if d.len() == 0 {
        0
    } else {
        value(d.drop_last()) + d.last() as nat * tens((d.len() - 1) as nat)
    }
}

/// Whether these are digits.
pub open spec fn digits_ok(d: Seq<u8>) -> bool {
    forall|i: int| 0 <= i < d.len() ==> #[trigger] d[i] <= 9
}

proof fn lemma_powers(n: nat)
    ensures
        tens(n) >= 1,
        twos(n) >= 1,
        tens(n + 1) == 10 * tens(n),
        twos(n + 1) == 2 * twos(n),
    decreases n,
{
    if n > 0 {
        lemma_powers((n - 1) as nat);
    }
}

proof fn lemma_value_bound(d: Seq<u8>)
    requires
        digits_ok(d),
    ensures
        value(d) < tens(d.len()),
    decreases d.len(),
{
    if d.len() > 0 {
        let t = tens((d.len() - 1) as nat);
        assert(d[d.len() - 1] <= 9);
        lemma_value_bound(d.drop_last());
        assert(d.last() * t <= 9 * t) by (nonlinear_arith)
            requires
                d.last() <= 9,
                0 <= t,
        ;
    }
}

proof fn lemma_first_digit(s: Seq<char>)
    requires
        s.len() > 0,
        only_digits(s),
    ensures
        dec_value(s) == (s[0] as int - 48) * tens((s.len() - 1) as nat) + dec_value(s.skip(1)),
    decreases s.len(),
{
    assert(is_digit(s[0]));
    let rest = s.skip(1);
    if s.len() == 1 {
        assert(s.drop_last() =~= Seq::<char>::empty());
        assert(rest =~= Seq::<char>::empty());
        assert(dec_value(s.drop_last()) == 0);
        let a = s[0] as int - 48;
        assert(tens(0) == 1 && a * 1 == a);
    } else {
        let head = s.drop_last();
        assert forall|i: int| 0 <= i < head.len() implies is_digit(#[trigger] head[i]) by {
            assert(is_digit(s[i]));
        }
        lemma_first_digit(head);
        assert(head.skip(1) =~= rest.drop_last());
        let (a, t) = (s[0] as int - 48, tens((s.len() - 2) as nat));
        assert((a * t) * 10 == a * (10 * t)) by (nonlinear_arith);
        assert(rest.last() == s.last());
        assert(dec_value(rest) == dec_value(rest.drop_last()) * 10 + (s.last() as int - 48) as nat);
        assert(tens((s.len() - 1) as nat) == 10 * t);
        assert(dec_value(head) == a * t + dec_value(rest.drop_last()));
    }
}

/// Reads the digits of a text, the lowest first.
fn read_digits(s: &[char]) -> (r: Option<Vec<u8>>)
    ensures
        r is Some <==> only_digits(s@),
        r is Some ==> r->0@.len() == s@.len() && digits_ok(r->0@) && value(r->0@) == dec_value(s@),
{
    let mut d: Vec<u8> = Vec::new();
    let mut i: usize = s.len();
    assert(s@.skip(i as int) =~= Seq::<char>::empty());
    while i > 0
        invariant
            i <= s@.len(),
            d@.len() == s@.len() - i,
            digits_ok(d@),
            only_digits(s@.skip(i as int)),
            value(d@) == dec_value(s@.skip(i as int)),
        decreases i,
    {
        let c: char = s[i - 1];
        if c < '0' || c > '9' {
            assert(!is_digit(s@[i - 1]));
            return None;
        }
        let ghost t = s@.skip(i - 1);
        assert forall|k: int| 0 <= k < t.len() implies is_digit(#[trigger] t[k]) by {
            if k > 0 {
                assert(t[k] == s@.skip(i as int)[k - 1]);
            }
        }
        proof {
            lemma_first_digit(t);
            assert(t.skip(1) =~= s@.skip(i as int));
        }
        let ghost before = d@;
        d.push((c as u32 - 48) as u8);
        assert(d@.drop_last() =~= before);
        i = i - 1;
    }
    assert(s@.skip(0) =~= s@);
    Some(d)
}

/// Doubles a fraction; says whether one or more comes of it, and keeps what is beyond one.
fn double(d: &mut Vec<u8>) -> (over: bool)
    requires
        digits_ok(old(d)@),
    ensures
        final(d)@.len() == old(d)@.len(),
        digits_ok(final(d)@),
        value(final(d)@) + (if over {
            tens(old(d)@.len())
        } else {
            0
        }) == 2 * value(old(d)@),
{
    let ghost was = d@;
    let n: usize = d.len();
    let mut carry: u8 = 0;
    for i in 0..n
        invariant
            n == was.len(),
            d@.len() == n,
            carry <= 1,
            digits_ok(was),
            digits_ok(d@),
            forall|j: int| i <= j < n ==> d@[j] == was[j],
            value(d@.take(i as int)) + carry * tens(i as nat) == 2 * value(was.take(i as int)),
    {
        let ghost before = d@;
        assert(was[i as int] <= 9);
        let v: u8 = 2 * d[i] + carry;
        let ghost c = carry;
        let low: u8 = if v >= 10 { v - 10 } else { v };
        carry = if v >= 10 { 1 } else { 0 };
        d.set(i, low);
        proof {
            assert(d@.take(i + 1).drop_last() =~= before.take(i as int));
            assert(was.take(i + 1).drop_last() =~= was.take(i as int));
            lemma_powers(i as nat);
            let t = tens(i as nat);
            let (a, b, e) = (was[i as int] as int, low as int, carry as int);
            assert(b + 10 * e == 2 * a + c);
            assert(b * t + e * (10 * t) == 2 * (a * t) + c * t) by (nonlinear_arith)
                requires
                    b + 10 * e == 2 * a + c,
            ;
        }
    }
    assert(d@.take(n as int) =~= d@);
    assert(was.take(n as int) =~= was);
    carry == 1
}

/// Whether the fraction with the given digits is more than 1 in 2 to the power of `k`; none, if they are not digits.
pub fn is_more_than(s: &[char], k: usize) -> (r: Option<bool>)
    ensures
        r is Some <==> only_digits(s@),
        r is Some ==> r->0 == more_than(s@, k as nat),
{
    let mut d: Vec<u8> = match read_digits(s) {
        Some(d) => d,
        None => {
            return None;
        },
    };
    let ghost t = tens(s@.len());
    proof {
        lemma_powers(s@.len());
    }
    let mut left: usize = k;
    while left > 0
        invariant
            digits_ok(d@),
            d@.len() == s@.len(),
            t == tens(s@.len()) >= 1,
            more_than(s@, k as nat) == (value(d@) * twos(left as nat) > t),
            only_digits(s@),
        decreases left,
    {
        let ghost was = value(d@) as int;
        let over: bool = double(&mut d);
        left = left - 1;
        let ghost now = value(d@) as int;
        let ghost p = twos(left as nat) as int;
        proof {
            lemma_powers(left as nat);
            lemma_value_bound(d@);
            if over {
                assert(was * (2 * p) == (t + now) * p) by (nonlinear_arith)
                    requires
                        now + t == 2 * was,
                ;
            } else {
                assert(was * (2 * p) == now * p) by (nonlinear_arith)
                    requires
                        now == 2 * was,
                ;
            }
        }
        if over {
            if left > 0 {
                proof {
                    lemma_powers((left - 1) as nat);
                    assert((t + now) * p > t) by (nonlinear_arith)
                        requires
                            p >= 2,
                            t >= 1,
                            now >= 0,
                    ;
                }
                return Some(true);
            }
            let some: bool = any(&d);
            assert((t + now) * 1 == t + now);
            return Some(some);
        }
    }
    proof {
        lemma_value_bound(d@);
        assert(value(d@) * 1 == value(d@));
    }
    Some(false)
}

/// Whether any digit is not zero.
fn any(d: &Vec<u8>) -> (r: bool)
    ensures
        r == (value(d@) > 0),
{
    for i in 0..d.len()
        invariant
            value(d@.take(i as int)) == 0,
    {
        assert(d@.take(i + 1).drop_last() =~= d@.take(i as int));
        if d[i] != 0 {
            proof {
                lemma_powers(i as nat);
                let t = tens(i as nat);
                assert(d@[i as int] * t > 0) by (nonlinear_arith)
                    requires
                        d@[i as int] > 0,
                        t > 0,
                ;
                lemma_value_grows(d@, i + 1);
            }
            return true;
        }
        assert(0 * tens(i as nat) == 0);
    }
    assert(d@.take(d@.len() as int) =~= d@);
    false
}

proof fn lemma_value_grows(d: Seq<u8>, i: int)
    requires
        0 <= i <= d.len(),
    ensures
        value(d.take(i)) <= value(d),
    decreases d.len(),
{
    if i == d.len() {
        assert(d.take(i) =~= d);
    } else {
        lemma_value_grows(d.drop_last(), i);
        assert(d.drop_last().take(i) =~= d.take(i));
        assert(d.last() * tens((d.len() - 1) as nat) >= 0);
    }
}

/// Whether the fraction with the given digits is short of one by more than 1 in 2 to the power of `k`; none, if they are not
/// digits.
pub fn is_short_by(s: &[char], k: usize) -> (r: Option<bool>)
    ensures
        r is Some <==> only_digits(s@),
        r is Some ==> r->0 == short_by(s@, k as nat),
{
    let mut d: Vec<u8> = match read_digits(s) {
        Some(d) => d,
        None => {
            return None;
        },
    };
    let ghost t = tens(s@.len()) as int;
    proof {
        lemma_powers(s@.len());
    }
    let mut left: usize = k;
    while left > 0
        invariant
            digits_ok(d@),
            d@.len() == s@.len(),
            t == tens(s@.len()) >= 1,
            short_by(s@, k as nat) == ((t - value(d@)) * twos(left as nat) > t),
            only_digits(s@),
        decreases left,
    {
        let ghost was = value(d@) as int;
        let over: bool = double(&mut d);
        left = left - 1;
        let ghost now = value(d@) as int;
        let ghost p = twos(left as nat) as int;
        proof {
            lemma_powers(left as nat);
            lemma_value_bound(d@);
            if over {
                assert((t - was) * (2 * p) == (t - now) * p) by (nonlinear_arith)
                    requires
                        now + t == 2 * was,
                ;
            } else {
                let gap = 2 * t - now;
                assert((t - was) * (2 * p) == gap * p) by (nonlinear_arith)
                    requires
                        gap == 2 * (t - was),
                ;
                assert(gap * p >= gap) by (nonlinear_arith)
                    requires
                        gap >= 0,
                        p >= 1,
                ;
            }
        }
        if !over {
            return Some(true);
        }
    }
    assert((t - value(d@)) * 1 == t - value(d@));
    Some(false)
}

/// What is compared: a fraction in decimal digits, its digits over ten to their number, against one over two to the `k`: whether it
/// is more, and whether what it lacks to one is more.
pub proof fn law_compared(s: Seq<char>, k: nat)
    ensures
        more_than(s, k) <==> dec_value(s) * vstd::arithmetic::power::pow(2, k) > vstd::arithmetic::power::pow(10, s.len()),
        short_by(s, k) <==> (vstd::arithmetic::power::pow(10, s.len()) - dec_value(s)) * vstd::arithmetic::power::pow(2, k)
            > vstd::arithmetic::power::pow(10, s.len()),
{
    lemma_twos_pow(k);
    lemma_tens_pow(s.len());
}

proof fn lemma_twos_pow(n: nat)
    ensures
        twos(n) == vstd::arithmetic::power::pow(2, n),
    decreases n,
{
    reveal(vstd::arithmetic::power::pow);
    if n > 0 {
        lemma_twos_pow((n - 1) as nat);
    }
}

proof fn lemma_tens_pow(n: nat)
    ensures
        tens(n) == vstd::arithmetic::power::pow(10, n),
    decreases n,
{
    reveal(vstd::arithmetic::power::pow);
    if n > 0 {
        lemma_tens_pow((n - 1) as nat);
    }
}

} // verus!
