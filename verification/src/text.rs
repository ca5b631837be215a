//! Text as sequences of characters: comparing, joining and numbers in decimal.
use vstd::prelude::*;

verus! {

/// `String::push` of the standard library: the character is appended to the text.
pub assume_specification[ String::push ](s: &mut String, c: char)
    ensures
        final(s)@ == old(s)@.push(c),
;

/// The characters of a text.
pub fn chars_of(s: &str) -> (v: Vec<char>)
    ensures
        v@ == s@,
{
    let mut v: Vec<char> = Vec::new();
    for c in it: s.chars()
        invariant
            v@ == s@.take(it.index() as int),
            it.seq() == s@,
    {
        assert(s@.take(it.index() + 1) =~= s@.take(it.index() as int).push(c));
        v.push(c);
    }
    assert(s@.take(s@.len() as int) =~= s@);
    v
}

/// The text with the given characters.
pub fn text_of(v: &[char]) -> (s: String)
    ensures
        s@ == v@,
{
    let mut s = String::new();
    for i in 0..v.len()
        invariant
            s@ == v@.take(i as int),
    {
        assert(v@.take(i + 1) =~= v@.take(i as int).push(v@[i as int]));
        s.push(v[i]);
    }
    assert(v@.take(v@.len() as int) =~= v@);
    s
}

/// Whether two texts are the same.
pub fn same(a: &str, b: &str) -> (r: bool)
    ensures
        r == (a@ == b@),
{
    let x = chars_of(a);
    let y = chars_of(b);
    same_chars(&x, &y)
}

/// Whether two runs of characters are the same.
pub fn same_chars(x: &[char], y: &[char]) -> (r: bool)
    ensures
        r == (x@ == y@),
{
    if x.len() != y.len() {
        return false;
    }
    for i in 0..x.len()
        invariant
            x@.len() == y@.len(),
            forall|j: int| 0 <= j < i ==> x@[j] == y@[j],
    {
        if x[i] != y[i] {
            return false;
        }
    }
    assert(x@ =~= y@);
    true
}

/// Appends `more` to `s`.
pub fn append(s: &mut String, more: &str)
    ensures
        final(s)@ == old(s)@ + more@,
{
    s.append(more);
}

/// The decimal digit `d`.
pub open spec fn digit(d: int) -> char {
    (48 + d) as char
}

/// Whether a character is a decimal digit.
pub open spec fn is_digit(c: char) -> bool {
    '0' <= c <= '9'
}

/// `n` in decimal, without leading zeros.
pub open spec fn dec(n: nat) -> Seq<char>
    decreases n,
{
    if n < 10 {
        seq![digit(n as int)]
    } else {
        dec(n / 10).push(digit((n % 10) as int))
    }
}

/// The number that a run of decimal digits stands for.
pub open spec fn dec_value(s: Seq<char>) -> nat
    decreases s.len(),
{
    if s.len() == 0 {
        0
    } else {
        dec_value(s.drop_last()) * 10 + (s.last() as int - 48) as nat
    }
}

/// Whether a run of characters consists of decimal digits, at least one.
pub open spec fn all_digits(s: Seq<char>) -> bool {
    s.len() > 0 && forall|i: int| 0 <= i < s.len() ==> is_digit(s[i])
}

/// `n` copies of `c`.
pub open spec fn copies(c: char, n: int) -> Seq<char> {
    Seq::new(
        if n < 0 {
            0
        } else {
            n as nat
        },
        |i: int| c,
    )
}

/// `n` in decimal, with leading zeros up to `width` digits.
pub open spec fn dec_padded(n: nat, width: int) -> Seq<char> {
    copies('0', width - dec(n).len()) + dec(n)
}

fn push_decimal(s: &mut String, n: u64)
    ensures
        final(s)@ == old(s)@ + dec(n as nat),
    decreases n,
{
    if n < 10 {
        assert(old(s)@ + dec(n as nat) =~= old(s)@.push(digit(n as int)));
    } else {
        push_decimal(s, n / 10);
        assert(old(s)@ + dec(n as nat) =~= s@.push(digit((n % 10) as int)));
    }
    s.push((48 + (n % 10) as u8) as char);
}

/// `n` in decimal.
pub fn decimal(n: u64) -> (s: String)
    ensures
        s@ == dec(n as nat),
{
    let mut s = String::new();
    push_decimal(&mut s, n);
    assert(s@ =~= dec(n as nat));
    s
}

/// `n` in decimal, with leading zeros up to `width` digits.
pub fn decimal_padded(n: u64, width: usize) -> (s: String)
    ensures
        s@ == dec_padded(n as nat, width as int),
{
    let body = decimal(n);
    let d: usize = body.as_str().unicode_len();
    let mut s = String::new();
    let mut k: usize = d;
    while k < width
        invariant
            d <= k,
            k <= width || k == d,
            s@ == copies('0', k - d),
        decreases width - k,
    {
        s.push('0');
        k = k + 1;
        assert(s@ =~= copies('0', k - d));
    }
    assert(s@ =~= copies('0', width - d));
    append(&mut s, body.as_str());
    s
}

/// What a text stands for as an unsigned number of at most `max`: decimal digits, which a plus sign may precede.
pub open spec fn parsed(s: Seq<char>, max: nat) -> Option<nat> {
    let t = if s.len() > 0 && s[0] == '+' {
        s.subrange(1, s.len() as int)
    } else {
        s
    };
    if all_digits(t) && dec_value(t) <= max {
        Some(dec_value(t))
    } else {
        None
    }
}

/// Reading more digits never makes the number smaller.
pub proof fn lemma_dec_value_grows(s: Seq<char>, i: int)
    requires
        0 <= i <= s.len(),
    ensures
        dec_value(s.take(i)) <= dec_value(s),
    decreases s.len(),
{
    if i == s.len() {
        assert(s.take(i) =~= s);
    } else {
        lemma_dec_value_grows(s.drop_last(), i);
        assert(s.drop_last().take(i) =~= s.take(i));
    }
}

/// Reads an unsigned number of at most `max`.
pub fn parse_number(s: &[char], max: u64) -> (r: Option<u64>)
    ensures
        r is Some <==> parsed(s@, max as nat) is Some,
        r is Some ==> r->0 == parsed(s@, max as nat)->0,
{
    let start: usize = if s.len() > 0 && s[0] == '+' { 1 } else { 0 };
    let ghost t = if s@.len() > 0 && s@[0] == '+' { s@.subrange(1, s@.len() as int) } else { s@ };
    if start == s.len() {
        return None;
    }
    let mut v: u64 = 0;
    let mut i: usize = start;
    while i < s.len()
        invariant
            start <= i <= s.len(),
            start < s.len(),
            start <= 1,
            t == (if s@.len() > 0 && s@[0] == '+' { s@.subrange(1, s@.len() as int) } else { s@ }),
            start == (if s@.len() > 0 && s@[0] == '+' { 1int } else { 0 }),
            forall|j: int| 0 <= j < i - start ==> is_digit(t[j]),
            v == dec_value(t.take(i - start)),
            v <= max,
        decreases s.len() - i,
    {
        let c = s[i];
        let ghost k = i - start;
        assert(c == t[k]);
        if c < '0' || c > '9' {
            return None;
        }
        let d: u64 = c as u64 - 48;
        proof {
            assert(t.take(k + 1).drop_last() =~= t.take(k));
            assert(dec_value(t.take(k + 1)) == v * 10 + d);
            lemma_dec_value_grows(t, k + 1);
        }
        if d > max || v > max / 10 || v * 10 > max - d {
            return None;
        }
        v = v * 10 + d;
        i = i + 1;
    }
    assert(t.take(t.len() as int) =~= t);
    Some(v)
}

/// Reading back what was written gives the same number.
pub proof fn law_decimal_round_trip(n: nat)
    ensures
        all_digits(dec(n)),
        dec_value(dec(n)) == n,
    decreases n,
{
    if n < 10 {
        assert(dec(n).drop_last() =~= Seq::<char>::empty());
        assert(dec_value(dec(n).drop_last()) == 0);
    } else {
        law_decimal_round_trip(n / 10);
        assert(dec(n).drop_last() =~= dec(n / 10));
    }
}

/// Leading zeros do not change the number.
pub proof fn lemma_leading_zeros(k: int, s: Seq<char>)
    requires
        0 <= k,
    ensures
        dec_value(copies('0', k) + s) == dec_value(s),
    decreases s.len(), k,
{
    if s.len() > 0 {
        lemma_leading_zeros(k, s.drop_last());
        assert((copies('0', k) + s).drop_last() =~= copies('0', k) + s.drop_last());
    } else if k > 0 {
        lemma_leading_zeros(k - 1, s);
        assert((copies('0', k) + s).drop_last() =~= copies('0', k - 1) + s);
    } else {
        assert(copies('0', k) + s =~= s);
    }
}

/// A padded number reads back as itself.
pub proof fn law_padded_round_trip(n: nat, width: int, max: nat)
    requires
        n <= max,
    ensures
        parsed(dec_padded(n, width), max) == Some(n),
{
    law_decimal_round_trip(n);
    let k = width - dec(n).len();
    if k > 0 {
        lemma_leading_zeros(k, dec(n));
    } else {
        assert(copies('0', k) + dec(n) =~= dec(n));
    }
    let s = dec_padded(n, width);
    assert forall|i: int| 0 <= i < s.len() implies is_digit(s[i]) by {
        if k > 0 && i >= k {
            assert(s[i] == dec(n)[i - k]);
        }
    }
}

/// Whether `p` stands in `s` at position `i`.
pub open spec fn has_at(s: Seq<char>, p: Seq<char>, i: int) -> bool {
    0 <= i && i + p.len() <= s.len() && s.subrange(i, i + p.len()) == p
}

/// Where `p` first stands in `s` at or after position `from`.
pub open spec fn find_from(s: Seq<char>, p: Seq<char>, from: int) -> Option<int>
    decreases s.len() + 1 - from,
{
    if from + p.len() > s.len() {
        None
    } else if has_at(s, p, from) {
        Some(from)
    } else {
        find_from(s, p, from + 1)
    }
}

/// Where `p` first stands in `s`.
pub open spec fn find_in(s: Seq<char>, p: Seq<char>) -> Option<int> {
    find_from(s, p, 0)
}

/// Whether `s` begins with `p`.
pub open spec fn has_prefix(s: Seq<char>, p: Seq<char>) -> bool {
    has_at(s, p, 0)
}

/// Whether `s` ends with `p`.
pub open spec fn has_suffix(s: Seq<char>, p: Seq<char>) -> bool {
    has_at(s, p, s.len() - p.len())
}

/// Whether `p` stands in `s` at position `i`.
pub fn stands_at(s: &[char], p: &[char], i: usize) -> (r: bool)
    ensures
        r == has_at(s@, p@, i as int),
{
    assert(s.len() == s@.len());
    assert(p.len() == p@.len());
    if p.len() > s.len() || i > s.len() - p.len() {
        return false;
    }
    for k in 0..p.len()
        invariant
            i + p@.len() <= s@.len(),
            s.len() == s@.len(),
            forall|j: int| 0 <= j < k ==> s@[i + j] == p@[j],
    {
        if s[i + k] != p[k] {
            assert(s@.subrange(i as int, i + p@.len())[k as int] != p@[k as int]);
            return false;
        }
    }
    assert(s@.subrange(i as int, i + p@.len()) =~= p@);
    true
}

/// Where `p` first stands in `s`.
pub fn find(s: &[char], p: &[char]) -> (r: Option<usize>)
    ensures
        r is Some <==> find_in(s@, p@) is Some,
        r is Some ==> r->0 == find_in(s@, p@)->0,
        r is Some ==> r->0 + p@.len() <= s@.len(),
{
    assert(s.len() == s@.len());
    assert(p.len() == p@.len());
    if p.len() > s.len() {
        return None;
    }
    let last: usize = s.len() - p.len();
    let mut i: usize = 0;
    loop
        invariant
            s.len() == s@.len(),
            p.len() == p@.len(),
            last == s@.len() - p@.len(),
            i <= last,
            find_in(s@, p@) == find_from(s@, p@, i as int),
        decreases last - i,
    {
        if stands_at(s, p, i) {
            return Some(i);
        }
        if i == last {
            assert(find_from(s@, p@, i + 1) is None);
            return None;
        }
        i = i + 1;
    }
}

/// Whether `p` stands somewhere in `s`.
pub fn contains(s: &[char], p: &[char]) -> (r: bool)
    ensures
        r == (find_in(s@, p@) is Some),
{
    find(s, p).is_some()
}

/// Whether `s` begins with `p`.
pub fn starts_with(s: &[char], p: &[char]) -> (r: bool)
    ensures
        r == has_prefix(s@, p@),
{
    stands_at(s, p, 0)
}

/// Whether `s` ends with `p`.
pub fn ends_with(s: &[char], p: &[char]) -> (r: bool)
    ensures
        r == has_suffix(s@, p@),
{
    if p.len() > s.len() {
        return false;
    }
    stands_at(s, p, s.len() - p.len())
}

/// The characters of `s` from `i` up to `j`.
pub fn slice(s: &[char], i: usize, j: usize) -> (r: Vec<char>)
    requires
        i <= j <= s@.len(),
    ensures
        r@ == s@.subrange(i as int, j as int),
{
    vstd::slice::slice_to_vec(vstd::slice::slice_subrange(s, i, j))
}

/// The characters of each row.
pub open spec fn rows(v: Seq<Vec<char>>) -> Seq<Seq<char>> {
    v.map_values(|r: Vec<char>| r@)
}

/// The characters of each text.
pub open spec fn texts(v: Seq<String>) -> Seq<Seq<char>> {
    v.map_values(|t: String| t@)
}

/// The pieces of `s` between the occurrences of `sep`.
pub open spec fn split(s: Seq<char>, sep: char) -> Seq<Seq<char>>
    decreases s.len(),
{
    if s.len() == 0 {
        seq![Seq::<char>::empty()]
    } else {
        let p = split(s.drop_last(), sep);
        if s.last() == sep {
            p.push(Seq::empty())
        } else {
            p.drop_last().push(p.last().push(s.last()))
        }
    }
}

/// The pieces of `s` between the occurrences of `sep`.
pub fn split_on(s: &[char], sep: char) -> (r: Vec<Vec<char>>)
    ensures
        rows(r@) == split(s@, sep),
        r@.len() >= 1,
{
    let mut done: Vec<Vec<char>> = Vec::new();
    let mut cur: Vec<char> = Vec::new();
    assert(s@.take(0) =~= Seq::<char>::empty());
    assert(rows(done@).push(cur@) =~= split(s@.take(0), sep));
    for i in 0..s.len()
        invariant
            rows(done@).push(cur@) == split(s@.take(i as int), sep),
    {
        let ghost before = rows(done@);
        let ghost cur0 = cur@;
        assert(s@.take(i + 1).drop_last() =~= s@.take(i as int));
        assert(before.push(cur0).drop_last() =~= before);
        assert(before.push(cur0).last() == cur0);
        if s[i] == sep {
            done.push(cur);
            cur = Vec::new();
            assert(rows(done@) =~= before.push(cur0));
        } else {
            cur.push(s[i]);
        }
        assert(rows(done@).push(cur@) =~= split(s@.take(i + 1), sep));
    }
    assert(s@.take(s@.len() as int) =~= s@);
    let ghost before = rows(done@);
    let ghost cur0 = cur@;
    done.push(cur);
    assert(rows(done@) =~= before.push(cur0));
    done
}

/// A line without the carriage return that may end it.
pub open spec fn without_cr(l: Seq<char>) -> Seq<char> {
    if l.len() > 0 && l.last() == '\r' {
        l.drop_last()
    } else {
        l
    }
}

/// The lines of a text. A line ends at a line feed, which a carriage return may precede; behind the last
/// line feed stands one more line if there is anything.
pub open spec fn lines(s: Seq<char>) -> Seq<Seq<char>> {
    let p = split(s, '\n');
    let ended = p.drop_last().map_values(|l: Seq<char>| without_cr(l));
    if p.last().len() == 0 {
        ended
    } else {
        ended.push(p.last())
    }
}

/// The lines of a text.
pub fn lines_of(s: &[char]) -> (r: Vec<Vec<char>>)
    ensures
        rows(r@) == lines(s@),
{
    let mut pieces = split_on(s, '\n');
    let ghost p = split(s@, '\n');
    let n: usize = pieces.len();
    assert(rows(pieces@).len() == n);
    let mut out: Vec<Vec<char>> = Vec::new();
    let mut i: usize = 0;
    assert(rows(out@) =~= Seq::<Seq<char>>::empty());
    while i + 1 < n
        invariant
            n == pieces@.len(),
            p == rows(pieces@),
            1 <= n,
            i <= n - 1,
            out@.len() == i,
            forall|k: int| 0 <= k < i ==> #[trigger] out@[k]@ == without_cr(p[k]),
        decreases n - i,
    {
        assert(pieces@[i as int]@ == p[i as int]);
        let l: &Vec<char> = &pieces[i];
        let k: usize = l.len();
        if k > 0 && l[k - 1] == '\r' {
            let cut = slice(l, 0, k - 1);
            assert(cut@ =~= p[i as int].drop_last());
            out.push(cut);
        } else {
            let whole = slice(l, 0, k);
            assert(whole@ =~= p[i as int]);
            out.push(whole);
        }
        i = i + 1;
    }
    let last = pieces.pop();
    match last {
        Some(l) => {
            assert(l@ == p.last());
            if l.len() > 0 {
                out.push(l);
            }
        },
        None => {},
    }
    assert(rows(out@) =~= lines(s@));
    out
}

/// Whether a character is white space (the White_Space property of Unicode).
pub open spec fn is_space(c: char) -> bool {
    ||| 9 <= c as int <= 13
    ||| c as int == 32
    ||| c as int == 0x85
    ||| c as int == 0xa0
    ||| c as int == 0x1680
    ||| 0x2000 <= c as int <= 0x200a
    ||| c as int == 0x2028
    ||| c as int == 0x2029
    ||| c as int == 0x202f
    ||| c as int == 0x205f
    ||| c as int == 0x3000
}

/// Whether a character is white space.
pub fn white(c: char) -> (r: bool)
    ensures
        r == is_space(c),
{
    let n: u32 = c as u32;
    (9 <= n && n <= 13) || n == 32 || n == 0x85 || n == 0xa0 || n == 0x1680 || (0x2000 <= n && n <= 0x200a) || n
        == 0x2028 || n == 0x2029 || n == 0x202f || n == 0x205f || n == 0x3000
}

/// `s` without the white space at its beginning.
pub open spec fn trim_left(s: Seq<char>) -> Seq<char>
    decreases s.len(),
{
    if s.len() > 0 && is_space(s[0]) {
        trim_left(s.subrange(1, s.len() as int))
    } else {
        s
    }
}

/// `s` without the white space at its end.
pub open spec fn trim_right(s: Seq<char>) -> Seq<char>
    decreases s.len(),
{
    if s.len() > 0 && is_space(s.last()) {
        trim_right(s.drop_last())
    } else {
        s
    }
}

/// `s` without the white space at either end.
pub open spec fn trim(s: Seq<char>) -> Seq<char> {
    trim_right(trim_left(s))
}

/// `s` without the white space at its end.
pub fn trimmed_right(s: &[char]) -> (r: Vec<char>)
    ensures
        r@ == trim_right(s@),
{
    let mut n: usize = s.len();
    assert(s@.take(s@.len() as int) =~= s@);
    while n > 0 && white(s[n - 1])
        invariant
            n <= s@.len(),
            trim_right(s@) == trim_right(s@.take(n as int)),
        decreases n,
    {
        assert(s@.take(n as int).drop_last() =~= s@.take(n - 1));
        n = n - 1;
    }
    slice(s, 0, n)
}

/// `s` without the white space at either end.
pub fn trimmed(s: &[char]) -> (r: Vec<char>)
    ensures
        r@ == trim(s@),
{
    let mut i: usize = 0;
    assert(s@.subrange(0, s@.len() as int) =~= s@);
    while i < s.len() && white(s[i])
        invariant
            i <= s@.len(),
            trim_left(s@) == trim_left(s@.subrange(i as int, s@.len() as int)),
        decreases s.len() - i,
    {
        let ghost rest = s@.subrange(i as int, s@.len() as int);
        assert(rest.subrange(1, rest.len() as int) =~= s@.subrange(i + 1, s@.len() as int));
        i = i + 1;
    }
    let left = slice(s, i, s.len());
    trimmed_right(&left)
}

/// A letter from A to Z as its small letter; any other character as it is.
pub open spec fn lower(c: char) -> char {
    if 'A' <= c <= 'Z' {
        (c as int + 32) as char
    } else {
        c
    }
}

/// A text with its letters from A to Z made small.
pub open spec fn lowered(s: Seq<char>) -> Seq<char> {
    s.map_values(|c: char| lower(c))
}

/// The small letter of a letter from A to Z.
pub fn small(c: char) -> (r: char)
    ensures
        r == lower(c),
{
    if 'A' <= c && c <= 'Z' {
        (c as u8 + 32) as char
    } else {
        c
    }
}

/// Whether two texts are the same but for the case of the letters from A to Z.
pub fn same_ignoring_case(a: &[char], b: &[char]) -> (r: bool)
    ensures
        r == (lowered(a@) == lowered(b@)),
{
    if a.len() != b.len() {
        assert(lowered(a@).len() != lowered(b@).len());
        return false;
    }
    for i in 0..a.len()
        invariant
            a@.len() == b@.len(),
            forall|j: int| 0 <= j < i ==> lower(a@[j]) == lower(b@[j]),
    {
        if small(a[i]) != small(b[i]) {
            assert(lowered(a@)[i as int] != lowered(b@)[i as int]);
            return false;
        }
    }
    assert(lowered(a@) =~= lowered(b@));
    true
}

/// Where a text is found, it stands, and nowhere before; where it is not found, it stands nowhere.
pub proof fn law_found(s: Seq<char>, p: Seq<char>)
    ensures
        find_in(s, p) is Some ==> {
            let i = find_in(s, p)->0;
            &&& 0 <= i
            &&& i + p.len() <= s.len()
            &&& s.subrange(i, i + p.len()) == p
            &&& forall|j: int| 0 <= j < i ==> #[trigger] s.subrange(j, j + p.len()) != p
        },
        find_in(s, p) is None ==> forall|j: int| 0 <= j && j + p.len() <= s.len() ==> #[trigger] s.subrange(j, j + p.len()) != p,
{
    lemma_found_from(s, p, 0);
}

proof fn lemma_found_from(s: Seq<char>, p: Seq<char>, from: int)
    requires
        0 <= from,
    ensures
        find_from(s, p, from) is Some ==> {
            let i = find_from(s, p, from)->0;
            &&& from <= i
            &&& i + p.len() <= s.len()
            &&& s.subrange(i, i + p.len()) == p
            &&& forall|j: int| from <= j < i ==> #[trigger] s.subrange(j, j + p.len()) != p
        },
        find_from(s, p, from) is None ==> forall|j: int| from <= j && j + p.len() <= s.len() ==> #[trigger] s.subrange(j, j + p.len()) != p,
    decreases s.len() + 1 - from,
{
    if from + p.len() <= s.len() && !has_at(s, p, from) {
        lemma_found_from(s, p, from + 1);
    }
}

/// A text that stands behind `a`, and nowhere before, is found there.
pub proof fn law_found_behind(a: Seq<char>, p: Seq<char>, b: Seq<char>)
    requires
        forall|j: int| 0 <= j < a.len() ==> #[trigger] (a + p + b).subrange(j, j + p.len()) != p,
    ensures
        find_in(a + p + b, p) == Some(a.len() as int),
{
    let s = a + p + b;
    law_found(s, p);
    assert(s.subrange(a.len() as int, (a.len() + p.len()) as int) =~= p);
    if find_in(s, p) is Some {
        let i = find_in(s, p)->0;
        if i < a.len() {
            assert(s.subrange(i, i + p.len()) == p);
        }
    }
}

/// What is left of a text when the white space at its ends is taken off: the part from `i` to `j`, if all before and behind it is white
/// space, and it neither begins nor ends with any.
pub proof fn law_trim(s: Seq<char>, i: int, j: int)
    requires
        0 <= i <= j <= s.len(),
        forall|k: int| 0 <= k < i ==> is_space(#[trigger] s[k]),
        forall|k: int| j <= k < s.len() ==> is_space(#[trigger] s[k]),
        i < j ==> !is_space(s[i]) && !is_space(s[j - 1]),
    ensures
        trim(s) == s.subrange(i, j),
{
    if i < j {
        lemma_trim_left(s, i);
        let t = s.skip(i);
        lemma_trim_right(t, j - i);
        assert(t.take(j - i) =~= s.subrange(i, j));
    } else {
        assert forall|k: int| 0 <= k < s.len() implies is_space(#[trigger] s[k]) by {}
        lemma_trim_left(s, s.len() as int);
        assert(s.skip(s.len() as int) =~= Seq::<char>::empty());
        assert(s.subrange(i, j) =~= Seq::<char>::empty());
    }
}

proof fn lemma_trim_left(s: Seq<char>, i: int)
    requires
        0 <= i <= s.len(),
        forall|k: int| 0 <= k < i ==> is_space(#[trigger] s[k]),
        i < s.len() ==> !is_space(s[i]),
    ensures
        trim_left(s) == s.skip(i),
    decreases i,
{
    if i > 0 {
        let t = s.subrange(1, s.len() as int);
        assert forall|k: int| 0 <= k < i - 1 implies is_space(#[trigger] t[k]) by {
            assert(t[k] == s[k + 1]);
        }
        lemma_trim_left(t, i - 1);
        assert(is_space(s[0]));
        assert(t.skip(i - 1) =~= s.skip(i));
    } else {
        assert(s.skip(0) =~= s);
    }
}

proof fn lemma_trim_right(s: Seq<char>, n: int)
    requires
        0 < n <= s.len(),
        forall|k: int| n <= k < s.len() ==> is_space(#[trigger] s[k]),
        !is_space(s[n - 1]),
    ensures
        trim_right(s) == s.take(n),
    decreases s.len() - n,
{
    if n < s.len() {
        assert(is_space(s[s.len() - 1]));
        lemma_trim_right(s.drop_last(), n);
        assert(s.drop_last().take(n) =~= s.take(n));
    } else {
        assert(s.take(n) =~= s);
    }
}

/// A text without the separator is a single piece.
pub proof fn law_split_one(s: Seq<char>, sep: char)
    requires
        forall|i: int| 0 <= i < s.len() ==> #[trigger] s[i] != sep,
    ensures
        split(s, sep) == seq![s],
    decreases s.len(),
{
    if s.len() > 0 {
        let t = s.drop_last();
        assert forall|i: int| 0 <= i < t.len() implies #[trigger] t[i] != sep by {
            assert(t[i] == s[i]);
        }
        law_split_one(t, sep);
        assert(s[s.len() - 1] != sep);
        assert(split(t, sep).last() == t);
        assert(t.push(s.last()) =~= s);
        assert(split(s, sep) =~= seq![s]);
    } else {
        assert(s =~= Seq::<char>::empty());
    }
}

/// The pieces of two texts with a separator between them are those of the first and then those of the second.
pub proof fn law_split_adds(a: Seq<char>, b: Seq<char>, sep: char)
    ensures
        split(a.push(sep) + b, sep) == split(a, sep) + split(b, sep),
        split(b, sep).len() > 0,
    decreases b.len(),
{
    let s = a.push(sep) + b;
    if b.len() == 0 {
        assert(s =~= a.push(sep));
        assert(s.drop_last() =~= a);
        assert(split(b, sep) =~= seq![Seq::<char>::empty()]);
        assert(split(s, sep) =~= split(a, sep) + split(b, sep));
    } else {
        let c = b.drop_last();
        law_split_adds(a, c, sep);
        assert(s.drop_last() =~= a.push(sep) + c);
        assert(s.last() == b.last());
        let (p, q) = (split(a, sep), split(c, sep));
        assert((p + q).last() == q.last());
        assert((p + q).drop_last() =~= p + q.drop_last());
        assert(split(s, sep) =~= p + split(b, sep));
    }
}

/// The lines of a text: a line up to a line feed comes first, without the carriage return that may end it; behind the last line feed
/// stands one more line if there is anything.
pub proof fn law_lines(a: Seq<char>, b: Seq<char>)
    requires
        forall|i: int| 0 <= i < a.len() ==> #[trigger] a[i] != '\n',
    ensures
        a.len() > 0 ==> lines(a) == seq![a],
        lines(Seq::empty()) == Seq::<Seq<char>>::empty(),
        lines(a.push('\n') + b) == seq![
            if a.len() > 0 && a.last() == '\r' {
                a.drop_last()
            } else {
                a
            },
        ] + lines(b),
{
    law_split_one(a, '\n');
    law_split_adds(a, b, '\n');
    let e = Seq::<char>::empty();
    law_split_one(e, '\n');
    assert(lines(e) =~= Seq::<Seq<char>>::empty());
    if a.len() > 0 {
        assert(seq![a].last() == a);
        assert(lines(a) =~= seq![a]);
    }
    let q = split(b, '\n');
    let p = seq![a] + q;
    assert(split(a.push('\n') + b, '\n') == p);
    assert(p.last() == q.last());
    let first = if a.len() > 0 && a.last() == '\r' {
        a.drop_last()
    } else {
        a
    };
    assert(lines(a.push('\n') + b) =~= seq![first] + lines(b)) by {
        let l = p.drop_last().map_values(|l: Seq<char>| without_cr(l));
        let m = q.drop_last().map_values(|l: Seq<char>| without_cr(l));
        assert(l =~= seq![first] + m);
    }
}

/// How numbers are written: a number below ten is one digit, and behind any other stands the digit of what is left over ten.
pub proof fn law_digits(n: nat, d: int)
    requires
        0 <= d <= 9,
    ensures
        dec(d as nat).len() == 1,
        dec(d as nat)[0] as int == 48 + d,
        n > 0 ==> dec((10 * n + d) as nat).len() == dec(n).len() + 1,
        n > 0 ==> dec((10 * n + d) as nat).last() as int == 48 + d,
        n > 0 ==> dec((10 * n + d) as nat).drop_last() == dec(n),
{
    if n > 0 {
        let m = (10 * n + d) as nat;
        assert(m / 10 == n && m % 10 == d);
        assert(dec(m).drop_last() =~= dec(n));
    }
}

/// What digits are worth: one more digit makes the number ten times as great, and adds what the digit is worth.
pub proof fn law_digits_worth(s: Seq<char>, c: char)
    requires
        '0' <= c <= '9',
    ensures
        dec_value(Seq::empty()) == 0,
        dec_value(s.push(c)) == 10 * dec_value(s) + (c as int - '0' as int),
        is_digit(c),
{
    assert(s.push(c).drop_last() =~= s);
}

/// What is read as a number: digits, at least one and perhaps behind a plus sign, that are worth no more than the most.
pub proof fn law_parsed(s: Seq<char>, max: nat)
    ensures
        s.len() > 0 && (forall|i: int| 0 <= i < s.len() ==> '0' <= #[trigger] s[i] <= '9') && dec_value(s) <= max ==> parsed(s, max) == Some(
            dec_value(s),
        ),
        s.len() > 0 && (forall|i: int| 0 <= i < s.len() ==> '0' <= #[trigger] s[i] <= '9') && dec_value(s) > max ==> parsed(s, max) is None,
        s.len() == 0 ==> parsed(s, max) is None,
        forall|i: int| 0 < i < s.len() && !('0' <= #[trigger] s[i] <= '9') ==> parsed(s, max) is None,
        s.len() > 0 && s[0] != '+' && !('0' <= s[0] <= '9') ==> parsed(s, max) is None,
        s.len() > 0 && '0' <= s[0] <= '9' ==> parsed(seq!['+'] + s, max) == parsed(s, max),
{
    if s.len() > 0 && '0' <= s[0] <= '9' {
        let t = seq!['+'] + s;
        assert(t.subrange(1, t.len() as int) =~= s);
    }
    assert forall|i: int| 0 < i < s.len() && !('0' <= #[trigger] s[i] <= '9') implies parsed(s, max) is None by {
        if s[0] == '+' {
            let t = s.subrange(1, s.len() as int);
            assert(t[i - 1] == s[i]);
            assert(!is_digit(t[i - 1]));
        } else {
            assert(!is_digit(s[i]));
        }
    }
}

/// Capital letters become small ones, and all else stays.
pub proof fn law_lowered(s: Seq<char>, i: int)
    requires
        0 <= i < s.len(),
    ensures
        lowered(s).len() == s.len(),
        'A' <= s[i] <= 'Z' ==> lowered(s)[i] as int == s[i] as int + 32,
        !('A' <= s[i] <= 'Z') ==> lowered(s)[i] == s[i],
{
}

/// A number with leading zeros: it has the width asked for, or more if it needs more, begins with zeros, and goes on with the number.
pub proof fn law_padded(n: nat, width: int, i: int)
    requires
        0 <= i < dec_padded(n, width).len(),
    ensures
        dec(n).len() >= width ==> dec_padded(n, width) == dec(n),
        dec(n).len() < width ==> dec_padded(n, width).len() == width,
        dec(n).len() < width && i < width - dec(n).len() ==> dec_padded(n, width)[i] == '0',
        dec(n).len() < width && i >= width - dec(n).len() ==> dec_padded(n, width)[i] == dec(n)[i - (width - dec(n).len())],
{
    if dec(n).len() >= width {
        assert(dec_padded(n, width) =~= dec(n));
    }
}

/// A text begins with its first characters and ends with its last ones, and with no others of the same number.
pub proof fn law_begins_and_ends(s: Seq<char>, p: Seq<char>)
    ensures
        has_prefix(s, p) <==> p.len() <= s.len() && forall|i: int| 0 <= i < p.len() ==> s[i] == #[trigger] p[i],
        has_suffix(s, p) <==> p.len() <= s.len() && forall|i: int|
            0 <= i < p.len() ==> s[s.len() - p.len() + i] == #[trigger] p[i],
        has_prefix(p + s, p),
        has_suffix(s + p, p),
{
    let n = p.len() as int;
    let k = s.len() - n;
    if n <= s.len() {
        if has_prefix(s, p) {
            assert forall|i: int| 0 <= i < n implies s[i] == #[trigger] p[i] by {
                assert(s.subrange(0, n)[i] == s[i]);
            }
        }
        if forall|i: int| 0 <= i < n ==> s[i] == #[trigger] p[i] {
            assert(s.subrange(0, 0 + n) =~= p);
        }
        if has_suffix(s, p) {
            assert forall|i: int| 0 <= i < n implies s[k + i] == #[trigger] p[i] by {
                assert(s.subrange(k, k + n)[i] == s[k + i]);
            }
        }
        if forall|i: int| 0 <= i < n ==> s[k + i] == #[trigger] p[i] {
            assert(s.subrange(k, k + n) =~= p);
        }
    }
    assert((p + s).subrange(0, 0 + n) =~= p);
    let t = s + p;
    assert(t.subrange(t.len() - n, t.len() - n + n) =~= p);
}

} // verus!
