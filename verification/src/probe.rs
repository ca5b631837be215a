//! Reading what the tool says of a video: its size, its length, its streams.
use crate::fraction::{is_more_than, is_short_by, more_than, only_digits, short_by};
use crate::text::{
    append, chars_of, contains, dec, dec_value, decimal, find, find_in, has_prefix, is_digit, lines, lines_of, lowered, rows,
    same_ignoring_case, slice, starts_with, text_of, texts, trim, trim_right, trimmed, trimmed_right,
};
use vstd::prelude::*;

verus! {

/// Why a video could not be looked into.
#[derive(Debug)]
pub enum ProbeError {
    /// The tool did not start.
    Spawn { bin: String, source: String },
    /// The tool says nothing of a video.
    Inspect { code: i32, stderr: String },
    /// There is no picture in this file.
    NoVideoStream(String),
}

/// A number in decimal, with a sign if it is negative.
pub open spec fn signed(v: i32) -> Seq<char> {
    if v < 0 {
        "-"@ + dec((-(v as int)) as nat)
    } else {
        dec(v as nat)
    }
}

/// What an error says.
pub open spec fn error_text(e: ProbeError) -> Seq<char> {
    match e {
        ProbeError::Spawn { bin, source } => "执行 "@ + bin@ + " 失败: "@ + source@
            + "\n（未找到内置 ffmpeg？在仓库根运行 scripts/fetch_ffmpeg.sh 生成 bin/；\n 已尝试的搜索根见 media::search_roots）"@,
        ProbeError::Inspect { code, stderr } => "无法解析视频（退出码 "@ + signed(code) + "）: "@ + stderr@,
        ProbeError::NoVideoStream(p) => "无视频流: "@ + p@,
    }
}

fn append_signed(s: &mut String, v: i32)
    ensures
        final(s)@ == old(s)@ + signed(v),
{
    let ghost start = s@;
    if v < 0 {
        append(s, "-");
        append(s, decimal((-(v as i64)) as u64).as_str());
        assert(s@ =~= start + signed(v));
    } else {
        append(s, decimal(v as u64).as_str());
    }
}

impl ProbeError {
    /// What the error says.
    pub fn message(&self) -> (s: String)
        ensures
            s@ == error_text(*self),
    {
        let mut s = String::new();
        match self {
            ProbeError::Spawn { bin, source } => {
                append(&mut s, "执行 ");
                append(&mut s, bin.as_str());
                append(&mut s, " 失败: ");
                append(&mut s, source.as_str());
                append(
                    &mut s,
                    "\n（未找到内置 ffmpeg？在仓库根运行 scripts/fetch_ffmpeg.sh 生成 bin/；\n 已尝试的搜索根见 media::search_roots）",
                );
            },
            ProbeError::Inspect { code, stderr } => {
                append(&mut s, "无法解析视频（退出码 ");
                append_signed(&mut s, *code);
                append(&mut s, "）: ");
                append(&mut s, stderr.as_str());
            },
            ProbeError::NoVideoStream(p) => {
                append(&mut s, "无视频流: ");
                append(&mut s, p.as_str());
            },
        }
        assert(s@ =~= error_text(*self));
        s
    }
}

// Pieces of a line.
/// Where the first character at or after `from` stands that is one of `stops`; the end, if there is none.
pub open spec fn stop_from(s: Seq<char>, stops: Seq<char>, from: int) -> int
    decreases s.len() - from,
{
    if from >= s.len() {
        s.len() as int
    } else if stops.contains(s[from]) {
        from
    } else {
        stop_from(s, stops, from + 1)
    }
}

/// Where the first character at or after `from` stands that is none of `stops`; the end, if there is none.
pub open spec fn go_from(s: Seq<char>, stops: Seq<char>, from: int) -> int
    decreases s.len() - from,
{
    if from >= s.len() {
        s.len() as int
    } else if !stops.contains(s[from]) {
        from
    } else {
        go_from(s, stops, from + 1)
    }
}

/// The first piece of a text, which ends before the first of `stops`.
pub open spec fn first_piece(s: Seq<char>, stops: Seq<char>) -> Seq<char> {
    s.take(stop_from(s, stops, 0))
}

/// The first piece of a text between `stops` that is not empty.
pub open spec fn first_word(s: Seq<char>, stops: Seq<char>) -> Seq<char> {
    let i = go_from(s, stops, 0);
    s.subrange(i, stop_from(s, stops, i))
}

fn is_stop(c: char, stops: &[char]) -> (r: bool)
    ensures
        r == stops@.contains(c),
{
    for i in 0..stops.len()
        invariant
            forall|j: int| 0 <= j < i ==> stops@[j] != c,
    {
        if stops[i] == c {
            assert(stops@.contains(stops@[i as int]));
            return true;
        }
    }
    false
}

fn find_stop(s: &[char], stops: &[char], from: usize) -> (r: usize)
    requires
        from <= s@.len(),
    ensures
        r == stop_from(s@, stops@, from as int),
        from <= r <= s@.len(),
{
    assert(s.len() == s@.len());
    let mut i: usize = from;
    while i < s.len()
        invariant
            from <= i <= s@.len(),
            s@.len() <= usize::MAX,
            stop_from(s@, stops@, from as int) == stop_from(s@, stops@, i as int),
        decreases s@.len() - i,
    {
        if is_stop(s[i], stops) {
            return i;
        }
        i = i + 1;
    }
    i
}

fn find_go(s: &[char], stops: &[char], from: usize) -> (r: usize)
    requires
        from <= s@.len(),
    ensures
        r == go_from(s@, stops@, from as int),
        from <= r <= s@.len(),
{
    assert(s.len() == s@.len());
    let mut i: usize = from;
    while i < s.len()
        invariant
            from <= i <= s@.len(),
            s@.len() <= usize::MAX,
            go_from(s@, stops@, from as int) == go_from(s@, stops@, i as int),
        decreases s@.len() - i,
    {
        if !is_stop(s[i], stops) {
            return i;
        }
        i = i + 1;
    }
    i
}

/// What stands behind the first `mark` of a text that holds it.
pub open spec fn behind(s: Seq<char>, mark: Seq<char>) -> Seq<char> {
    s.skip(find_in(s, mark)->0 + mark.len())
}

/// What stands before the first `mark` of a text, or all of it.
pub open spec fn ahead(s: Seq<char>, mark: Seq<char>) -> Seq<char> {
    match find_in(s, mark) {
        Some(i) => s.take(i),
        None => s,
    }
}

fn take_behind(s: &[char], mark: &[char]) -> (r: Vec<char>)
    requires
        find_in(s@, mark@) is Some,
    ensures
        r@ == behind(s@, mark@),
{
    assert(s.len() == s@.len());
    match find(s, mark) {
        Some(i) => {
            let r = slice(s, i + mark.len(), s.len());
            assert(r@ =~= behind(s@, mark@));
            r
        },
        None => Vec::new(),
    }
}

fn take_ahead(s: &[char], mark: &[char]) -> (r: Vec<char>)
    ensures
        r@ == ahead(s@, mark@),
{
    let end: usize = match find(s, mark) {
        Some(i) => i,
        None => s.len(),
    };
    let r = slice(s, 0, end);
    assert(r@ =~= ahead(s@, mark@));
    r
}

// Numbers.
/// Where the digits that begin at `from` end.
pub open spec fn digits_end(s: Seq<char>, from: int) -> int
    decreases s.len() - from,
{
    if from >= s.len() || !is_digit(s[from]) {
        from
    } else {
        digits_end(s, from + 1)
    }
}

/// Where the digits that end before `to` begin.
pub open spec fn digits_start(s: Seq<char>, to: int) -> int
    decreases to,
{
    if to <= 0 || !is_digit(s[to - 1]) {
        to
    } else {
        digits_start(s, to - 1)
    }
}

fn find_digits_end(s: &[char], from: usize) -> (r: usize)
    requires
        from <= s@.len(),
    ensures
        r == digits_end(s@, from as int),
        from <= r <= s@.len(),
{
    assert(s.len() == s@.len());
    let mut i: usize = from;
    while i < s.len() && '0' <= s[i] && s[i] <= '9'
        invariant
            from <= i <= s@.len(),
            s@.len() <= usize::MAX,
            digits_end(s@, from as int) == digits_end(s@, i as int),
        decreases s@.len() - i,
    {
        i = i + 1;
    }
    i
}

fn find_digits_start(s: &[char], to: usize) -> (r: usize)
    requires
        to <= s@.len(),
    ensures
        r == digits_start(s@, to as int),
        r <= to,
{
    let mut i: usize = to;
    while i > 0 && '0' <= s[i - 1] && s[i - 1] <= '9'
        invariant
            i <= to <= s@.len(),
            digits_start(s@, to as int) == digits_start(s@, i as int),
        decreases i,
    {
        i = i - 1;
    }
    i
}

/// Whether what stands from `at` on is nothing, or an exponent: the letter, perhaps a sign, digits.
pub open spec fn exponent_ok(s: Seq<char>, at: int) -> bool {
    if at >= s.len() {
        true
    } else {
        let from = if at + 1 < s.len() && (s[at + 1] == '+' || s[at + 1] == '-') {
            at + 2
        } else {
            at + 1
        };
        (s[at] == 'e' || s[at] == 'E') && from < digits_end(s, from) && digits_end(s, from) == s.len()
    }
}

/// Whether what stands from `from` on is a number without a sign: digits, perhaps with a point among them, and perhaps an
/// exponent.
pub open spec fn unsigned_ok(s: Seq<char>, from: int) -> bool {
    let a = digits_end(s, from);
    if a < s.len() && s[a] == '.' {
        let b = digits_end(s, a + 1);
        (from < a || a + 1 < b) && exponent_ok(s, b)
    } else {
        from < a && exponent_ok(s, a)
    }
}

/// Whether a text is a number in decimal, or one of the words for what is not a finite number.
pub open spec fn number_ok(s: Seq<char>) -> bool {
    let from: int = if s.len() > 0 && (s[0] == '+' || s[0] == '-') {
        1
    } else {
        0
    };
    let t = lowered(s.skip(from));
    t == lowered("inf"@) || t == lowered("infinity"@) || t == lowered("nan"@) || unsigned_ok(s, from)
}

fn is_exponent(s: &[char], at: usize) -> (r: bool)
    requires
        at <= s@.len(),
    ensures
        r == exponent_ok(s@, at as int),
{
    if at >= s.len() {
        return true;
    }
    let from: usize = if s.len() - at > 1 && (s[at + 1] == '+' || s[at + 1] == '-') { at + 2 } else { at + 1 };
    if s[at] != 'e' && s[at] != 'E' {
        return false;
    }
    let end: usize = find_digits_end(s, from);
    from < end && end == s.len()
}

/// Whether a text is a number.
pub fn is_number(s: &[char]) -> (r: bool)
    ensures
        r == number_ok(s@),
{
    let from: usize = if s.len() > 0 && (s[0] == '+' || s[0] == '-') { 1 } else { 0 };
    let t = slice(s, from, s.len());
    assert(t@ =~= s@.skip(from as int));
    if same_ignoring_case(&t, &chars_of("inf")) || same_ignoring_case(&t, &chars_of("infinity"))
        || same_ignoring_case(&t, &chars_of("nan")) {
        return true;
    }
    let a: usize = find_digits_end(s, from);
    if a < s.len() && s[a] == '.' {
        let b: usize = find_digits_end(s, a + 1);
        (from < a || a + 1 < b) && is_exponent(s, b)
    } else {
        from < a && is_exponent(s, a)
    }
}

/// The size that the digits on both sides of position `i` give, at least two on each side, if it is a likely one.
pub open spec fn size_at(s: Seq<char>, i: int) -> Option<(nat, nat)> {
    let digits = i - digits_start(s, i) >= 2 && digits_end(s, i + 1) - (i + 1) >= 2;
    let w = crate::text::parsed(s.subrange(digits_start(s, i), i), 8192);
    let h = crate::text::parsed(s.subrange(i + 1, digits_end(s, i + 1)), 8192);
    if digits && w is Some && h is Some && w->0 >= 2 && h->0 >= 2 {
        Some((w->0, h->0))
    } else {
        None
    }
}

/// The first likely size, at or after position `from`: two numbers with an `x` between them.
pub open spec fn size_from(s: Seq<char>, from: int) -> Option<(nat, nat)>
    decreases s.len() - from,
{
    if from >= s.len() {
        None
    } else if s[from] == 'x' && size_at(s, from) is Some {
        size_at(s, from)
    } else {
        size_from(s, from + 1)
    }
}

/// The first likely size in a line.
pub fn dims_in(s: &[char]) -> (r: Option<(u32, u32)>)
    ensures
        r is Some <==> size_from(s@, 0) is Some,
        r is Some ==> (r->0).0 == (size_from(s@, 0)->0).0 && (r->0).1 == (size_from(s@, 0)->0).1,
        r is Some ==> 2 <= (r->0).0 <= 8192 && 2 <= (r->0).1 <= 8192,
{
    for i in 0..s.len()
        invariant
            size_from(s@, 0) == size_from(s@, i as int),
    {
        assert(s.len() == s@.len());
        if s[i] == 'x' {
            let a: usize = find_digits_start(s, i);
            let b: usize = find_digits_end(s, i + 1);
            let w = crate::text::parse_number(&slice(s, a, i), 8192);
            let h = crate::text::parse_number(&slice(s, i + 1, b), 8192);
            match (w, h) {
                (Some(w), Some(h)) => {
                    if i - a >= 2 && b - (i + 1) >= 2 && w >= 2 && h >= 2 {
                        return Some((w as u32, h as u32));
                    }
                },
                _ => {},
            }
        }
    }
    None
}

/// Where the digits and points that end before `to` begin.
pub open spec fn figures_start(s: Seq<char>, to: int) -> int
    decreases to,
{
    if to <= 0 || !(is_digit(s[to - 1]) || s[to - 1] == '.') {
        to
    } else {
        figures_start(s, to - 1)
    }
}

/// A text without the points at its beginning.
pub open spec fn unpointed_left(s: Seq<char>) -> Seq<char>
    decreases s.len(),
{
    if s.len() > 0 && s[0] == '.' {
        unpointed_left(s.skip(1))
    } else {
        s
    }
}

/// A text without the points at its end.
pub open spec fn unpointed_right(s: Seq<char>) -> Seq<char>
    decreases s.len(),
{
    if s.len() > 0 && s.last() == '.' {
        unpointed_right(s.drop_last())
    } else {
        s
    }
}

/// The number that stands before the first `unit` in a text.
pub open spec fn figures_before(s: Seq<char>, unit: Seq<char>) -> Option<Seq<char>> {
    match find_in(s, unit) {
        None => None,
        Some(i) => {
            let t = trim_right(s.take(i));
            let f = unpointed_right(unpointed_left(t.skip(figures_start(t, t.len() as int))));
            if f.len() > 0 && number_ok(f) {
                Some(f)
            } else {
                None
            }
        },
    }
}

/// The number that stands before the first `unit` in a text.
pub fn number_before(s: &[char], unit: &[char]) -> (r: Option<Vec<char>>)
    ensures
        r is Some <==> figures_before(s@, unit@) is Some,
        r is Some ==> r->0@ == figures_before(s@, unit@)->0,
{
    let i: usize = match find(s, unit) {
        None => {
            return None;
        },
        Some(i) => i,
    };
    let head = slice(s, 0, i);
    assert(head@ =~= s@.take(i as int));
    let t = trimmed_right(&head);
    let mut a: usize = t.len();
    while a > 0 && (('0' <= t[a - 1] && t[a - 1] <= '9') || t[a - 1] == '.')
        invariant
            a <= t@.len(),
            figures_start(t@, t@.len() as int) == figures_start(t@, a as int),
        decreases a,
    {
        a = a - 1;
    }
    let ghost f0 = t@.skip(a as int);
    let mut b: usize = a;
    while b < t.len() && t[b] == '.'
        invariant
            a <= b <= t@.len(),
            unpointed_left(f0) == unpointed_left(t@.skip(b as int)),
        decreases t@.len() - b,
    {
        assert(t@.skip(b as int).skip(1) =~= t@.skip(b + 1));
        b = b + 1;
    }
    let ghost f1 = t@.skip(b as int);
    assert(unpointed_left(f0) == f1);
    let mut c: usize = t.len();
    assert(t@.subrange(b as int, c as int) =~= f1);
    while c > b && t[c - 1] == '.'
        invariant
            b <= c <= t@.len(),
            unpointed_right(f1) == unpointed_right(t@.subrange(b as int, c as int)),
        decreases c,
    {
        assert(t@.subrange(b as int, c as int).drop_last() =~= t@.subrange(b as int, c - 1));
        c = c - 1;
    }
    let f = slice(&t, b, c);
    if f.len() > 0 && is_number(&f) {
        Some(f)
    } else {
        None
    }
}

/// The digits behind the point of a number in decimal.
pub open spec fn behind_point(f: Seq<char>) -> Seq<char> {
    let e = digits_end(f, 0);
    if e < f.len() {
        f.skip(e + 1)
    } else {
        Seq::empty()
    }
}

/// Whether a number in decimal, without a sign, is more than 0 and less than 1000 once it is rounded to double precision: it
/// is more than half of the least such number above 0, and short of 1000 by more than half of the step below 1000.
pub open spec fn likely_rate(f: Seq<char>) -> bool {
    let e = digits_end(f, 0);
    let whole = dec_value(f.take(e));
    let part = behind_point(f);
    &&& e > 0
    &&& only_digits(part)
    &&& whole > 0 || more_than(part, 1075)
    &&& whole < 999 || (whole == 999 && short_by(part, 44))
}

/// The frames per second, in decimal: what a line says of them, or else of the rate of its time base, if that is
/// likely; 30 otherwise.
pub open spec fn rate_in(line: Seq<char>) -> Seq<char> {
    let f = match figures_before(line, "fps"@) {
        Some(f) => Some(f),
        None => figures_before(line, "tbr"@),
    };
    if f is Some && likely_rate(f->0) {
        f->0
    } else {
        "30"@
    }
}

proof fn lemma_digits(s: Seq<char>, from: int)
    requires
        0 <= from <= s.len(),
    ensures
        from <= digits_end(s, from) <= s.len(),
        forall|i: int| from <= i < digits_end(s, from) ==> is_digit(#[trigger] s[i]),
    decreases s.len() - from,
{
    if from < s.len() && is_digit(s[from]) {
        lemma_digits(s, from + 1);
    }
}

fn is_likely_rate(f: &[char]) -> (r: bool)
    ensures
        r == likely_rate(f@),
{
    let e: usize = find_digits_end(f, 0);
    let head = slice(f, 0, e);
    let part = if e < f.len() { slice(f, e + 1, f.len()) } else { Vec::new() };
    proof {
        lemma_digits(f@, 0);
        assert(head@ =~= f@.take(e as int));
        assert(part@ =~= behind_point(f@));
        assert forall|i: int| 0 <= i < head@.len() implies is_digit(#[trigger] head@[i]) by {
            assert(is_digit(f@[i]));
        }
    }
    let whole: u64 = match crate::text::parse_number(&head, 999) {
        Some(n) => n,
        None => {
            return false;
        },
    };
    match is_more_than(&part, 1075) {
        Some(more) => {
            if whole == 0 && !more {
                return false;
            }
        },
        None => {
            return false;
        },
    }
    whole < 999 || is_short_by(&part, 44) == Some(true)
}

fn find_rate(line: &[char]) -> (r: String)
    ensures
        r@ == rate_in(line@),
{
    let f = match number_before(line, &chars_of("fps")) {
        Some(f) => Some(f),
        None => number_before(line, &chars_of("tbr")),
    };
    match f {
        Some(f) => {
            if is_likely_rate(&f) {
                return text_of(&f);
            }
        },
        None => {},
    }
    "30".to_owned()
}

/// The length of a video: hours, minutes and seconds, in decimal.
#[verifier::ext_equal]
pub struct LengthView {
    pub hours: Seq<char>,
    pub minutes: Seq<char>,
    pub seconds: Seq<char>,
}

/// The length of a video: hours, minutes and seconds, in decimal.
#[derive(Debug, Clone)]
pub struct Length {
    pub hours: String,
    pub minutes: String,
    pub seconds: String,
}

impl View for Length {
    type V = LengthView;

    open spec fn view(&self) -> LengthView {
        LengthView { hours: self.hours@, minutes: self.minutes@, seconds: self.seconds@ }
    }
}

/// The length that a line gives, if it gives one.
pub open spec fn length_in(line: Seq<char>) -> Option<LengthView> {
    if find_in(line, "Duration:"@) is None {
        None
    } else {
        let seg = trim(first_piece(behind(line, "Duration:"@), seq![',']));
        let p = crate::text::split(seg, ':');
        if p.len() >= 3 && number_ok(p[0]) && number_ok(p[1]) && number_ok(p[2]) {
            Some(LengthView { hours: p[0], minutes: p[1], seconds: p[2] })
        } else {
            None
        }
    }
}

/// The first length that a line from the `from`-th on gives.
pub open spec fn length_from(l: Seq<Seq<char>>, from: int) -> Option<LengthView>
    decreases l.len() - from,
{
    if from >= l.len() {
        None
    } else if length_in(l[from]) is Some {
        length_in(l[from])
    } else {
        length_from(l, from + 1)
    }
}

fn find_length_in(line: &[char]) -> (r: Option<Length>)
    ensures
        r is Some <==> length_in(line@) is Some,
        r is Some ==> r->0@ == length_in(line@)->0,
{
    let mark = chars_of("Duration:");
    if !contains(line, &mark) {
        return None;
    }
    let rest = take_behind(line, &mark);
    let stops: [char; 1] = [','];
    assert(stops@ =~= seq![',']);
    let end: usize = find_stop(&rest, &stops, 0);
    let head = slice(&rest, 0, end);
    assert(head@ =~= first_piece(rest@, seq![',']));
    let seg = trimmed(&head);
    let p = crate::text::split_on(&seg, ':');
    let ghost q = crate::text::split(seg@, ':');
    assert(q.len() == p@.len());
    if p.len() < 3 {
        return None;
    }
    assert(q[0] == p@[0]@ && q[1] == p@[1]@ && q[2] == p@[2]@);
    if is_number(&p[0]) && is_number(&p[1]) && is_number(&p[2]) {
        Some(Length { hours: text_of(&p[0]), minutes: text_of(&p[1]), seconds: text_of(&p[2]) })
    } else {
        None
    }
}

/// The first line from the `from`-th on that holds `mark`.
pub open spec fn line_with(l: Seq<Seq<char>>, mark: Seq<char>, from: int) -> Option<int>
    decreases l.len() - from,
{
    if from >= l.len() {
        None
    } else if find_in(l[from], mark) is Some {
        Some(from)
    } else {
        line_with(l, mark, from + 1)
    }
}

fn find_line(l: &Vec<Vec<char>>, mark: &[char]) -> (r: Option<usize>)
    ensures
        r is Some <==> line_with(rows(l@), mark@, 0) is Some,
        r is Some ==> r->0 == line_with(rows(l@), mark@, 0)->0 && r->0 < l@.len() && find_in(
            l@[r->0 as int]@,
            mark@,
        ) is Some,
{
    let ghost all = rows(l@);
    for i in 0..l.len()
        invariant
            all == rows(l@),
            line_with(all, mark@, 0) == line_with(all, mark@, i as int),
    {
        assert(all[i as int] == l@[i as int]@);
        if contains(&l[i], mark) {
            return Some(i);
        }
    }
    None
}

/// The name of the encoding of a stream of pictures: the first word behind the mark.
pub open spec fn codec_in(line: Seq<char>) -> Seq<char> {
    first_piece(trim(ahead(behind(line, ": Video:"@), ": Video:"@)), seq![' ', '('])
}

fn find_codec(line: &[char]) -> (r: String)
    requires
        find_in(line@, ": Video:"@) is Some,
    ensures
        r@ == codec_in(line@),
{
    let mark = chars_of(": Video:");
    let t = trimmed(&take_ahead(&take_behind(line, &mark), &mark));
    let stops: [char; 2] = [' ', '('];
    assert(stops@ =~= seq![' ', '(']);
    let end: usize = find_stop(&t, &stops, 0);
    let head = slice(&t, 0, end);
    assert(head@ =~= first_piece(t@, seq![' ', '(']));
    text_of(&head)
}

/// Whether a word names a layout of pixels.
pub open spec fn names_pixels(w: Seq<char>) -> bool {
    has_prefix(w, "yuv"@) || has_prefix(w, "nv12"@) || has_prefix(w, "rgb"@)
}

/// The first piece between commas and spaces, from position `from` on, that names a layout of pixels, without what
/// stands in brackets behind it.
pub open spec fn pixels_from(s: Seq<char>, from: int) -> Option<Seq<char>>
    decreases s.len() + 1 - from,
{
    if from > s.len() || from < 0 {
        None
    } else {
        let end = stop_from(s, seq![',', ' '], from);
        let w = s.subrange(from, end);
        if names_pixels(w) {
            Some(first_piece(w, seq!['(']))
        } else if from <= end < s.len() {
            pixels_from(s, end + 1)
        } else {
            None
        }
    }
}

fn find_pixels(s: &[char]) -> (r: Option<String>)
    ensures
        r is Some <==> pixels_from(s@, 0) is Some,
        r is Some ==> r->0@ == pixels_from(s@, 0)->0,
{
    assert(s.len() == s@.len());
    let stops: [char; 2] = [',', ' '];
    assert(stops@ =~= seq![',', ' ']);
    let bracket: [char; 1] = ['('];
    assert(bracket@ =~= seq!['(']);
    let (yuv, nv12, rgb) = (chars_of("yuv"), chars_of("nv12"), chars_of("rgb"));
    let mut from: usize = 0;
    loop
        invariant
            from <= s@.len(),
            s@.len() <= usize::MAX,
            stops@ == seq![',', ' '],
            bracket@ == seq!['('],
            yuv@ == "yuv"@,
            nv12@ == "nv12"@,
            rgb@ == "rgb"@,
            pixels_from(s@, 0) == pixels_from(s@, from as int),
        decreases s@.len() - from,
    {
        let end: usize = find_stop(s, &stops, from);
        let w = slice(s, from, end);
        if starts_with(&w, &yuv) || starts_with(&w, &nv12) || starts_with(&w, &rgb) {
            let cut: usize = find_stop(&w, &bracket, 0);
            let head = slice(&w, 0, cut);
            assert(head@ =~= first_piece(w@, seq!['(']));
            return Some(text_of(&head));
        }
        if end >= s.len() {
            return None;
        }
        from = end + 1;
    }
}

/// The name of the encoding of a stream of sound: the first word behind the mark; empty, if there is none.
pub open spec fn sound_in(line: Seq<char>) -> Seq<char> {
    first_word(behind(line, ": Audio:"@), seq![' ', '(', ','])
}

/// The names of the encodings of the streams of sound among the first `n` lines.
pub open spec fn sounds(l: Seq<Seq<char>>, n: int) -> Seq<Seq<char>>
    decreases n,
{
    if n <= 0 {
        Seq::empty()
    } else if find_in(l[n - 1], ": Audio:"@) is Some && sound_in(l[n - 1]).len() > 0 {
        sounds(l, n - 1).push(sound_in(l[n - 1]))
    } else {
        sounds(l, n - 1)
    }
}

fn find_sounds(l: &Vec<Vec<char>>) -> (r: Vec<String>)
    ensures
        texts(r@) == sounds(rows(l@), l@.len() as int),
{
    let ghost all = rows(l@);
    let mark = chars_of(": Audio:");
    let stops: [char; 3] = [' ', '(', ','];
    assert(stops@ =~= seq![' ', '(', ',']);
    let mut r: Vec<String> = Vec::new();
    assert(texts(r@) =~= sounds(all, 0));
    for i in 0..l.len()
        invariant
            all == rows(l@),
            mark@ == ": Audio:"@,
            stops@ == seq![' ', '(', ','],
            texts(r@) == sounds(all, i as int),
    {
        assert(all[i as int] == l@[i as int]@);
        if contains(&l[i], &mark) {
            let rest = take_behind(&l[i], &mark);
            let a: usize = find_go(&rest, &stops, 0);
            let b: usize = find_stop(&rest, &stops, a);
            let w = slice(&rest, a, b);
            if w.len() > 0 {
                let ghost before = r@;
                r.push(text_of(&w));
                assert(texts(r@) =~= texts(before).push(w@));
            }
        }
    }
    r
}

/// The angle, in degrees and in decimal, by which the pictures are to be turned.
pub open spec fn turn_in(l: Seq<Seq<char>>) -> Option<Seq<char>> {
    match line_with(l, "Display Matrix: rotation of"@, 0) {
        None => None,
        Some(i) => if find_in(l[i], "rotation of"@) is None {
            None
        } else {
            let t = trim(ahead(behind(l[i], "rotation of"@), "degrees"@));
            if number_ok(t) {
                Some(t)
            } else {
                None
            }
        },
    }
}

fn find_turn(l: &Vec<Vec<char>>) -> (r: Option<String>)
    ensures
        r is Some <==> turn_in(rows(l@)) is Some,
        r is Some ==> r->0@ == turn_in(rows(l@))->0,
{
    let ghost all = rows(l@);
    match find_line(l, &chars_of("Display Matrix: rotation of")) {
        None => None,
        Some(i) => {
            assert(all[i as int] == l@[i as int]@);
            let mark = chars_of("rotation of");
            if !contains(&l[i], &mark) {
                return None;
            }
            let t = trimmed(&take_ahead(&take_behind(&l[i], &mark), &chars_of("degrees")));
            if is_number(&t) {
                Some(text_of(&t))
            } else {
                None
            }
        },
    }
}

/// What the tool says of a video. Numbers that may be fractions are in decimal.
#[derive(Debug, Clone)]
pub struct ProbeText {
    /// The size as it is stored, before the pictures are turned.
    pub width: u32,
    pub height: u32,
    pub fps: String,
    pub codec: String,
    pub pix_fmt: Option<String>,
    pub duration: Option<Length>,
    pub has_audio: bool,
    pub audio_codecs: Vec<String>,
    /// The angle by which the pictures are to be turned, in degrees.
    pub rotation: Option<String>,
}

/// The text, if there is one.
pub open spec fn maybe_text(s: Option<String>) -> Option<Seq<char>> {
    match s {
        Some(t) => Some(t@),
        None => None,
    }
}

/// The length, if there is one.
pub open spec fn maybe_length(s: Option<Length>) -> Option<LengthView> {
    match s {
        Some(t) => Some(t@),
        None => None,
    }
}

/// The last `n` characters of a text.
pub open spec fn tail(s: Seq<char>, n: int) -> Seq<char> {
    if s.len() > n {
        s.skip(s.len() - n)
    } else {
        s
    }
}

/// The last `n` characters of a text.
pub fn tail_of(s: &str, n: usize) -> (r: String)
    ensures
        r@ == tail(s@, n as int),
{
    let c = chars_of(s);
    if c.len() > n {
        let t = slice(&c, c.len() - n, c.len());
        assert(t@ =~= s@.skip(s@.len() - n));
        text_of(&t)
    } else {
        s.to_owned()
    }
}

/// Whether `m` is what the lines `l` say of a video whose stream of pictures is described in line `v`.
pub open spec fn describes(m: ProbeText, l: Seq<Seq<char>>, v: Seq<char>) -> bool {
    &&& size_from(v, 0) == Some((m.width as nat, m.height as nat))
    &&& m.fps@ == rate_in(v)
    &&& m.codec@ == codec_in(v)
    &&& maybe_text(m.pix_fmt) == pixels_from(v, 0)
    &&& maybe_length(m.duration) == length_from(l, 0)
    &&& m.has_audio == (line_with(l, ": Audio:"@, 0) is Some)
    &&& texts(m.audio_codecs@) == sounds(l, l.len() as int)
    &&& maybe_text(m.rotation) == turn_in(l)
}

/// Reads what the tool says of the video at `path`; `code` is what the tool returned when it ended.
pub fn meta_from_ffmpeg_stderr(stderr: &str, path: &str, code: Option<i32>) -> (r: Result<ProbeText, ProbeError>)
    ensures
        ({
            let l = lines(stderr@);
            match line_with(l, ": Video:"@, 0) {
                None => r is Err && r->Err_0 is Inspect && r->Err_0->code == (match code {
                    Some(c) => c as int,
                    None => -1,
                }) && r->Err_0->stderr@ == tail(stderr@, 600),
                Some(i) => if size_from(l[i], 0) is None {
                    r is Err && r->Err_0 is NoVideoStream && r->Err_0->NoVideoStream_0@ == path@
                } else {
                    r is Ok && describes(r->Ok_0, l, l[i])
                },
            }
        }),
{
    let l = lines_of(&chars_of(stderr));
    let ghost all = lines(stderr@);
    assert(rows(l@) == all);
    let v: usize = match find_line(&l, &chars_of(": Video:")) {
        None => {
            let c: i32 = match code {
                Some(c) => c,
                None => -1,
            };
            return Err(ProbeError::Inspect { code: c, stderr: tail_of(stderr, 600) });
        },
        Some(v) => v,
    };
    assert(all[v as int] == l@[v as int]@);
    let (width, height): (u32, u32) = match dims_in(&l[v]) {
        None => {
            return Err(ProbeError::NoVideoStream(path.to_owned()));
        },
        Some(d) => d,
    };
    let mut duration: Option<Length> = None;
    let mut i: usize = 0;
    while i < l.len() && duration.is_none()
        invariant
            i <= l@.len(),
            all == rows(l@),
            duration is None ==> length_from(all, 0) == length_from(all, i as int),
            duration is Some ==> maybe_length(duration) == length_from(all, 0),
        decreases l@.len() - i,
    {
        assert(all[i as int] == l@[i as int]@);
        duration = find_length_in(&l[i]);
        i = i + 1;
    }
    assert(maybe_length(duration) == length_from(all, 0));
    let fps = find_rate(&l[v]);
    let codec = find_codec(&l[v]);
    let pix_fmt = find_pixels(&l[v]);
    let has_audio = find_line(&l, &chars_of(": Audio:")).is_some();
    let audio_codecs = find_sounds(&l);
    let rotation = find_turn(&l);
    Ok(ProbeText { width, height, fps, codec, pix_fmt, duration, has_audio, audio_codecs, rotation })
}

/// Whether pictures that are turned by `turn` degrees lie on their side.
pub open spec fn on_side(turn: int) -> bool {
    45 < turn % 180 < 135
}

/// The size of a video as it is shown, when its pictures are turned by `turn` degrees.
pub fn display_size(width: u32, height: u32, turn: i64) -> (r: (u32, u32))
    requires
        i64::MIN + 180 <= turn,
    ensures
        r == (if on_side(turn as int) {
            (height, width)
        } else {
            (width, height)
        }),
{
    let side: bool = if turn >= 0 {
        45 < turn % 180 && turn % 180 < 135
    } else {
        let back: i64 = (-turn) % 180;
        assert(turn as int % 180 == (if back == 0 {
            0
        } else {
            180 - back
        }));
        back != 0 && 45 < 180 - back && 180 - back < 135
    };
    if side {
        (height, width)
    } else {
        (width, height)
    }
}

/// Half a turn more or less changes nothing.
pub proof fn law_half_turn(turn: int)
    ensures
        on_side(turn) == on_side(turn + 180),
        on_side(turn) == on_side(-turn),
{
}

proof fn lemma_digits_end(s: Seq<char>, from: int, to: int)
    requires
        0 <= from <= to <= s.len(),
        forall|i: int| from <= i < to ==> '0' <= #[trigger] s[i] <= '9',
        to < s.len() ==> !('0' <= s[to] <= '9'),
    ensures
        digits_end(s, from) == to,
    decreases to - from,
{
    if from < to {
        assert('0' <= s[from] <= '9');
        lemma_digits_end(s, from + 1, to);
    }
}

proof fn lemma_digits_start(s: Seq<char>, from: int, to: int)
    requires
        0 <= from <= to <= s.len(),
        forall|i: int| from <= i < to ==> '0' <= #[trigger] s[i] <= '9',
        from > 0 ==> !('0' <= s[from - 1] <= '9'),
    ensures
        digits_start(s, to) == from,
    decreases to - from,
{
    if from < to {
        assert('0' <= s[to - 1] <= '9');
        lemma_digits_start(s, from, to - 1);
    }
}

/// Whether a text is a number in decimal, without a sign, with its point at `p`, or without a point, if that is its end.
pub open spec fn plain(s: Seq<char>, p: int) -> bool {
    &&& 0 < p <= s.len()
    &&& forall|i: int| 0 <= i < p ==> '0' <= #[trigger] s[i] <= '9'
    &&& p < s.len() ==> s[p] == '.' && p + 1 < s.len()
    &&& forall|i: int| p < i < s.len() ==> '0' <= #[trigger] s[i] <= '9'
}

proof fn lemma_plain(s: Seq<char>, p: int)
    requires
        plain(s, p),
    ensures
        number_ok(s),
        digits_end(s, 0) == p,
{
    lemma_digits_end(s, 0, p);
    assert('0' <= s[0] <= '9');
    if p < s.len() {
        lemma_digits_end(s, p + 1, s.len() as int);
    }
    assert(unsigned_ok(s, 0));
}

proof fn lemma_stop(s: Seq<char>, stops: Seq<char>, from: int, to: int)
    requires
        0 <= from <= to <= s.len(),
        forall|i: int| from <= i < to ==> !stops.contains(#[trigger] s[i]),
        to < s.len() ==> stops.contains(s[to]),
    ensures
        stop_from(s, stops, from) == to,
    decreases to - from,
{
    if from < to {
        assert(!stops.contains(s[from]));
        lemma_stop(s, stops, from + 1, to);
    }
}

proof fn lemma_behind(a: Seq<char>, mark: Seq<char>, b: Seq<char>)
    requires
        forall|j: int| 0 <= j < a.len() ==> #[trigger] (a + mark + b).subrange(j, j + mark.len()) != mark,
    ensures
        find_in(a + mark + b, mark) == Some(a.len() as int),
        behind(a + mark + b, mark) == b,
{
    crate::text::law_found_behind(a, mark, b);
    assert(behind(a + mark + b, mark) =~= b);
}

/// A length that stands in a line as hours, minutes and seconds, with colons between them and a comma behind, is read as it stands:
/// the hours first, then the minutes, then the seconds.
pub proof fn law_length_is_read(a: Seq<char>, hours: Seq<char>, minutes: Seq<char>, seconds: Seq<char>, point: int, rest: Seq<char>)
    requires
        plain(hours, hours.len() as int),
        plain(minutes, minutes.len() as int),
        plain(seconds, point),
        ({
            let line = a + "Duration:"@ + (seq![' '] + hours + seq![':'] + minutes + seq![':'] + seconds + seq![','] + rest);
            forall|j: int| 0 <= j < a.len() ==> #[trigger] line.subrange(j, j + "Duration:"@.len()) != "Duration:"@
        }),
    ensures
        ({
            let line = a + "Duration:"@ + (seq![' '] + hours + seq![':'] + minutes + seq![':'] + seconds + seq![','] + rest);
            let r = length_in(line);
            r is Some && r->0.hours == hours && r->0.minutes == minutes && r->0.seconds == seconds
        }),
{
    let b = seq![' '] + hours + seq![':'] + minutes + seq![':'] + seconds + seq![','] + rest;
    let line = a + "Duration:"@ + b;
    lemma_behind(a, "Duration:"@, b);
    let text = hours + seq![':'] + minutes + seq![':'] + seconds;
    let n = 1 + text.len() as int;
    let stops = seq![','];
    assert(b.take(n) =~= seq![' '] + text);
    assert(stops[0] == ',');
    assert forall|i: int| 0 <= i < text.len() implies {
        let c = #[trigger] text[i];
        ('0' <= c <= '9') || c == ':' || c == '.'
    } by {
        let (h, m) = (hours.len() as int, minutes.len() as int);
        if i < h {
            assert(text[i] == hours[i]);
        } else if i == h {
        } else if i < h + 1 + m {
            assert(text[i] == minutes[i - h - 1]);
        } else if i == h + 1 + m {
        } else {
            assert(text[i] == seconds[i - h - m - 2]);
            if i - h - m - 2 == point {
            }
        }
    }
    assert forall|i: int| 0 <= i < n implies !stops.contains(#[trigger] b[i]) by {
        if i > 0 {
            assert(b[i] == text[i - 1]);
        }
    }
    assert(b[n] == ',');
    assert(stops.contains(b[n]));
    lemma_stop(b, stops, 0, n);
    let seg = first_piece(b, stops);
    assert(seg =~= seq![' '] + text);
    assert(seg[1] == text[0]);
    assert(seg[n - 1] == text[n - 2]);
    assert(text[0] == hours[0]);
    assert(text[n - 2] == seconds[seconds.len() - 1]);
    crate::text::law_trim(seg, 1, n);
    assert(seg.subrange(1, n) =~= text);
    assert(trim(seg) == text);
    assert(text =~= hours.push(':') + (minutes.push(':') + seconds));
    crate::text::law_split_adds(hours, minutes.push(':') + seconds, ':');
    crate::text::law_split_adds(minutes, seconds, ':');
    crate::text::law_split_one(hours, ':');
    crate::text::law_split_one(minutes, ':');
    assert forall|i: int| 0 <= i < seconds.len() implies #[trigger] seconds[i] != ':' by {
        if i == point {
        }
    }
    crate::text::law_split_one(seconds, ':');
    let p = crate::text::split(text, ':');
    assert(p =~= seq![hours, minutes, seconds]);
    lemma_plain(hours, hours.len() as int);
    lemma_plain(minutes, minutes.len() as int);
    lemma_plain(seconds, point);
}

/// The length of a video is the one in the first line that gives one.
pub proof fn law_first_length(l: Seq<Seq<char>>, i: int)
    requires
        0 <= i < l.len(),
        length_in(l[i]) is Some,
        forall|j: int| 0 <= j < i ==> length_in(#[trigger] l[j]) is None,
    ensures
        length_from(l, 0) == length_in(l[i]),
{
    lemma_length_from(l, 0, i);
}

proof fn lemma_length_from(l: Seq<Seq<char>>, from: int, i: int)
    requires
        0 <= from <= i < l.len(),
        length_in(l[i]) is Some,
        forall|j: int| from <= j < i ==> length_in(#[trigger] l[j]) is None,
    ensures
        length_from(l, from) == length_in(l[i]),
    decreases i - from,
{
    if from < i {
        lemma_length_from(l, from + 1, i);
    }
}

/// The first line that holds a mark: it holds it, and no line before does; if there is none, no line holds it.
pub proof fn law_first_line(l: Seq<Seq<char>>, mark: Seq<char>)
    ensures
        line_with(l, mark, 0) is Some ==> 0 <= line_with(l, mark, 0)->0 < l.len() && find_in(l[line_with(l, mark, 0)->0], mark) is Some,
        forall|j: int|
            0 <= j < l.len() && find_in(#[trigger] l[j], mark) is Some ==> line_with(l, mark, 0) is Some && line_with(l, mark, 0)->0 <= j,
{
    lemma_line_with(l, mark, 0);
}

proof fn lemma_line_with(l: Seq<Seq<char>>, mark: Seq<char>, from: int)
    requires
        0 <= from,
    ensures
        line_with(l, mark, from) is Some ==> from <= line_with(l, mark, from)->0 < l.len() && find_in(
            l[line_with(l, mark, from)->0],
            mark,
        ) is Some,
        forall|j: int|
            from <= j < l.len() && find_in(#[trigger] l[j], mark) is Some ==> line_with(l, mark, from) is Some && line_with(
                l,
                mark,
                from,
            )->0 <= j,
    decreases l.len() - from,
{
    if from < l.len() && find_in(l[from], mark) is None {
        lemma_line_with(l, mark, from + 1);
    }
}

/// A size that stands in a line as two numbers of at least two digits with an `x` between them is read as it stands, the width first,
/// if both are at least 2 and at most 8192. An `x` before it that has not two digits on its left is passed over.
pub proof fn law_size_is_read(a: Seq<char>, width: Seq<char>, height: Seq<char>, b: Seq<char>)
    requires
        width.len() >= 2,
        height.len() >= 2,
        forall|i: int| 0 <= i < width.len() ==> '0' <= #[trigger] width[i] <= '9',
        forall|i: int| 0 <= i < height.len() ==> '0' <= #[trigger] height[i] <= '9',
        2 <= dec_value(width) <= 8192,
        2 <= dec_value(height) <= 8192,
        a.len() > 0 ==> !('0' <= a.last() <= '9'),
        b.len() > 0 ==> !('0' <= b[0] <= '9'),
        forall|i: int|
            0 <= i < a.len() && #[trigger] a[i] == 'x' ==> i < 2 || !('0' <= a[i - 1] <= '9') || !('0' <= a[i - 2] <= '9'),
    ensures
        size_from(a + width + seq!['x'] + height + b, 0) == Some((dec_value(width), dec_value(height))),
{
    let s = a + width + seq!['x'] + height + b;
    let (p, q) = (a.len() as int, (a.len() + width.len()) as int);
    let e = q + 1 + height.len();
    assert forall|i: int| p <= i < q implies '0' <= #[trigger] s[i] <= '9' by {
        assert(s[i] == width[i - p]);
    }
    assert forall|i: int| q + 1 <= i < e implies '0' <= #[trigger] s[i] <= '9' by {
        assert(s[i] == height[i - q - 1]);
    }
    if p > 0 {
        assert(s[p - 1] == a.last());
    }
    if e < s.len() {
        assert(s[e] == b[0]);
    }
    lemma_digits_start(s, p, q);
    lemma_digits_end(s, q + 1, e);
    assert(s.subrange(p, q) =~= width);
    assert(s.subrange(q + 1, e) =~= height);
    crate::text::law_parsed(width, 8192);
    crate::text::law_parsed(height, 8192);
    assert(size_at(s, q) == Some((dec_value(width), dec_value(height))));
    assert(s[q] == 'x');
    assert forall|i: int| 0 <= i < q && #[trigger] s[i] == 'x' implies size_at(s, i) is None by {
        if i >= p {
            assert('0' <= s[i] <= '9');
        }
        assert(s[i] == a[i]);
        if i >= 2 {
            assert(s[i - 1] == a[i - 1] && s[i - 2] == a[i - 2]);
        }
        lemma_few_digits(s, i);
    }
    lemma_size_from(s, 0, q);
}

proof fn lemma_few_digits(s: Seq<char>, i: int)
    requires
        0 <= i <= s.len(),
        i < 2 || !('0' <= s[i - 1] <= '9') || !('0' <= s[i - 2] <= '9'),
    ensures
        i - digits_start(s, i) < 2,
{
    reveal_with_fuel(digits_start, 3);
}

proof fn lemma_size_from(s: Seq<char>, from: int, q: int)
    requires
        0 <= from <= q < s.len(),
        s[q] == 'x',
        size_at(s, q) is Some,
        forall|i: int| from <= i < q && #[trigger] s[i] == 'x' ==> size_at(s, i) is None,
    ensures
        size_from(s, from) == size_at(s, q),
    decreases q - from,
{
    if from < q {
        lemma_size_from(s, from + 1, q);
    }
}

proof fn lemma_figures_start(s: Seq<char>, from: int, to: int)
    requires
        0 <= from <= to <= s.len(),
        forall|i: int| from <= i < to ==> ('0' <= #[trigger] s[i] <= '9') || s[i] == '.',
        from > 0 ==> !('0' <= s[from - 1] <= '9') && s[from - 1] != '.',
    ensures
        figures_start(s, to) == from,
    decreases to - from,
{
    if from < to {
        assert(('0' <= s[to - 1] <= '9') || s[to - 1] == '.');
        lemma_figures_start(s, from, to - 1);
    }
}

/// A number that stands before the first unit in a line, with a space between them, is read as it stands.
pub proof fn law_number_is_read(a: Seq<char>, number: Seq<char>, point: int, unit: Seq<char>, b: Seq<char>)
    requires
        plain(number, point),
        a.len() > 0 ==> !('0' <= a.last() <= '9') && a.last() != '.',
        ({
            let head = a + number + seq![' '];
            forall|j: int| 0 <= j < head.len() ==> #[trigger] (head + unit + b).subrange(j, j + unit.len()) != unit
        }),
    ensures
        figures_before(a + number + seq![' '] + unit + b, unit) == Some(number),
{
    let head = a + number + seq![' '];
    let s = head + unit + b;
    crate::text::law_found_behind(head, unit, b);
    assert(s.take(head.len() as int) =~= head);
    let t = a + number;
    let n = t.len() as int;
    assert(number[number.len() - 1] == t[n - 1]);
    assert(head.drop_last() =~= t);
    assert(trim_right(head) == t) by {
        reveal_with_fuel(crate::text::trim_right, 2);
        assert(head.last() == ' ');
        assert(t.last() == number.last());
        assert('0' <= number[number.len() - 1] <= '9');
    }
    assert forall|i: int| a.len() <= i < n implies ('0' <= #[trigger] t[i] <= '9') || t[i] == '.' by {
        assert(t[i] == number[i - a.len()]);
        if i - a.len() == point {
        }
    }
    if a.len() > 0 {
        assert(t[a.len() - 1] == a.last());
    }
    lemma_figures_start(t, a.len() as int, n);
    assert(t.skip(a.len() as int) =~= number);
    assert('0' <= number[0] <= '9');
    lemma_plain(number, point);
}

/// The frames per second: the number before `fps`, or else before `tbr`, if it is a likely one; 30 otherwise.
pub proof fn law_rate(line: Seq<char>)
    ensures
        figures_before(line, "fps"@) is Some && likely_rate(figures_before(line, "fps"@)->0) ==> rate_in(line) == figures_before(
            line,
            "fps"@,
        )->0,
        figures_before(line, "fps"@) is None && figures_before(line, "tbr"@) is Some && likely_rate(figures_before(line, "tbr"@)->0)
            ==> rate_in(line) == figures_before(line, "tbr"@)->0,
        figures_before(line, "fps"@) is Some && !likely_rate(figures_before(line, "fps"@)->0) ==> rate_in(line) == "30"@,
        figures_before(line, "fps"@) is None && figures_before(line, "tbr"@) is None ==> rate_in(line) == "30"@,
{
}

/// Which rates are likely: those from 1 up to 998 and some, and 999 without a fraction; not 1000 or more, and not zero.
pub proof fn law_likely_rate(f: Seq<char>, point: int)
    requires
        plain(f, point),
    ensures
        0 < dec_value(f.take(point)) < 999 ==> likely_rate(f),
        dec_value(f.take(point)) == 999 && point == f.len() ==> likely_rate(f),
        dec_value(f.take(point)) >= 1000 ==> !likely_rate(f),
        dec_value(f.take(point)) == 0 && point == f.len() ==> !likely_rate(f),
{
    lemma_plain(f, point);
    let part = behind_point(f);
    assert forall|i: int| 0 <= i < part.len() implies is_digit(#[trigger] part[i]) by {
        assert(part[i] == f[point + 1 + i]);
    }
    if point == f.len() {
        assert(part =~= Seq::<char>::empty());
        assert(dec_value(part) == 0);
        assert(crate::fraction::tens(0) == 1);
        assert(crate::fraction::twos(44) > 1) by {
            reveal_with_fuel(crate::fraction::twos, 46);
        }
        assert((1 - 0) * crate::fraction::twos(44) == crate::fraction::twos(44));
        assert(0 * crate::fraction::twos(1075) == 0);
    }
}

/// The name of the encoding of the pictures is what stands behind the mark and a space, up to the next space or bracket.
pub proof fn law_codec_is_read(a: Seq<char>, name: Seq<char>, stop: char, rest: Seq<char>)
    requires
        name.len() > 0,
        stop == ' ' || stop == '(',
        forall|i: int| 0 <= i < name.len() ==> #[trigger] name[i] != ' ' && name[i] != '(' && !crate::text::is_space(name[i]),
        ({
            let b = seq![' '] + name + seq![stop] + rest;
            let line = a + ": Video:"@ + b;
            &&& forall|j: int| 0 <= j < a.len() ==> #[trigger] line.subrange(j, j + ": Video:"@.len()) != ": Video:"@
            &&& find_in(b, ": Video:"@) is None
            &&& rest.len() > 0
            &&& !crate::text::is_space(rest.last())
        }),
    ensures
        codec_in(a + ": Video:"@ + (seq![' '] + name + seq![stop] + rest)) == name,
{
    let b = seq![' '] + name + seq![stop] + rest;
    lemma_behind(a, ": Video:"@, b);
    let n = b.len() as int;
    assert(b[1] == name[0]);
    assert(b[n - 1] == rest.last());
    crate::text::law_trim(b, 1, n);
    let t = b.subrange(1, n);
    let stops = seq![' ', '('];
    assert(stops[0] == ' ' && stops[1] == '(');
    assert forall|i: int| 0 <= i < name.len() implies !stops.contains(#[trigger] t[i]) by {
        assert(t[i] == name[i]);
    }
    assert(t[name.len() as int] == stop);
    lemma_stop(t, stops, 0, name.len() as int);
    assert(t.take(name.len() as int) =~= name);
}

/// The names of the encodings of the sound are, in the order of the lines, the first words behind the mark; words are parted by
/// spaces, brackets and commas.
pub proof fn law_sounds(l: Seq<Seq<char>>, n: int, a: Seq<char>, name: Seq<char>, stop: char, rest: Seq<char>)
    requires
        0 <= n < l.len(),
        name.len() > 0,
        stop == ' ' || stop == '(' || stop == ',',
        forall|i: int| 0 <= i < name.len() ==> #[trigger] name[i] != ' ' && name[i] != '(' && name[i] != ',',
    ensures
        ({
            let b = seq![' '] + name + seq![stop] + rest;
            let line = a + ": Audio:"@ + b;
            l[n] == line && (forall|j: int| 0 <= j < a.len() ==> #[trigger] line.subrange(j, j + ": Audio:"@.len()) != ": Audio:"@)
                ==> sounds(l, n + 1) == sounds(l, n).push(name)
        }),
        find_in(l[n], ": Audio:"@) is None ==> sounds(l, n + 1) == sounds(l, n),
        sounds(l, 0) == Seq::<Seq<char>>::empty(),
{
    let b = seq![' '] + name + seq![stop] + rest;
    let line = a + ": Audio:"@ + b;
    if l[n] == line && (forall|j: int| 0 <= j < a.len() ==> #[trigger] line.subrange(j, j + ": Audio:"@.len()) != ": Audio:"@) {
        lemma_behind(a, ": Audio:"@, b);
        let stops = seq![' ', '(', ','];
        assert(stops[0] == ' ' && stops[1] == '(' && stops[2] == ',');
        assert(b[0] == ' ' && stops.contains(b[0]));
        assert(b[1] == name[0]);
        assert(!stops.contains(b[1]));
        assert(go_from(b, stops, 0) == 1) by {
            reveal_with_fuel(go_from, 3);
        }
        let e = 1 + name.len() as int;
        assert forall|i: int| 1 <= i < e implies !stops.contains(#[trigger] b[i]) by {
            assert(b[i] == name[i - 1]);
        }
        assert(b[e] == stop);
        lemma_stop(b, stops, 1, e);
        assert(b.subrange(1, e) =~= name);
    }
}

/// The angle by which the pictures are turned is what stands between the mark and the word behind it, without the white space around
/// it, in the first line with the mark.
pub proof fn law_turn_is_read(l: Seq<Seq<char>>, i: int, a: Seq<char>, angle: Seq<char>, point: int, rest: Seq<char>)
    requires
        line_with(l, "Display Matrix: rotation of"@, 0) == Some(i),
        plain(angle, point),
        ({
            let head = seq![' '] + angle + seq![' '];
            let b = head + "degrees"@ + rest;
            &&& l[i] == a + "rotation of"@ + b
            &&& forall|j: int| 0 <= j < a.len() ==> #[trigger] l[i].subrange(j, j + "rotation of"@.len()) != "rotation of"@
            &&& forall|j: int| 0 <= j < head.len() ==> #[trigger] b.subrange(j, j + "degrees"@.len()) != "degrees"@
        }),
    ensures
        turn_in(l) == Some(angle),
{
    let head = seq![' '] + angle + seq![' '];
    let b = head + "degrees"@ + rest;
    lemma_behind(a, "rotation of"@, b);
    crate::text::law_found_behind(head, "degrees"@, rest);
    assert(b.take(head.len() as int) =~= head);
    let n = angle.len() as int;
    assert(head[1] == angle[0] && head[n] == angle[n - 1]);
    assert('0' <= angle[0] <= '9');
    assert('0' <= angle[n - 1] <= '9');
    crate::text::law_trim(head, 1, n + 1);
    assert(head.subrange(1, n + 1) =~= angle);
    lemma_plain(angle, point);
}

/// The layout of the pixels is the first piece between commas and spaces that begins as one of the known layouts do, up to a bracket.
pub proof fn law_pixels_are_read(s: Seq<char>, from: int, end: int)
    requires
        0 <= from <= end <= s.len(),
        forall|i: int| from <= i < end ==> #[trigger] s[i] != ',' && s[i] != ' ',
        end < s.len() ==> s[end] == ',' || s[end] == ' ',
    ensures
        ({
            let w = s.subrange(from, end);
            let known = has_prefix(w, "yuv"@) || has_prefix(w, "nv12"@) || has_prefix(w, "rgb"@);
            &&& !known && end < s.len() ==> pixels_from(s, from) == pixels_from(s, end + 1)
            &&& !known && end == s.len() ==> pixels_from(s, from) is None
            &&& known && (forall|i: int| 0 <= i < w.len() ==> #[trigger] w[i] != '(') ==> pixels_from(s, from) == Some(w)
            &&& forall|p: int|
                known && 0 <= p < w.len() && #[trigger] w[p] == '(' && (forall|i: int| 0 <= i < p ==> #[trigger] w[i] != '(')
                    ==> pixels_from(s, from) == Some(w.take(p))
        }),
{
    let stops = seq![',', ' '];
    assert(stops[0] == ',' && stops[1] == ' ');
    assert forall|i: int| from <= i < end implies !stops.contains(#[trigger] s[i]) by {}
    lemma_stop(s, stops, from, end);
    let w = s.subrange(from, end);
    let bracket = seq!['('];
    assert(bracket[0] == '(');
    if forall|i: int| 0 <= i < w.len() ==> #[trigger] w[i] != '(' {
        lemma_stop(w, bracket, 0, w.len() as int);
        assert(w.take(w.len() as int) =~= w);
    }
    assert forall|p: int| 0 <= p < w.len() && #[trigger] w[p] == '(' && (forall|i: int| 0 <= i < p ==> #[trigger] w[i] != '(') implies first_piece(
        w,
        bracket,
    ) == w.take(p) by {
        lemma_stop(w, bracket, 0, p);
    }
}

/// What is said of a video is what its lines say: the size, the rate, the encoding and the layout are those of the line of the
/// pictures, the rest is that of all lines.
pub proof fn law_described(m: ProbeText, l: Seq<Seq<char>>, v: Seq<char>)
    requires
        describes(m, l, v),
    ensures
        size_from(v, 0) is Some && (size_from(v, 0)->0).0 == m.width && (size_from(v, 0)->0).1 == m.height,
        m.fps@ == rate_in(v),
        m.codec@ == codec_in(v),
        m.pix_fmt is Some <==> pixels_from(v, 0) is Some,
        m.pix_fmt is Some ==> m.pix_fmt->0@ == pixels_from(v, 0)->0,
        m.duration is Some <==> length_from(l, 0) is Some,
        m.duration is Some ==> m.duration->0.hours@ == length_from(l, 0)->0.hours && m.duration->0.minutes@ == length_from(l, 0)->0.minutes
            && m.duration->0.seconds@ == length_from(l, 0)->0.seconds,
        m.has_audio <==> exists|i: int| 0 <= i < l.len() && find_in(#[trigger] l[i], ": Audio:"@) is Some,
        m.audio_codecs@.len() == sounds(l, l.len() as int).len(),
        forall|i: int| 0 <= i < m.audio_codecs@.len() ==> (#[trigger] m.audio_codecs@[i])@ == sounds(l, l.len() as int)[i],
        m.rotation is Some <==> turn_in(l) is Some,
        m.rotation is Some ==> m.rotation->0@ == turn_in(l)->0,
{
    law_first_line(l, ": Audio:"@);
    assert forall|i: int| 0 <= i < m.audio_codecs@.len() implies (#[trigger] m.audio_codecs@[i])@ == sounds(l, l.len() as int)[i] by {
        assert(texts(m.audio_codecs@)[i] == m.audio_codecs@[i]@);
    }
}

/// The size that is shown: width and height change places if the pictures are turned by a quarter, and stay if they are not turned
/// or turned by a half.
pub proof fn law_quarter_turn(k: int)
    ensures
        on_side(180 * k + 90),
        on_side(180 * k - 90),
        !on_side(180 * k),
        forall|d: int| -44 <= d <= 44 ==> #[trigger] on_side(180 * k + 90 + d),
        forall|d: int| -45 <= d <= 45 ==> !#[trigger] on_side(180 * k + d),
{
}

/// The first word of a text: what stands between the stops before it, however many, and the next stop or the end.
pub proof fn law_first_word(before: Seq<char>, word: Seq<char>, rest: Seq<char>, stops: Seq<char>)
    requires
        forall|i: int| 0 <= i < before.len() ==> stops.contains(#[trigger] before[i]),
        word.len() > 0,
        forall|i: int| 0 <= i < word.len() ==> !stops.contains(#[trigger] word[i]),
        rest.len() == 0 || stops.contains(rest[0]),
    ensures
        first_word(before + word + rest, stops) == word,
{
    let s = before + word + rest;
    let i = before.len() as int;
    let e = i + word.len();
    assert forall|k: int| 0 <= k < i implies stops.contains(#[trigger] s[k]) by {
        assert(s[k] == before[k]);
    }
    assert(s[i] == word[0]);
    lemma_go(s, stops, 0, i);
    assert forall|k: int| i <= k < e implies !stops.contains(#[trigger] s[k]) by {
        assert(s[k] == word[k - i]);
    }
    if rest.len() > 0 {
        assert(s[e] == rest[0]);
    }
    lemma_stop(s, stops, i, e);
    assert(s.subrange(i, e) =~= word);
}

proof fn lemma_go(s: Seq<char>, stops: Seq<char>, from: int, i: int)
    requires
        0 <= from <= i < s.len(),
        forall|k: int| from <= k < i ==> stops.contains(#[trigger] s[k]),
        !stops.contains(s[i]),
    ensures
        go_from(s, stops, from) == i,
    decreases i - from,
{
    if from < i {
        assert(stops.contains(s[from]));
        lemma_go(s, stops, from + 1, i);
    }
}

/// The points around a number are taken off, however many there are on either side, and those within it stay.
pub proof fn law_unpointed(a: Seq<char>, number: Seq<char>, b: Seq<char>)
    requires
        forall|i: int| 0 <= i < a.len() ==> #[trigger] a[i] == '.',
        forall|i: int| 0 <= i < b.len() ==> #[trigger] b[i] == '.',
        number.len() > 0 ==> number[0] != '.' && number.last() != '.',
        number.len() == 0 ==> b.len() == 0,
    ensures
        unpointed_right(unpointed_left(a + number + b)) == number,
    decreases a.len() + b.len(),
{
    let s = a + number + b;
    if a.len() > 0 {
        let t = a.skip(1);
        assert(s[0] == a[0]);
        assert(s.skip(1) =~= t + number + b);
        law_unpointed(t, number, b);
    } else if b.len() > 0 {
        let t = b.drop_last();
        assert(s[0] == number[0]);
        assert(s.last() == b[b.len() - 1]);
        assert(s.drop_last() =~= a + number + t);
        assert((a + number + t)[0] == number[0]);
        law_unpointed(a, number, t);
    } else {
        assert(s =~= number);
    }
}

} // verus!
