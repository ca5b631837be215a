//! The tools that take videos apart and put them together: where they are, which of their ways of working suit the
//! machine, and how they are called.
use crate::paths::{join, joined, route_of, Route};
use crate::text::{
    append, chars_of, contains, dec, decimal, ends_with, find_in, has_prefix, has_suffix, lines, lines_of, lowered,
    rows, same, same_ignoring_case, slice, starts_with, text_of, texts, trim, trimmed,
};
use vstd::prelude::*;

pub use crate::color::{nv12_to_rgba, nv12_to_rgba_scaled, rgb_to_nv12};
pub use crate::jpeg::{jpeg_to_nv12, JpegFrameScanner};
pub use crate::paths::roots_from;
pub use crate::probe::{ProbeError, ProbeText};

verus! {

/// The system that the program runs on, as far as it matters here.
#[derive(Debug, Clone, Copy, PartialEq, Eq, Structural)]
pub enum Platform {
    MacOs,
    Windows,
    /// Linux and its kin.
    Unix,
    Other,
}

/// The texts of a list.
pub open spec fn strs(s: Seq<&'static str>) -> Seq<Seq<char>> {
    s.map_values(|t: &'static str| t@)
}

/// The texts of a list some of whose places are empty.
pub open spec fn maybe_strs(s: Seq<Option<&'static str>>) -> Seq<Option<Seq<char>>> {
    s.map_values(|t: Option<&'static str>| maybe(t))
}

/// The text, if there is one.
pub open spec fn maybe(t: Option<&str>) -> Option<Seq<char>> {
    match t {
        Some(s) => Some(s@),
        None => None,
    }
}

/// Appends a word to a command.
pub fn word(c: &mut Vec<String>, w: &str)
    ensures
        texts(final(c)@) == texts(old(c)@).push(w@),
{
    let ghost before = c@;
    c.push(w.to_owned());
    assert(texts(c@) =~= texts(before).push(w@));
}

/// Whether a text that may be missing is `b`.
fn is_text(a: Option<&str>, b: &str) -> (r: bool)
    ensures
        r == (maybe(a) == Some(b@)),
{
    match a {
        Some(s) => same(s, b),
        None => false,
    }
}

// Where the tools are.
/// The file name of a tool.
pub open spec fn tool_name(platform: Platform, tool: Seq<char>) -> Seq<char> {
    if platform == Platform::Windows {
        tool + ".exe"@
    } else {
        tool
    }
}

/// The places under the first `n` roots where a tool may be: the root itself, the directory of tools for this kind of
/// machine, and the resources of a bundle.
pub open spec fn places(platform: Platform, roots: Seq<Seq<char>>, machine: Seq<char>, name: Seq<char>, n: int) -> Seq<Seq<char>>
    decreases n,
{
    if n <= 0 {
        Seq::empty()
    } else {
        places(platform, roots, machine, name, n - 1) + seq![
            joined(platform, roots[n - 1], name),
            joined(platform, roots[n - 1], joined(platform, joined(platform, "bin"@, machine), name)),
            joined(platform, joined(platform, roots[n - 1], "Resources"@), name),
        ]
    }
}

/// The places where a tool may be, the likeliest first: the directory that the user names, the roots, and wherever the
/// system finds it.
pub open spec fn tool_places(
    platform: Platform,
    named: Option<Seq<char>>,
    roots: Seq<Seq<char>>,
    machine: Seq<char>,
    name: Seq<char>,
) -> Seq<Seq<char>> {
    let first = match named {
        Some(d) => seq![joined(platform, d, name)],
        None => Seq::empty(),
    };
    (first + places(platform, roots, machine, name, roots.len() as int)).push(name)
}

/// The places where a tool may be, the likeliest first.
pub fn tool_candidates(
    platform: Platform,
    machine: &str,
    named: Option<&str>,
    roots: &Vec<String>,
    tool: &str,
) -> (c: Vec<String>)
    ensures
        texts(c@) == tool_places(platform, maybe(named), texts(roots@), machine@, tool_name(platform, tool@)),
        c@.len() > 0,
        c@.last()@ == tool_name(platform, tool@),
{
    let mut name = tool.to_owned();
    if platform == Platform::Windows {
        append(&mut name, ".exe");
    }
    let ghost nm = tool_name(platform, tool@);
    assert(name@ == nm);
    let mut c: Vec<String> = Vec::new();
    let ghost first = match maybe(named) {
        Some(d) => seq![joined(platform, d, nm)],
        None => Seq::empty(),
    };
    match named {
        Some(d) => {
            c.push(join(platform, d, name.as_str()));
        },
        None => {},
    }
    assert(texts(c@) =~= first);
    let bundled = join(platform, join(platform, "bin", machine).as_str(), name.as_str());
    assert(texts(c@) =~= first + places(platform, texts(roots@), machine@, nm, 0));
    for i in 0..roots.len()
        invariant
            name@ == nm,
            bundled@ == joined(platform, joined(platform, "bin"@, machine@), nm),
            texts(c@) == first + places(platform, texts(roots@), machine@, nm, i as int),
    {
        let ghost before = c@;
        assert(texts(roots@)[i as int] == roots@[i as int]@);
        c.push(join(platform, roots[i].as_str(), name.as_str()));
        c.push(join(platform, roots[i].as_str(), bundled.as_str()));
        c.push(join(platform, join(platform, roots[i].as_str(), "Resources").as_str(), name.as_str()));
        assert(texts(c@) =~= texts(before) + seq![
            joined(platform, texts(roots@)[i as int], nm),
            joined(platform, texts(roots@)[i as int], joined(platform, joined(platform, "bin"@, machine@), nm)),
            joined(platform, joined(platform, texts(roots@)[i as int], "Resources"@), nm),
        ]);
        assert(texts(c@) =~= first + places(platform, texts(roots@), machine@, nm, i + 1));
    }
    let ghost before = c@;
    c.push(name);
    assert(texts(c@) =~= texts(before).push(nm));
    c
}

/// The first of the given places where something is.
pub open spec fn first_true(present: Seq<bool>, from: int) -> Option<int>
    decreases present.len() - from,
{
    if from >= present.len() {
        None
    } else if present[from] {
        Some(from)
    } else {
        first_true(present, from + 1)
    }
}

/// The first place where something is.
pub fn first_present(present: &Vec<bool>) -> (r: Option<usize>)
    ensures
        r is Some <==> first_true(present@, 0) is Some,
        r is Some ==> r->0 == first_true(present@, 0)->0 && r->0 < present@.len(),
{
    for i in 0..present.len()
        invariant
            first_true(present@, 0) == first_true(present@, i as int),
    {
        if present[i] {
            return Some(i);
        }
    }
    None
}

/// The path of a tool: the first of the places where it may be that is a file, or its name alone.
pub fn tool_path(candidates: &Vec<String>, is_file: &Vec<bool>) -> (p: String)
    requires
        candidates@.len() > 0,
        is_file@.len() == candidates@.len(),
    ensures
        p@ == (match first_true(is_file@, 0) {
            Some(i) => candidates@[i]@,
            None => candidates@.last()@,
        }),
{
    match first_present(is_file) {
        Some(i) => candidates[i].clone(),
        None => candidates[candidates.len() - 1].clone(),
    }
}

// What the tools can do.
/// The lines from the `from`-th on, without the space around them; empty ones are left out.
pub open spec fn entries(l: Seq<Seq<char>>, from: int, n: int) -> Seq<Seq<char>>
    decreases n - from,
{
    if n <= from {
        Seq::empty()
    } else if trim(l[n - 1]).len() == 0 {
        entries(l, from, n - 1)
    } else {
        entries(l, from, n - 1).push(trim(l[n - 1]))
    }
}

/// The ways of decoding that a tool lists: one to a line, below a headline.
pub fn list_hwaccels(output: &str) -> (r: Vec<String>)
    ensures
        texts(r@) == entries(lines(output@), 1, lines(output@).len() as int),
{
    let l = lines_of(&chars_of(output));
    let ghost all = lines(output@);
    let mut r: Vec<String> = Vec::new();
    assert(texts(r@) =~= entries(all, 1, 0));
    assert(texts(r@) =~= entries(all, 1, 1));
    let n: usize = l.len();
    let mut i: usize = 1;
    while i < n
        invariant
            n == l@.len(),
            1 <= i,
            i <= n || n == 0 && i == 1,
            all == rows(l@),
            texts(r@) == entries(all, 1, i as int),
        decreases n - i,
    {
        assert(all[i as int] == l@[i as int]@);
        let t = trimmed(&l[i]);
        if t.len() > 0 {
            let ghost before = r@;
            r.push(text_of(&t));
            assert(texts(r@) =~= texts(before).push(t@));
        }
        i = i + 1;
    }
    assert(entries(all, 1, n as int) == texts(r@));
    r
}

/// The words of a line: what stands between white space.
pub open spec fn words(s: Seq<char>) -> Seq<Seq<char>>
    decreases s.len(),
{
    if s.len() == 0 {
        Seq::empty()
    } else if crate::text::is_space(s.last()) {
        words(s.drop_last())
    } else if s.len() == 1 || crate::text::is_space(s[s.len() - 2]) {
        words(s.drop_last()).push(seq![s.last()])
    } else {
        let w = words(s.drop_last());
        w.drop_last().push(w.last().push(s.last()))
    }
}

proof fn lemma_words_some(s: Seq<char>)
    requires
        s.len() > 0,
        !crate::text::is_space(s.last()),
    ensures
        words(s).len() > 0,
    decreases s.len(),
{
}

/// The words of a line.
pub fn words_of(s: &[char]) -> (r: Vec<Vec<char>>)
    ensures
        rows(r@) == words(s@),
{
    let mut r: Vec<Vec<char>> = Vec::new();
    assert(s@.take(0) =~= Seq::<char>::empty());
    assert(rows(r@) =~= words(s@.take(0)));
    for i in 0..s.len()
        invariant
            rows(r@) == words(s@.take(i as int)),
    {
        let c: char = s[i];
        let ghost t = s@.take(i + 1);
        assert(t.drop_last() =~= s@.take(i as int));
        assert(t.last() == c);
        let ghost before = r@;
        if !crate::text::white(c) {
            if i == 0 || crate::text::white(s[i - 1]) {
                let mut w: Vec<char> = Vec::new();
                w.push(c);
                r.push(w);
                assert(w@ =~= seq![c]);
                assert(rows(r@) =~= rows(before).push(seq![c]));
            } else {
                proof {
                    lemma_words_some(s@.take(i as int));
                }
                let n: usize = r.len();
                let mut w = r.pop().unwrap();
                let ghost was = w@;
                w.push(c);
                r.push(w);
                assert(rows(r@) =~= rows(before).drop_last().push(was.push(c)));
                assert(rows(before).last() == was);
            }
        }
    }
    assert(s@.take(s@.len() as int) =~= s@);
    r
}

/// Whether the second word of a line is `name`.
pub open spec fn second_word_is(l: Seq<char>, name: Seq<char>) -> bool {
    words(l).len() >= 2 && words(l)[1] == name
}

/// Whether a tool lists an encoder: its name is the second word of a line.
pub fn has_encoder(output: &str, name: &str) -> (r: bool)
    ensures
        r == exists|i: int| 0 <= i < lines(output@).len() && second_word_is(#[trigger] lines(output@)[i], name@),
{
    let l = lines_of(&chars_of(output));
    let ghost all = lines(output@);
    let want = chars_of(name);
    for i in 0..l.len()
        invariant
            all == rows(l@),
            all == lines(output@),
            want@ == name@,
            forall|j: int| 0 <= j < i ==> !second_word_is(#[trigger] all[j], name@),
    {
        assert(all[i as int] == l@[i as int]@);
        let w = words_of(&l[i]);
        if w.len() >= 2 {
            assert(words(all[i as int])[1] == w@[1]@);
            if crate::text::same_chars(&w[1], &want) {
                assert(second_word_is(all[i as int], name@));
                return true;
            }
        }
    }
    false
}

// Whose graphics card it is.
/// The vendor number of NVIDIA.
pub const PCI_NVIDIA: u32 = 0x10de;

/// The vendor number of AMD.
pub const PCI_AMD: u32 = 0x1002;

/// The vendor number of Intel.
pub const PCI_INTEL: u32 = 0x8086;

/// The value of a hexadecimal digit.
pub open spec fn hex_digit(c: char) -> Option<int> {
    if '0' <= c <= '9' {
        Some(c as int - 48)
    } else if 'a' <= c <= 'f' {
        Some(c as int - 87)
    } else if 'A' <= c <= 'F' {
        Some(c as int - 55)
    } else {
        None
    }
}

/// The value of hexadecimal digits.
pub open spec fn hex_value(s: Seq<char>) -> Option<int>
    decreases s.len(),
{
    if s.len() == 0 {
        Some(0)
    } else {
        match (hex_value(s.drop_last()), hex_digit(s.last())) {
            (Some(v), Some(d)) => Some(16 * v + d),
            _ => None,
        }
    }
}

/// What is left of a text when every `0x` in front has been taken away.
pub open spec fn bare_hex(s: Seq<char>) -> Seq<char>
    decreases s.len(),
{
    if has_prefix(s, "0x"@) && s.len() >= 2 {
        bare_hex(s.skip(2))
    } else {
        s
    }
}

/// The number that hexadecimal digits, which a plus sign may precede, stand for, if it fits 32 bits.
pub open spec fn hex_number(s: Seq<char>) -> Option<int> {
    let t = if s.len() > 0 && s[0] == '+' {
        s.skip(1)
    } else {
        s
    };
    if t.len() == 0 || hex_value(t) is None || hex_value(t)->0 > u32::MAX {
        None
    } else {
        hex_value(t)
    }
}

/// The vendor number that the system's file on a graphics card holds.
pub open spec fn vendor_number(s: Seq<char>) -> Option<int> {
    hex_number(bare_hex(trim(s)))
}

fn digit_value(c: char) -> (r: Option<u32>)
    ensures
        r is Some <==> hex_digit(c) is Some,
        r is Some ==> r->0 == hex_digit(c)->0 && r->0 < 16,
{
    if '0' <= c && c <= '9' {
        Some(c as u32 - 48)
    } else if 'a' <= c && c <= 'f' {
        Some(c as u32 - 87)
    } else if 'A' <= c && c <= 'F' {
        Some(c as u32 - 55)
    } else {
        None
    }
}

proof fn lemma_hex_grows(s: Seq<char>, i: int)
    requires
        0 <= i <= s.len(),
    ensures
        hex_value(s) is Some ==> hex_value(s.take(i)) is Some && 0 <= hex_value(s.take(i))->0 <= hex_value(s)->0,
    decreases s.len(),
{
    if i < s.len() {
        lemma_hex_grows(s.drop_last(), i);
        assert(s.drop_last().take(i) =~= s.take(i));
    } else {
        assert(s.take(i) =~= s);
        if s.len() > 0 {
            lemma_hex_grows(s.drop_last(), s.len() - 1);
            assert(s.drop_last().take(s.len() - 1) =~= s.drop_last());
        }
    }
}

/// The vendor number that the system's file on a graphics card holds.
pub fn parse_pci_vendor_id(s: &str) -> (r: Option<u32>)
    ensures
        r is Some <==> vendor_number(s@) is Some,
        r is Some ==> r->0 == vendor_number(s@)->0,
{
    let t = trimmed(&chars_of(s));
    let mark = chars_of("0x");
    proof {
        reveal_strlit("0x");
    }
    let mut at: usize = 0;
    assert(t@.skip(0) =~= t@);
    while t.len() - at >= 2 && crate::text::stands_at(&t, &mark, at)
        invariant
            at <= t@.len(),
            mark@ == "0x"@,
            "0x"@.len() == 2,
            bare_hex(t@) == bare_hex(t@.skip(at as int)),
        decreases t@.len() - at,
    {
        assert(t@.skip(at as int).subrange(0, 2) =~= t@.subrange(at as int, at + 2));
        assert(t@.skip(at as int).skip(2) =~= t@.skip(at + 2));
        at = at + 2;
    }
    proof {
        let rest = t@.skip(at as int);
        if has_prefix(rest, "0x"@) && rest.len() >= 2 {
            assert(rest.subrange(0, 2) =~= t@.subrange(at as int, at + 2));
        }
    }
    let from: usize = if at < t.len() && t[at] == '+' { at + 1 } else { at };
    let ghost body = t@.skip(from as int);
    proof {
        if from > at {
            assert(t@.skip(at as int).skip(1) =~= body);
        }
    }
    if from >= t.len() {
        return None;
    }
    let mut v: u64 = 0;
    let mut i: usize = from;
    while i < t.len()
        invariant
            from <= i <= t@.len(),
            body == t@.skip(from as int),
            vendor_number(s@) is Some ==> hex_value(body) is Some && hex_value(body)->0 <= u32::MAX,
            hex_value(body.take(i - from)) == Some(v as int),
            v <= u32::MAX,
        decreases t@.len() - i,
    {
        let ghost next = body.take(i + 1 - from);
        assert(next.drop_last() =~= body.take(i - from));
        assert(next.last() == t@[i as int]);
        proof {
            lemma_hex_grows(body, i + 1 - from);
        }
        match digit_value(t[i]) {
            None => {
                return None;
            },
            Some(d) => {
                v = 16 * v + d as u64;
                if v > u32::MAX as u64 {
                    return None;
                }
            },
        }
        i = i + 1;
    }
    assert(body.take(body.len() as int) =~= body);
    Some(v as u32)
}

/// Whether there is a card of the vendor with number `v`.
pub open spec fn has_card(ids: Seq<u32>, v: u32) -> bool {
    ids.contains(v)
}

/// The one vendor of the three that has cards here; none if there are several.
pub open spec fn only_vendor(ids: Seq<u32>) -> Option<Seq<char>> {
    let n = has_card(ids, PCI_NVIDIA);
    let a = has_card(ids, PCI_AMD);
    let i = has_card(ids, PCI_INTEL);
    if n && !a && !i {
        Some("nvidia"@)
    } else if a && !n && !i {
        Some("amd"@)
    } else if i && !n && !a {
        Some("intel"@)
    } else {
        None
    }
}

fn cards_of(ids: &[u32], v: u32) -> (r: bool)
    ensures
        r == has_card(ids@, v),
{
    for k in 0..ids.len()
        invariant
            forall|j: int| 0 <= j < k ==> ids@[j] != v,
    {
        if ids[k] == v {
            assert(ids@[k as int] == v);
            return true;
        }
    }
    false
}

/// The one vendor that has cards here.
pub fn vendor_from_ids(ids: &[u32]) -> (r: Option<&'static str>)
    ensures
        maybe(r) == only_vendor(ids@),
{
    let nvidia: bool = cards_of(ids, PCI_NVIDIA);
    let amd: bool = cards_of(ids, PCI_AMD);
    let intel: bool = cards_of(ids, PCI_INTEL);
    if nvidia && !amd && !intel {
        Some("nvidia")
    } else if amd && !nvidia && !intel {
        Some("amd")
    } else if intel && !nvidia && !amd {
        Some("intel")
    } else {
        None
    }
}

/// The first vendor of the three that has cards here; a separate card counts before one that is built in.
pub open spec fn best_vendor(ids: Seq<u32>) -> Option<Seq<char>> {
    if has_card(ids, PCI_NVIDIA) {
        Some("nvidia"@)
    } else if has_card(ids, PCI_AMD) {
        Some("amd"@)
    } else if has_card(ids, PCI_INTEL) {
        Some("intel"@)
    } else {
        None
    }
}

/// A graphics card as the system lists it: the name of its directory, and what its vendor file holds.
pub struct CardFile {
    pub name: String,
    pub vendor: String,
}

/// Whether the name is that of a card, and not of one of its connectors.
pub open spec fn names_card(name: Seq<char>) -> bool {
    has_prefix(name, "card"@) && find_in(name, "-"@) is None
}

/// The vendor numbers of the first `n` entries that are cards.
pub open spec fn card_ids(cards: Seq<CardFile>, n: int) -> Seq<u32>
    decreases n,
{
    if n <= 0 {
        Seq::empty()
    } else {
        let c = cards[n - 1];
        if names_card(c.name@) && vendor_number(c.vendor@) is Some {
            card_ids(cards, n - 1).push(vendor_number(c.vendor@)->0 as u32)
        } else {
            card_ids(cards, n - 1)
        }
    }
}

/// The vendor that a list of drivers names; a separate card counts before one that is built in.
pub open spec fn named_vendor(drivers: Seq<char>) -> Option<Seq<char>> {
    let l = lowered(drivers);
    if find_in(l, "nvidia"@) is Some {
        Some("nvidia"@)
    } else if find_in(l, "radeon"@) is Some || find_in(l, "amd"@) is Some {
        Some("amd"@)
    } else if find_in(l, "intel"@) is Some {
        Some("intel"@)
    } else {
        None
    }
}

/// The vendor of the graphics card: on Linux from what the system lists of the cards, on Windows from the list of
/// drivers. Of several vendors nvidia comes first, then amd, then intel.
pub open spec fn vendor_here(platform: Platform, cards: Seq<CardFile>, drivers: Seq<char>) -> Option<Seq<char>> {
    match platform {
        Platform::MacOs => Some("apple"@),
        Platform::Unix => best_vendor(card_ids(cards, cards.len() as int)),
        Platform::Windows => named_vendor(drivers),
        Platform::Other => None,
    }
}

fn lower_all(s: &[char]) -> (r: Vec<char>)
    ensures
        r@ == lowered(s@),
{
    let mut r: Vec<char> = Vec::new();
    for i in 0..s.len()
        invariant
            r@.len() == i,
            forall|j: int| 0 <= j < i ==> r@[j] == lowered(s@)[j],
    {
        r.push(crate::text::small(s[i]));
    }
    assert(r@ =~= lowered(s@));
    r
}

/// The vendor of the graphics card.
pub fn gpu_vendor(platform: Platform, cards: &Vec<CardFile>, drivers: &str) -> (r: Option<&'static str>)
    ensures
        maybe(r) == vendor_here(platform, cards@, drivers@),
{
    match platform {
        Platform::MacOs => Some("apple"),
        Platform::Other => None,
        Platform::Windows => {
            let l = lower_all(&chars_of(drivers));
            if contains(&l, &chars_of("nvidia")) {
                Some("nvidia")
            } else if contains(&l, &chars_of("radeon")) || contains(&l, &chars_of("amd")) {
                Some("amd")
            } else if contains(&l, &chars_of("intel")) {
                Some("intel")
            } else {
                None
            }
        },
        Platform::Unix => {
            let mut ids: Vec<u32> = Vec::new();
            for k in 0..cards.len()
                invariant
                    ids@ == card_ids(cards@, k as int),
            {
                let name = chars_of(cards[k].name.as_str());
                if starts_with(&name, &chars_of("card")) && !contains(&name, &chars_of("-")) {
                    match parse_pci_vendor_id(cards[k].vendor.as_str()) {
                        Some(id) => {
                            ids.push(id);
                        },
                        None => {},
                    }
                }
            }
            if cards_of(ids.as_slice(), PCI_NVIDIA) {
                Some("nvidia")
            } else if cards_of(ids.as_slice(), PCI_AMD) {
                Some("amd")
            } else if cards_of(ids.as_slice(), PCI_INTEL) {
                Some("intel")
            } else {
                None
            }
        },
    }
}

// The ways of decoding and encoding to try, the best first.
/// The ways of decoding to try on a system; the last, none, is without help of the graphics card.
pub open spec fn decoders(platform: Platform, vendor: Option<Seq<char>>) -> Seq<Option<Seq<char>>> {
    match platform {
        Platform::MacOs => seq![Some("videotoolbox"@), None],
        Platform::Windows => if vendor == Some("intel"@) {
            seq![Some("qsv"@), Some("d3d11va"@), Some("cuda"@), None]
        } else {
            seq![Some("cuda"@), Some("d3d11va"@), Some("qsv"@), None]
        },
        Platform::Unix => if vendor == Some("nvidia"@) {
            seq![Some("cuda"@), Some("vaapi"@), Some("qsv"@), None]
        } else if vendor == Some("intel"@) {
            seq![Some("vaapi"@), Some("qsv"@), None]
        } else {
            seq![Some("vaapi"@), Some("cuda"@), Some("qsv"@), None]
        },
        Platform::Other => seq![None],
    }
}

/// The encoders to try on a system.
pub open spec fn encoders(platform: Platform, vendor: Option<Seq<char>>) -> Seq<Seq<char>> {
    match platform {
        Platform::MacOs => seq!["h264_videotoolbox"@, "libx264"@],
        Platform::Windows => if vendor == Some("intel"@) {
            seq!["h264_qsv"@, "h264_nvenc"@, "h264_amf"@, "libx264"@]
        } else if vendor == Some("amd"@) {
            seq!["h264_amf"@, "h264_nvenc"@, "h264_qsv"@, "libx264"@]
        } else {
            seq!["h264_nvenc"@, "h264_qsv"@, "h264_amf"@, "libx264"@]
        },
        Platform::Unix => if vendor == Some("nvidia"@) {
            seq!["h264_nvenc"@, "h264_vaapi"@, "libx264"@]
        } else {
            seq!["h264_vaapi"@, "h264_nvenc"@, "libx264"@]
        },
        Platform::Other => seq!["libx264"@],
    }
}

/// Whatever the system and the card, decoding without help is tried, and it is tried last; and so is the encoder that
/// needs no card.
pub proof fn law_chains_end_in_software(platform: Platform, vendor: Option<Seq<char>>)
    ensures
        decoders(platform, vendor).len() > 0,
        decoders(platform, vendor).last() is None,
        encoders(platform, vendor).len() > 0,
        encoders(platform, vendor).last() == "libx264"@,
{
}

/// The ways of decoding to try on a system.
pub fn decode_chain_on(platform: Platform, vendor: Option<&str>) -> (r: Vec<Option<&'static str>>)
    ensures
        maybe_strs(r@) == decoders(platform, maybe(vendor)),
{
    let r: Vec<Option<&'static str>> = match platform {
        Platform::MacOs => vec![Some("videotoolbox"), None],
        Platform::Windows => if is_text(vendor, "intel") {
            vec![Some("qsv"), Some("d3d11va"), Some("cuda"), None]
        } else {
            vec![Some("cuda"), Some("d3d11va"), Some("qsv"), None]
        },
        Platform::Unix => if is_text(vendor, "nvidia") {
            vec![Some("cuda"), Some("vaapi"), Some("qsv"), None]
        } else if is_text(vendor, "intel") {
            vec![Some("vaapi"), Some("qsv"), None]
        } else {
            vec![Some("vaapi"), Some("cuda"), Some("qsv"), None]
        },
        Platform::Other => vec![None],
    };
    proof {
        reveal_strlit("nvidia");
        reveal_strlit("intel");
        assert("nvidia"@.len() != "intel"@.len());
    }
    assert(maybe_strs(r@) =~= decoders(platform, maybe(vendor)));
    r
}

/// The ways of decoding to try on Linux.
pub fn decode_chain_for(vendor: Option<&str>) -> (r: Vec<Option<&'static str>>)
    ensures
        maybe_strs(r@) == decoders(Platform::Unix, maybe(vendor)),
{
    decode_chain_on(Platform::Unix, vendor)
}

/// The ways of decoding to try on a machine.
pub fn decode_chain(platform: Platform, cards: &Vec<CardFile>, drivers: &str) -> (r: Vec<Option<&'static str>>)
    ensures
        maybe_strs(r@) == decoders(platform, vendor_here(platform, cards@, drivers@)),
{
    decode_chain_on(platform, gpu_vendor(platform, cards, drivers))
}

/// The encoders to try on a system.
pub fn encoder_chain_on(platform: Platform, vendor: Option<&str>) -> (r: Vec<&'static str>)
    ensures
        strs(r@) == encoders(platform, maybe(vendor)),
{
    let r: Vec<&'static str> = match platform {
        Platform::MacOs => vec!["h264_videotoolbox", "libx264"],
        Platform::Windows => if is_text(vendor, "intel") {
            vec!["h264_qsv", "h264_nvenc", "h264_amf", "libx264"]
        } else if is_text(vendor, "amd") {
            vec!["h264_amf", "h264_nvenc", "h264_qsv", "libx264"]
        } else {
            vec!["h264_nvenc", "h264_qsv", "h264_amf", "libx264"]
        },
        Platform::Unix => if is_text(vendor, "nvidia") {
            vec!["h264_nvenc", "h264_vaapi", "libx264"]
        } else {
            vec!["h264_vaapi", "h264_nvenc", "libx264"]
        },
        Platform::Other => vec!["libx264"],
    };
    assert(strs(r@) =~= encoders(platform, maybe(vendor)));
    r
}

/// The encoders to try on Linux.
pub fn encoder_chain_for(vendor: Option<&str>) -> (r: Vec<&'static str>)
    ensures
        strs(r@) == encoders(Platform::Unix, maybe(vendor)),
{
    encoder_chain_on(Platform::Unix, vendor)
}

/// The encoders to try on a machine.
pub fn encoder_chain(platform: Platform, cards: &Vec<CardFile>, drivers: &str) -> (r: Vec<&'static str>)
    ensures
        strs(r@) == encoders(platform, vendor_here(platform, cards@, drivers@)),
{
    encoder_chain_on(platform, gpu_vendor(platform, cards, drivers))
}

// How the tools are called.
/// How frames come out of the decoder.
#[derive(Debug, Clone, Copy, PartialEq, Eq, Structural)]
pub enum FrameFormat {
    /// As they are.
    Nv12,
    /// As JPEG pictures, which are a good deal smaller.
    Mjpeg,
}

impl Default for FrameFormat {
    fn default() -> (f: FrameFormat)
        ensures
            f == FrameFormat::Nv12,
    {
        FrameFormat::Nv12
    }
}

/// The words of a decoder's command up to the stream that is taken.
pub open spec fn decode_head(input: Seq<char>, hwaccel: Option<Seq<char>>) -> Seq<Seq<char>> {
    let start = seq!["-loglevel"@, "error"@, "-nostdin"@];
    let help = match hwaccel {
        Some(hw) => if hw == "qsv"@ {
            seq!["-hwaccel"@, hw, "-hwaccel_output_format"@, "nv12"@]
        } else {
            seq!["-hwaccel"@, hw]
        },
        None => Seq::empty(),
    };
    start + help + seq!["-i"@, input, "-map"@, "0:v:0"@, "-fps_mode"@, "passthrough"@]
}

fn decode_start(input: &str, hwaccel: Option<&str>) -> (c: Vec<String>)
    ensures
        texts(c@) == decode_head(input@, maybe(hwaccel)),
{
    let mut c: Vec<String> = Vec::new();
    word(&mut c, "-loglevel");
    word(&mut c, "error");
    word(&mut c, "-nostdin");
    match hwaccel {
        Some(hw) => {
            word(&mut c, "-hwaccel");
            word(&mut c, hw);
            if same(hw, "qsv") {
                word(&mut c, "-hwaccel_output_format");
                word(&mut c, "nv12");
            }
        },
        None => {},
    }
    word(&mut c, "-i");
    word(&mut c, input);
    word(&mut c, "-map");
    word(&mut c, "0:v:0");
    word(&mut c, "-fps_mode");
    word(&mut c, "passthrough");
    assert(texts(c@) =~= decode_head(input@, maybe(hwaccel)));
    c
}

/// The command of a decoder that hands out frames as they are.
pub fn decode_cmd(input: &str, hwaccel: Option<&str>) -> (c: Vec<String>)
    ensures
        texts(c@) == decode_head(input@, maybe(hwaccel)) + seq!["-f"@, "rawvideo"@, "-pix_fmt"@, "nv12"@, "-"@],
{
    let mut c = decode_start(input, hwaccel);
    let ghost head = texts(c@);
    word(&mut c, "-f");
    word(&mut c, "rawvideo");
    word(&mut c, "-pix_fmt");
    word(&mut c, "nv12");
    word(&mut c, "-");
    assert(texts(c@) =~= head + seq!["-f"@, "rawvideo"@, "-pix_fmt"@, "nv12"@, "-"@]);
    c
}

/// The command of a decoder that hands out frames as JPEG pictures.
pub fn decode_cmd_mjpeg(input: &str, hwaccel: Option<&str>) -> (c: Vec<String>)
    ensures
        texts(c@) == decode_head(input@, maybe(hwaccel)) + seq!["-f"@, "mjpeg"@, "-q:v"@, "2"@, "-"@],
{
    let mut c = decode_start(input, hwaccel);
    let ghost head = texts(c@);
    word(&mut c, "-f");
    word(&mut c, "mjpeg");
    word(&mut c, "-q:v");
    word(&mut c, "2");
    word(&mut c, "-");
    assert(texts(c@) =~= head + seq!["-f"@, "mjpeg"@, "-q:v"@, "2"@, "-"@]);
    c
}

/// The bit rate that suits the longer edge of a video.
pub open spec fn rate_for(edge: int) -> Seq<char> {
    if edge <= 1280 {
        "3M"@
    } else if edge <= 1920 {
        "6M"@
    } else if edge <= 2560 {
        "10M"@
    } else {
        "20M"@
    }
}

/// The bit rate that suits the size of a video.
pub fn auto_bitrate(w: u32, h: u32) -> (r: String)
    ensures
        r@ == rate_for(
            if w > h {
                w as int
            } else {
                h as int
            },
        ),
{
    let edge: u32 = if w > h { w } else { h };
    let r: &str = if edge <= 1280 {
        "3M"
    } else if edge <= 1920 {
        "6M"
    } else if edge <= 2560 {
        "10M"
    } else {
        "20M"
    };
    r.to_owned()
}

/// What an encoder is to do.
#[derive(Debug, Clone)]
pub struct EncodeOptions {
    pub width: u32,
    pub height: u32,
    /// Frames per second, in decimal.
    pub fps: String,
    /// The name of the encoder.
    pub encoder: String,
    /// Where the sound comes from, if there is any.
    pub audio_from: Option<String>,
    /// The bit rate, for the encoders that take one.
    pub bitrate: String,
    /// Whether the sound is encoded anew.
    pub audio_transcode: bool,
}

/// The words of an encoder's command that say what frames come in.
pub open spec fn frames_in(o: EncodeOptions) -> Seq<Seq<char>> {
    seq![
        "-y"@,
        "-loglevel"@,
        "error"@,
        "-f"@,
        "rawvideo"@,
        "-pixel_format"@,
        "nv12"@,
        "-video_size"@,
        dec(o.width as nat) + "x"@ + dec(o.height as nat),
        "-framerate"@,
        o.fps@,
        "-i"@,
        "-"@,
    ]
}

fn start_frames(c: &mut Vec<String>, o: &EncodeOptions)
    ensures
        texts(final(c)@) == texts(old(c)@) + frames_in(*o),
{
    let ghost before = texts(c@);
    word(c, "-y");
    word(c, "-loglevel");
    word(c, "error");
    word(c, "-f");
    word(c, "rawvideo");
    word(c, "-pixel_format");
    word(c, "nv12");
    word(c, "-video_size");
    let mut size = decimal(o.width as u64);
    append(&mut size, "x");
    append(&mut size, decimal(o.height as u64).as_str());
    word(c, size.as_str());
    word(c, "-framerate");
    word(c, o.fps.as_str());
    word(c, "-i");
    word(c, "-");
    assert(texts(c@) =~= before + frames_in(*o));
}

/// The command of a tool that takes frames in and drops them.
pub fn drain_null_cmd(o: &EncodeOptions) -> (c: Vec<String>)
    ensures
        texts(c@) == frames_in(*o) + seq!["-f"@, "null"@, "-"@],
{
    let mut c: Vec<String> = Vec::new();
    start_frames(&mut c, o);
    word(&mut c, "-f");
    word(&mut c, "null");
    word(&mut c, "-");
    assert(texts(c@) =~= frames_in(*o) + seq!["-f"@, "null"@, "-"@]);
    c
}

/// Where a dot last stands in a text.
pub open spec fn last_dot(s: Seq<char>) -> Option<int>
    decreases s.len(),
{
    if s.len() == 0 {
        None
    } else if s.last() == '.' {
        Some(s.len() - 1)
    } else {
        last_dot(s.drop_last())
    }
}

/// The ending of the file that a path names: what stands behind the last dot of its last part, unless the part begins
/// with that dot or means the directory above.
pub open spec fn ending(platform: Platform, path: Seq<char>) -> Seq<char> {
    let r = route_of(platform, path);
    if r.parts.len() == 0 || r.parts.last() == ".."@ {
        Seq::empty()
    } else {
        match last_dot(r.parts.last()) {
            Some(i) => if i > 0 {
                r.parts.last().skip(i + 1)
            } else {
                Seq::empty()
            },
            None => Seq::empty(),
        }
    }
}

/// The ending of the file that a path names.
pub fn ending_of(platform: Platform, path: &str) -> (e: Vec<char>)
    ensures
        e@ == ending(platform, path@),
{
    let r = Route::parse(platform, path);
    let none: Vec<char> = Vec::new();
    assert(none@ =~= Seq::<char>::empty());
    let n: usize = r.parts.len();
    if n == 0 {
        return none;
    }
    assert(r@.parts.last() == r.parts@[n - 1]@);
    if same(r.parts[n - 1].as_str(), "..") {
        return none;
    }
    let s = chars_of(r.parts[n - 1].as_str());
    let ghost all = s@;
    let mut i: usize = s.len();
    assert(s@.take(s@.len() as int) =~= s@);
    while i > 0
        invariant
            i <= s@.len(),
            all == s@,
            last_dot(s@) == last_dot(s@.take(i as int)),
            none@ == Seq::<char>::empty(),
            r@.parts.len() > 0,
            r@.parts.last() == s@,
            r@.parts.last() != ".."@,
            r@ == route_of(platform, path@),
        decreases i,
    {
        assert(s@.take(i as int).last() == s@[i - 1]);
        assert(s@.take(i as int).drop_last() =~= s@.take(i - 1));
        if s[i - 1] == '.' {
            if i == 1 {
                return none;
            }
            let e = slice(&s, i, s.len());
            assert(e@ =~= s@.skip(i as int));
            return e;
        }
        i = i - 1;
    }
    none
}

/// Whether a file is of the family of MP4, by its ending.
pub open spec fn is_mp4(platform: Platform, path: Seq<char>) -> bool {
    let e = lowered(ending(platform, path));
    e == lowered("mp4"@) || e == lowered("m4v"@) || e == lowered("mov"@)
}

/// Whether a file is of the family of MP4.
pub fn is_mp4_file(platform: Platform, path: &str) -> (r: bool)
    ensures
        r == is_mp4(platform, path@),
{
    let e = ending_of(platform, path);
    same_ignoring_case(&e, &chars_of("mp4")) || same_ignoring_case(&e, &chars_of("m4v")) || same_ignoring_case(
        &e,
        &chars_of("mov"),
    )
}

/// What an encoder needs to be told.
#[derive(Debug, Clone, Copy, PartialEq, Eq, Structural)]
pub enum EncoderKind {
    VideoToolbox,
    Nvenc,
    Qsv,
    Vaapi,
    Amf,
    X264,
    Other,
}

/// The kind of an encoder, by its name.
pub open spec fn kind_of(name: Seq<char>) -> EncoderKind {
    if name == "h264_videotoolbox"@ {
        EncoderKind::VideoToolbox
    } else if find_in(name, "nvenc"@) is Some {
        EncoderKind::Nvenc
    } else if has_suffix(name, "qsv"@) {
        EncoderKind::Qsv
    } else if has_suffix(name, "vaapi"@) {
        EncoderKind::Vaapi
    } else if has_suffix(name, "amf"@) {
        EncoderKind::Amf
    } else if name == "libx264"@ {
        EncoderKind::X264
    } else {
        EncoderKind::Other
    }
}

fn find_kind(name: &str) -> (k: EncoderKind)
    ensures
        k == kind_of(name@),
{
    let s = chars_of(name);
    if same(name, "h264_videotoolbox") {
        EncoderKind::VideoToolbox
    } else if contains(&s, &chars_of("nvenc")) {
        EncoderKind::Nvenc
    } else if ends_with(&s, &chars_of("qsv")) {
        EncoderKind::Qsv
    } else if ends_with(&s, &chars_of("vaapi")) {
        EncoderKind::Vaapi
    } else if ends_with(&s, &chars_of("amf")) {
        EncoderKind::Amf
    } else if same(name, "libx264") {
        EncoderKind::X264
    } else {
        EncoderKind::Other
    }
}

/// The words that come before everything else: the device that an encoder works on.
pub open spec fn device_words(k: EncoderKind, device: Seq<char>) -> Seq<Seq<char>> {
    match k {
        EncoderKind::Qsv => seq!["-init_hw_device"@, "qsv=hw"@, "-filter_hw_device"@, "hw"@],
        EncoderKind::Vaapi => seq!["-vaapi_device"@, device],
        _ => Seq::empty(),
    }
}

/// The words that set an encoder's quality.
pub open spec fn quality_words(k: EncoderKind, bitrate: Seq<char>) -> Seq<Seq<char>> {
    match k {
        EncoderKind::VideoToolbox => seq![
            "-b:v"@,
            bitrate,
            "-realtime"@,
            "1"@,
            "-allow_sw"@,
            "1"@,
            "-tag:v"@,
            "avc1"@,
        ],
        EncoderKind::Nvenc => seq!["-preset"@, "p4"@, "-rc"@, "vbr"@, "-cq"@, "23"@, "-b:v"@, "0"@],
        EncoderKind::Qsv => seq!["-global_quality"@, "22"@, "-vf"@, "format=nv12,hwupload"@],
        EncoderKind::Vaapi => seq![
            "-rc_mode"@,
            "CQP"@,
            "-global_quality"@,
            "22"@,
            "-vf"@,
            "format=nv12|vaapi,hwupload"@,
        ],
        EncoderKind::Amf => seq!["-quality"@, "balanced"@, "-b:v"@, bitrate],
        EncoderKind::X264 => seq!["-crf"@, "20"@, "-preset"@, "veryfast"@],
        EncoderKind::Other => Seq::empty(),
    }
}

/// The words on what is taken over from the source: the sound, the subtitles as the new file can hold them, chapters and
/// descriptions.
pub open spec fn source_words(platform: Platform, o: EncodeOptions, output: Seq<char>) -> Seq<Seq<char>> {
    if o.audio_from is None {
        Seq::empty()
    } else {
        let sound = if o.audio_transcode {
            seq!["-c:a"@, "aac"@, "-b:a"@, "192k"@]
        } else {
            seq!["-c:a"@, "copy"@]
        };
        let subtitles = if is_mp4(platform, output) {
            seq!["-map"@, "1:s?"@, "-c:s"@, "mov_text"@]
        } else if lowered(ending(platform, output)) == lowered("mkv"@) {
            seq!["-map"@, "1:s?"@, "-c:s"@, "copy"@]
        } else {
            Seq::empty()
        };
        seq!["-map"@, "1:a?"@] + sound + subtitles + seq!["-map_chapters"@, "1"@, "-map_metadata"@, "1"@]
    }
}

/// The words that say where the sound comes from.
pub open spec fn sound_in(o: EncodeOptions) -> Seq<Seq<char>> {
    match o.audio_from {
        Some(p) => seq!["-i"@, p@],
        None => Seq::empty(),
    }
}

/// The words of an encoder's command.
pub open spec fn encode_words(platform: Platform, output: Seq<char>, o: EncodeOptions, device: Seq<char>) -> Seq<Seq<char>> {
    let k = kind_of(o.encoder@);
    let fast = if is_mp4(platform, output) {
        seq!["-movflags"@, "+faststart"@]
    } else {
        Seq::empty()
    };
    device_words(k, device) + frames_in(o) + sound_in(o) + seq!["-map"@, "0:v:0"@, "-c:v"@, o.encoder@] + quality_words(
        k,
        o.bitrate@,
    ) + source_words(platform, o, output) + fast + seq![output]
}

fn push_device(c: &mut Vec<String>, k: EncoderKind, device: &str)
    ensures
        texts(final(c)@) == texts(old(c)@) + device_words(k, device@),
{
    let ghost before = texts(c@);
    match k {
        EncoderKind::Qsv => {
            word(c, "-init_hw_device");
            word(c, "qsv=hw");
            word(c, "-filter_hw_device");
            word(c, "hw");
        },
        EncoderKind::Vaapi => {
            word(c, "-vaapi_device");
            word(c, device);
        },
        _ => {},
    }
    assert(texts(c@) =~= before + device_words(k, device@));
}

fn push_quality(c: &mut Vec<String>, k: EncoderKind, bitrate: &str)
    ensures
        texts(final(c)@) == texts(old(c)@) + quality_words(k, bitrate@),
{
    let ghost before = texts(c@);
    match k {
        EncoderKind::VideoToolbox => {
            word(c, "-b:v");
            word(c, bitrate);
            word(c, "-realtime");
            word(c, "1");
            word(c, "-allow_sw");
            word(c, "1");
            word(c, "-tag:v");
            word(c, "avc1");
        },
        EncoderKind::Nvenc => {
            word(c, "-preset");
            word(c, "p4");
            word(c, "-rc");
            word(c, "vbr");
            word(c, "-cq");
            word(c, "23");
            word(c, "-b:v");
            word(c, "0");
        },
        EncoderKind::Qsv => {
            word(c, "-global_quality");
            word(c, "22");
            word(c, "-vf");
            word(c, "format=nv12,hwupload");
        },
        EncoderKind::Vaapi => {
            word(c, "-rc_mode");
            word(c, "CQP");
            word(c, "-global_quality");
            word(c, "22");
            word(c, "-vf");
            word(c, "format=nv12|vaapi,hwupload");
        },
        EncoderKind::Amf => {
            word(c, "-quality");
            word(c, "balanced");
            word(c, "-b:v");
            word(c, bitrate);
        },
        EncoderKind::X264 => {
            word(c, "-crf");
            word(c, "20");
            word(c, "-preset");
            word(c, "veryfast");
        },
        EncoderKind::Other => {},
    }
    assert(texts(c@) =~= before + quality_words(k, bitrate@));
}

fn push_source(platform: Platform, c: &mut Vec<String>, o: &EncodeOptions, output: &str)
    ensures
        texts(final(c)@) == texts(old(c)@) + source_words(platform, *o, output@),
{
    let ghost before = texts(c@);
    if o.audio_from.is_some() {
        word(c, "-map");
        word(c, "1:a?");
        if o.audio_transcode {
            word(c, "-c:a");
            word(c, "aac");
            word(c, "-b:a");
            word(c, "192k");
        } else {
            word(c, "-c:a");
            word(c, "copy");
        }
        if is_mp4_file(platform, output) {
            word(c, "-map");
            word(c, "1:s?");
            word(c, "-c:s");
            word(c, "mov_text");
        } else if same_ignoring_case(&ending_of(platform, output), &chars_of("mkv")) {
            word(c, "-map");
            word(c, "1:s?");
            word(c, "-c:s");
            word(c, "copy");
        }
        word(c, "-map_chapters");
        word(c, "1");
        word(c, "-map_metadata");
        word(c, "1");
    }
    assert(texts(c@) =~= before + source_words(platform, *o, output@));
}

/// The command of an encoder that writes `output`; `device` is the graphics device, for an encoder that needs one.
pub fn encode_cmd(platform: Platform, output: &str, o: &EncodeOptions, device: &str) -> (c: Vec<String>)
    ensures
        texts(c@) == encode_words(platform, output@, *o, device@),
{
    let k = find_kind(o.encoder.as_str());
    let mut c: Vec<String> = Vec::new();
    push_device(&mut c, k, device);
    start_frames(&mut c, o);
    let ghost a = device_words(k, device@) + frames_in(*o);
    assert(texts(c@) =~= a);
    let ghost second = sound_in(*o);
    match &o.audio_from {
        Some(p) => {
            word(&mut c, "-i");
            word(&mut c, p.as_str());
        },
        None => {},
    }
    assert(texts(c@) =~= a + second);
    word(&mut c, "-map");
    word(&mut c, "0:v:0");
    word(&mut c, "-c:v");
    word(&mut c, o.encoder.as_str());
    let ghost b = a + second + seq!["-map"@, "0:v:0"@, "-c:v"@, o.encoder@];
    assert(texts(c@) =~= b);
    push_quality(&mut c, k, o.bitrate.as_str());
    push_source(platform, &mut c, o, output);
    let ghost d = b + quality_words(k, o.bitrate@) + source_words(platform, *o, output@);
    assert(texts(c@) == d);
    let mp4 = is_mp4_file(platform, output);
    let ghost fast = if mp4 {
        seq!["-movflags"@, "+faststart"@]
    } else {
        Seq::empty()
    };
    if mp4 {
        word(&mut c, "-movflags");
        word(&mut c, "+faststart");
    }
    assert(texts(c@) =~= d + fast);
    word(&mut c, output);
    assert(texts(c@) =~= d + fast + seq![output@]);
    c
}

/// Whether a text comes before another in the order of their characters.
pub open spec fn precedes(a: Seq<char>, b: Seq<char>) -> bool
    decreases a.len(),
{
    if b.len() == 0 {
        false
    } else if a.len() == 0 {
        true
    } else if a[0] != b[0] {
        a[0] < b[0]
    } else {
        precedes(a.skip(1), b.skip(1))
    }
}

fn comes_before(a: &[char], b: &[char]) -> (r: bool)
    ensures
        r == precedes(a@, b@),
{
    let mut i: usize = 0;
    assert(a@.skip(0) =~= a@);
    assert(b@.skip(0) =~= b@);
    while i < a.len() && i < b.len()
        invariant
            i <= a@.len(),
            i <= b@.len(),
            precedes(a@, b@) == precedes(a@.skip(i as int), b@.skip(i as int)),
        decreases a@.len() - i,
    {
        if a[i] != b[i] {
            return a[i] < b[i];
        }
        assert(a@.skip(i as int).skip(1) =~= a@.skip(i + 1));
        assert(b@.skip(i as int).skip(1) =~= b@.skip(i + 1));
        i = i + 1;
    }
    i < b.len()
}

/// Among the first `n` names, the first, in the order of their characters, that is that of a device that draws.
pub open spec fn first_node(names: Seq<Seq<char>>, n: int) -> Option<Seq<char>>
    decreases n,
{
    if n <= 0 {
        None
    } else {
        let b = first_node(names, n - 1);
        let x = names[n - 1];
        if has_prefix(x, "renderD"@) && (b is None || precedes(x, b->0)) {
            Some(x)
        } else {
            b
        }
    }
}

/// The device that draws, of those whose names are given, or the usual one.
pub fn vaapi_render_device(names: &Vec<String>) -> (r: String)
    ensures
        r@ == "/dev/dri/"@ + (match first_node(texts(names@), names@.len() as int) {
            Some(x) => x,
            None => "renderD128"@,
        }),
{
    let mut best: Option<Vec<char>> = None;
    for i in 0..names.len()
        invariant
            best is Some <==> first_node(texts(names@), i as int) is Some,
            best is Some ==> best->0@ == first_node(texts(names@), i as int)->0,
    {
        let x = chars_of(names[i].as_str());
        assert(texts(names@)[i as int] == x@);
        if starts_with(&x, &chars_of("renderD")) {
            let better = match &best {
                None => true,
                Some(b) => comes_before(&x, b),
            };
            if better {
                best = Some(x);
            }
        }
    }
    let mut r = "/dev/dri/".to_owned();
    match &best {
        Some(b) => {
            append(&mut r, text_of(b).as_str());
        },
        None => {
            append(&mut r, "renderD128");
        },
    }
    r
}

/// What a tool's file is called: on Windows `.exe` is put behind its name, and nothing elsewhere.
pub proof fn law_tool_name(platform: Platform, tool: Seq<char>)
    ensures
        platform == Platform::Windows ==> tool_name(platform, tool) == tool + seq!['.', 'e', 'x', 'e'],
        platform != Platform::Windows ==> tool_name(platform, tool) == tool,
{
    reveal_strlit(".exe");
    assert(".exe"@ =~= seq!['.', 'e', 'x', 'e']);
}

/// Where a tool is looked for: in the directory that is named for it, then in every root, each with its `bin` for the machine and its
/// `Resources` before the next root, and last wherever the system finds it.
pub proof fn law_tool_places(platform: Platform, named: Option<Seq<char>>, roots: Seq<Seq<char>>, machine: Seq<char>, name: Seq<char>, i: int)
    requires
        0 <= i < roots.len(),
    ensures
        ({
            let p = tool_places(platform, named, roots, machine, name);
            let k: int = if named is Some {
                1
            } else {
                0
            };
            &&& p.len() == k + 3 * roots.len() + 1
            &&& named is Some ==> p[0] == joined(platform, named->0, name)
            &&& p[k + 3 * i] == joined(platform, roots[i], name)
            &&& p[k + 3 * i + 1] == joined(platform, roots[i], joined(platform, joined(platform, "bin"@, machine), name))
            &&& p[k + 3 * i + 2] == joined(platform, joined(platform, roots[i], "Resources"@), name)
            &&& p.last() == name
        }),
{
    lemma_places(platform, roots, machine, name, roots.len() as int, i);
}

proof fn lemma_places(platform: Platform, roots: Seq<Seq<char>>, machine: Seq<char>, name: Seq<char>, n: int, i: int)
    requires
        0 <= i < n <= roots.len(),
    ensures
        places(platform, roots, machine, name, n).len() == 3 * n,
        places(platform, roots, machine, name, n)[3 * i] == joined(platform, roots[i], name),
        places(platform, roots, machine, name, n)[3 * i + 1] == joined(
            platform,
            roots[i],
            joined(platform, joined(platform, "bin"@, machine), name),
        ),
        places(platform, roots, machine, name, n)[3 * i + 2] == joined(platform, joined(platform, roots[i], "Resources"@), name),
    decreases n,
{
    if n > 1 {
        lemma_places(platform, roots, machine, name, n - 1, if i < n - 1 { i } else { 0 });
    } else {
        assert(places(platform, roots, machine, name, 0).len() == 0);
    }
}

/// The place that is taken is the first at which the tool is, and there is none only if it is nowhere.
pub proof fn law_first_true(present: Seq<bool>, from: int)
    requires
        0 <= from,
    ensures
        first_true(present, from) is Some ==> from <= first_true(present, from)->0 < present.len() && present[first_true(present, from)->0],
        first_true(present, from) is Some ==> forall|j: int| from <= j < first_true(present, from)->0 ==> !#[trigger] present[j],
        first_true(present, from) is None ==> forall|j: int| from <= j < present.len() ==> !#[trigger] present[j],
    decreases present.len() - from,
{
    if from < present.len() && !present[from] {
        law_first_true(present, from + 1);
    }
}

/// What a tool lists: of the lines from the given one on, each that is not blank, without the space around it, in their order.
pub proof fn law_entries(l: Seq<Seq<char>>, from: int, n: int)
    requires
        0 <= from <= n < l.len(),
    ensures
        entries(l, from, from).len() == 0,
        trim(l[n]).len() == 0 ==> entries(l, from, n + 1) == entries(l, from, n),
        trim(l[n]).len() > 0 ==> entries(l, from, n + 1) == entries(l, from, n).push(trim(l[n])),
{
}

/// The words of a line: without white space it is one word, white space at its end adds none, and what comes behind white space is
/// one word more.
pub proof fn law_words(a: Seq<char>, c: char, w: Seq<char>)
    requires
        crate::text::is_space(c),
        w.len() > 0,
        forall|i: int| 0 <= i < w.len() ==> !crate::text::is_space(#[trigger] w[i]),
    ensures
        words(w) == seq![w],
        words(a.push(c)) == words(a),
        words(a.push(c) + w) == words(a).push(w),
        words(Seq::empty()).len() == 0,
    decreases w.len(),
{
    assert(a.push(c).drop_last() =~= a);
    let v = w.drop_last();
    let s = a.push(c) + w;
    assert(s.drop_last() =~= a.push(c) + v);
    assert(s.last() == w.last());
    assert(!crate::text::is_space(w[w.len() - 1]));
    if w.len() == 1 {
        assert(v =~= Seq::<char>::empty());
        assert(a.push(c) + v =~= a.push(c));
        assert(s[s.len() - 2] == c);
        assert(words(v) =~= Seq::<Seq<char>>::empty());
        assert(seq![w.last()] =~= w);
        assert(words(w) =~= seq![w]);
        assert(words(s) == words(s.drop_last()).push(seq![s.last()]));
        assert(words(s) =~= words(a).push(w));
    } else {
        assert forall|i: int| 0 <= i < v.len() implies !crate::text::is_space(#[trigger] v[i]) by {
            assert(v[i] == w[i]);
        }
        law_words(a, c, v);
        assert(!crate::text::is_space(w[w.len() - 2]));
        assert(s[s.len() - 2] == w[w.len() - 2]);
        assert(v.push(w.last()) =~= w);
        assert(words(w) =~= seq![w]);
        assert(words(a).push(v).drop_last() =~= words(a));
        assert(words(s) =~= words(a).push(w));
    }
}

/// A line of a tool's list, its marks and then a name, with whatever else behind it, lists that name and no other.
pub proof fn law_second_word(marks: Seq<char>, name: Seq<char>, rest: Seq<char>, wanted: Seq<char>)
    requires
        marks.len() > 0,
        name.len() > 0,
        forall|i: int| 0 <= i < marks.len() ==> !crate::text::is_space(#[trigger] marks[i]),
        forall|i: int| 0 <= i < name.len() ==> !crate::text::is_space(#[trigger] name[i]),
        rest.len() == 0 || crate::text::is_space(rest[0]),
    ensures
        second_word_is(seq![' '] + marks + seq![' '] + name + rest, wanted) == (name == wanted),
{
    let a = seq![' '] + marks;
    let s = a.push(' ') + name;
    law_words(Seq::empty(), ' ', marks);
    assert(Seq::<char>::empty().push(' ') + marks =~= a);
    law_words(a, ' ', name);
    lemma_words_go_on(s, rest);
    assert(seq![' '] + marks + seq![' '] + name + rest =~= s + rest);
}

proof fn lemma_words_go_on(s: Seq<char>, rest: Seq<char>)
    requires
        s.len() > 0,
        rest.len() == 0 || crate::text::is_space(rest[0]),
    ensures
        words(s + rest).len() >= words(s).len(),
        forall|i: int| 0 <= i < words(s).len() ==> #[trigger] words(s + rest)[i] == words(s)[i],
        rest.len() > 0 && !crate::text::is_space(rest.last()) ==> words(s + rest).len() > words(s).len(),
    decreases rest.len(),
{
    if rest.len() == 0 {
        assert(s + rest =~= s);
    } else {
        let t = rest.drop_last();
        assert((s + rest).drop_last() =~= s + t);
        assert((s + rest).last() == rest.last());
        if t.len() > 0 {
            assert(t[0] == rest[0]);
        }
        lemma_words_go_on(s, t);
        if rest.len() >= 2 {
            assert((s + rest)[(s + rest).len() - 2] == rest[rest.len() - 2]);
            assert(t.last() == rest[rest.len() - 2]);
        }
    }
}

/// The worth of a hexadecimal digit, whatever its case.
pub proof fn law_hex_digit(c: char)
    ensures
        '0' <= c <= '9' ==> hex_digit(c) == Some(c as int - '0' as int),
        'a' <= c <= 'f' ==> hex_digit(c) == Some(c as int - 'a' as int + 10),
        'A' <= c <= 'F' ==> hex_digit(c) == Some(c as int - 'A' as int + 10),
        hex_digit(c) is None == !('0' <= c <= '9' || 'a' <= c <= 'f' || 'A' <= c <= 'F'),
{
}

/// A number in hexadecimal digits: each further digit makes it sixteen times as large and adds its own worth.
pub proof fn law_hex_value(s: Seq<char>, c: char)
    ensures
        hex_value(Seq::empty()) == Some(0int),
        hex_value(s.push(c)) == (if hex_value(s) is Some && hex_digit(c) is Some {
            Some(16 * hex_value(s)->0 + hex_digit(c)->0)
        } else {
            None
        }),
{
    assert(s.push(c).drop_last() =~= s);
}

/// What the system says of a card's maker, `0x` and digits with a line's end behind them, is the number that the digits stand for.
pub proof fn law_vendor_number(d: Seq<char>)
    requires
        d.len() > 0,
        hex_value(d) is Some,
        0 <= hex_value(d)->0 <= u32::MAX,
    ensures
        vendor_number(seq!['0', 'x'] + d + seq!['\n']) == hex_value(d),
{
    let s = seq!['0', 'x'] + d + seq!['\n'];
    let t = seq!['0', 'x'] + d;
    lemma_hex_digits(d);
    reveal_strlit("0x");
    assert("0x"@ =~= seq!['0', 'x']);
    let n = t.len() as int;
    assert(hex_digit(d[d.len() - 1]) is Some);
    assert(s[n - 1] == d[d.len() - 1]);
    assert forall|k: int| n <= k < s.len() implies crate::text::is_space(#[trigger] s[k]) by {
        assert(s[k] == '\n');
    }
    crate::text::law_trim(s, 0, n);
    assert(s.subrange(0, n) =~= t);
    assert(t.skip(2) =~= d);
    assert(t[0] == '0' && t[1] == 'x');
    assert(t.subrange(0, 2) =~= "0x"@);
    assert(crate::text::has_at(t, "0x"@, 0));
    assert(hex_digit(d[0]) is Some);
    if d.len() >= 2 {
        assert(hex_digit(d[1]) is Some);
        assert(d[1] != 'x');
        assert(!crate::text::has_at(d, "0x"@, 0)) by {
            if crate::text::has_at(d, "0x"@, 0) {
                assert(d.subrange(0, 2)[1] == "0x"@[1]);
            }
        }
    }
    assert(bare_hex(d) == d);
    assert(bare_hex(t) == d);
}

proof fn lemma_hex_digits(d: Seq<char>)
    requires
        hex_value(d) is Some,
    ensures
        forall|i: int| 0 <= i < d.len() ==> hex_digit(#[trigger] d[i]) is Some,
    decreases d.len(),
{
    if d.len() > 0 {
        let t = d.drop_last();
        lemma_hex_digits(t);
        assert forall|i: int| 0 <= i < d.len() implies hex_digit(#[trigger] d[i]) is Some by {
            if i < d.len() - 1 {
                assert(t[i] == d[i]);
            }
        }
    }
}

/// Whose card it is: the numbers of the three makers, and which of them comes first when there are cards of several.
pub proof fn law_vendors(ids: Seq<u32>)
    ensures
        best_vendor(ids) == (if ids.contains(0x10de) {
            Some("nvidia"@)
        } else if ids.contains(0x1002) {
            Some("amd"@)
        } else if ids.contains(0x8086) {
            Some("intel"@)
        } else {
            None
        }),
        only_vendor(ids) == Some("nvidia"@) <==> ids.contains(0x10de) && !ids.contains(0x1002) && !ids.contains(0x8086),
        only_vendor(ids) == Some("amd"@) <==> ids.contains(0x1002) && !ids.contains(0x10de) && !ids.contains(0x8086),
        only_vendor(ids) == Some("intel"@) <==> ids.contains(0x8086) && !ids.contains(0x1002) && !ids.contains(0x10de),
        only_vendor(ids) is Some ==> only_vendor(ids) == best_vendor(ids),
{
    reveal_strlit("nvidia");
    reveal_strlit("amd");
    reveal_strlit("intel");
    assert("nvidia"@.len() == 6 && "amd"@.len() == 3 && "intel"@.len() == 5);
}

/// The cards of a machine: those files that are called `card` and something without a hyphen, if their maker can be read.
pub proof fn law_cards(cards: Seq<CardFile>, n: int)
    requires
        0 <= n < cards.len(),
    ensures
        ({
            let c = cards[n].name@;
            let named = c.len() >= 4 && c.take(4) == "card"@ && forall|i: int| 0 <= i < c.len() ==> #[trigger] c[i] != '-';
            let v = vendor_number(cards[n].vendor@);
            &&& card_ids(cards, 0).len() == 0
            &&& named && v is Some ==> card_ids(cards, n + 1) == card_ids(cards, n).push(v->0 as u32)
            &&& !named || v is None ==> card_ids(cards, n + 1) == card_ids(cards, n)
        }),
{
    let c = cards[n].name@;
    reveal_strlit("card");
    reveal_strlit("-");
    assert("-"@ =~= seq!['-']);
    assert(has_prefix(c, "card"@) == (c.len() >= 4 && c.take(4) == "card"@)) by {
        if crate::text::has_at(c, "card"@, 0) {
            assert(c.take(4) =~= "card"@);
        }
        if c.len() >= 4 && c.take(4) == "card"@ {
            assert forall|j: int| 0 <= j < 4 implies c[0 + j] == #[trigger] "card"@[j] by {
                assert(c.take(4)[j] == c[j]);
            }
        }
    }
    crate::text::law_found(c, "-"@);
    if find_in(c, "-"@) is None {
        assert forall|i: int| 0 <= i < c.len() implies #[trigger] c[i] != '-' by {
            if c[i] == '-' {
                assert(c.subrange(i, i + 1) =~= "-"@);
            }
        }
    } else {
        let i = find_in(c, "-"@)->0;
        assert(c.subrange(i, i + 1)[0] == '-');
        assert(c[i] == '-');
    }
}

/// Who made the card of a machine: Apple on a Mac, by the cards' numbers on Unix, by the drivers' names on Windows.
pub proof fn law_vendor_here(platform: Platform, cards: Seq<CardFile>, drivers: Seq<char>)
    ensures
        vendor_here(Platform::MacOs, cards, drivers) == Some("apple"@),
        vendor_here(Platform::Other, cards, drivers) is None,
        vendor_here(Platform::Unix, cards, drivers) == Some("nvidia"@) <== card_ids(cards, cards.len() as int).contains(0x10de),
        vendor_here(Platform::Unix, cards, drivers) is None <== card_ids(cards, cards.len() as int).len() == 0,
        vendor_here(Platform::Windows, cards, drivers) == (if find_in(lowered(drivers), "nvidia"@) is Some {
            Some("nvidia"@)
        } else if find_in(lowered(drivers), "radeon"@) is Some || find_in(lowered(drivers), "amd"@) is Some {
            Some("amd"@)
        } else if find_in(lowered(drivers), "intel"@) is Some {
            Some("intel"@)
        } else {
            None
        }),
{
}

/// What is tried first: the maker's own way where the maker is known, and the usual one of the system otherwise.
pub proof fn law_first_choices(vendor: Option<Seq<char>>)
    ensures
        decoders(Platform::MacOs, vendor)[0] == Some("videotoolbox"@),
        decoders(Platform::Windows, vendor)[0] == (if vendor == Some("intel"@) {
            Some("qsv"@)
        } else {
            Some("cuda"@)
        }),
        decoders(Platform::Unix, vendor)[0] == (if vendor == Some("nvidia"@) {
            Some("cuda"@)
        } else {
            Some("vaapi"@)
        }),
        decoders(Platform::Other, vendor).len() == 1,
        encoders(Platform::MacOs, vendor) == seq!["h264_videotoolbox"@, "libx264"@],
        encoders(Platform::Windows, vendor)[0] == (if vendor == Some("intel"@) {
            "h264_qsv"@
        } else if vendor == Some("amd"@) {
            "h264_amf"@
        } else {
            "h264_nvenc"@
        }),
        encoders(Platform::Unix, vendor)[0] == (if vendor == Some("nvidia"@) {
            "h264_nvenc"@
        } else {
            "h264_vaapi"@
        }),
        encoders(Platform::Other, vendor) == seq!["libx264"@],
{
    reveal_strlit("intel");
    reveal_strlit("amd");
    assert("intel"@.len() == 5 && "amd"@.len() == 3);
}

/// What else is tried: on Windows each of the three, on Unix those that work there; an Intel card is not asked for CUDA on Unix.
pub proof fn law_all_choices(vendor: Option<Seq<char>>)
    ensures
        decoders(Platform::Windows, vendor).len() == 4,
        decoders(Platform::Windows, vendor)[1] == Some("d3d11va"@),
        decoders(Platform::Windows, vendor)[2] == (if vendor == Some("intel"@) {
            Some("cuda"@)
        } else {
            Some("qsv"@)
        }),
        decoders(Platform::MacOs, vendor).len() == 2,
        vendor == Some("nvidia"@) ==> decoders(Platform::Unix, vendor) == seq![Some("cuda"@), Some("vaapi"@), Some("qsv"@), None],
        vendor == Some("intel"@) ==> decoders(Platform::Unix, vendor) == seq![Some("vaapi"@), Some("qsv"@), None],
        vendor != Some("intel"@) && vendor != Some("nvidia"@) ==> decoders(Platform::Unix, vendor) == seq![
            Some("vaapi"@),
            Some("cuda"@),
            Some("qsv"@),
            None,
        ],
        encoders(Platform::Windows, vendor).len() == 4,
        encoders(Platform::Windows, vendor)[1] == (if vendor == Some("intel"@) || vendor == Some("amd"@) {
            "h264_nvenc"@
        } else {
            "h264_qsv"@
        }),
        encoders(Platform::Windows, vendor)[2] == (if vendor == Some("amd"@) {
            "h264_qsv"@
        } else {
            "h264_amf"@
        }),
        encoders(Platform::Unix, vendor).len() == 3,
        encoders(Platform::Unix, vendor)[1] == (if vendor == Some("nvidia"@) {
            "h264_vaapi"@
        } else {
            "h264_nvenc"@
        }),
{
    reveal_strlit("intel");
    reveal_strlit("nvidia");
    reveal_strlit("amd");
    assert("intel"@.len() == 5 && "nvidia"@.len() == 6 && "amd"@.len() == 3);
}

/// How a decoder is called: it is silent but for errors and reads no commands; the help that it gets is named before the file, and
/// the first picture stream of that file comes out frame by frame.
pub proof fn law_decode_head(input: Seq<char>, hwaccel: Option<Seq<char>>)
    ensures
        ({
            let c = decode_head(input, hwaccel);
            let n: int = match hwaccel {
                Some(hw) => if hw == "qsv"@ {
                    4
                } else {
                    2
                },
                None => 0,
            };
            &&& c.len() == 9 + n
            &&& c.take(3) == seq!["-loglevel"@, "error"@, "-nostdin"@]
            &&& hwaccel is Some ==> c[3] == "-hwaccel"@ && c[4] == hwaccel->0
            &&& n == 4 ==> c[5] == "-hwaccel_output_format"@ && c[6] == "nv12"@
            &&& c[3 + n] == "-i"@
            &&& c[4 + n] == input
            &&& c.skip(5 + n) == seq!["-map"@, "0:v:0"@, "-fps_mode"@, "passthrough"@]
        }),
{
    let c = decode_head(input, hwaccel);
    let n: int = match hwaccel {
        Some(hw) => if hw == "qsv"@ {
            4
        } else {
            2
        },
        None => 0,
    };
    assert(c.take(3) =~= seq!["-loglevel"@, "error"@, "-nostdin"@]);
    assert(c.skip(5 + n) =~= seq!["-map"@, "0:v:0"@, "-fps_mode"@, "passthrough"@]);
}

/// The bit rate grows with the longer edge, in four steps.
pub proof fn law_rate_for(edge: int)
    ensures
        edge <= 1280 ==> rate_for(edge) == seq!['3', 'M'],
        1280 < edge <= 1920 ==> rate_for(edge) == seq!['6', 'M'],
        1920 < edge <= 2560 ==> rate_for(edge) == seq!['1', '0', 'M'],
        2560 < edge ==> rate_for(edge) == seq!['2', '0', 'M'],
{
    reveal_strlit("3M");
    reveal_strlit("6M");
    reveal_strlit("10M");
    reveal_strlit("20M");
    assert("3M"@ =~= seq!['3', 'M']);
    assert("6M"@ =~= seq!['6', 'M']);
    assert("10M"@ =~= seq!['1', '0', 'M']);
    assert("20M"@ =~= seq!['2', '0', 'M']);
}

/// The ending of a file is what comes behind the last dot of its name, if something comes before that dot.
pub proof fn law_ending(platform: Platform, dir: Seq<char>, name: Seq<char>, e: Seq<char>)
    requires
        platform != Platform::Windows,
        dir.len() > 0,
        forall|i: int| 0 <= i < name.len() ==> #[trigger] name[i] != '/',
        forall|i: int| 0 <= i < e.len() ==> #[trigger] e[i] != '/' && e[i] != '.',
        name != seq!['.'],
    ensures
        name.len() > 0 ==> ending(platform, dir + seq!['/'] + name + seq!['.'] + e) == e,
        e.len() > 0 ==> ending(platform, dir + seq!['/'] + seq!['.'] + e).len() == 0,
        e.len() > 0 ==> ending(platform, dir + seq!['/'] + e).len() == 0,
{
    reveal_strlit(".");
    reveal_strlit("..");
    assert("."@.len() == 1 && "."@[0] == '.');
    assert(".."@.len() == 2 && ".."@[0] == '.' && ".."@[1] == '.');
    let f = name + seq!['.'] + e;
    if name.len() > 0 {
        assert forall|i: int| 0 <= i < f.len() implies #[trigger] f[i] != '/' by {
            if i < name.len() {
                assert(f[i] == name[i]);
            } else if i > name.len() {
                assert(f[i] == e[i - name.len() - 1]);
            }
        }
        crate::paths::law_route_grows(platform, dir, f);
        assert(dir + seq!['/'] + f =~= dir + seq!['/'] + name + seq!['.'] + e);
        lemma_last_dot(name, e);
        assert(f.skip(name.len() as int + 1) =~= e);
        if f == ".."@ {
            assert(name.len() + 1 + e.len() == 2);
            if e.len() == 0 {
                assert(f[0] == name[0]);
                assert(name =~= seq!['.']);
            } else {
                assert(f[1] == e[0] || f[1] == '.');
            }
            assert(false);
        }
    }
    if e.len() > 0 {
        let h = seq!['.'] + e;
        assert forall|i: int| 0 <= i < h.len() implies #[trigger] h[i] != '/' by {
            if i > 0 {
                assert(h[i] == e[i - 1]);
            }
        }
        assert(h[1] == e[0]);
        crate::paths::law_route_grows(platform, dir, h);
        assert(dir + seq!['/'] + h =~= dir + seq!['/'] + seq!['.'] + e);
        lemma_last_dot(Seq::empty(), e);
        assert(Seq::<char>::empty() + seq!['.'] + e =~= h);
        assert(e[0] != '.');
        crate::paths::law_route_grows(platform, dir, e);
        lemma_no_dot(e);
    }
}

proof fn lemma_last_dot(name: Seq<char>, e: Seq<char>)
    requires
        forall|i: int| 0 <= i < e.len() ==> #[trigger] e[i] != '.',
    ensures
        last_dot(name + seq!['.'] + e) == Some(name.len() as int),
    decreases e.len(),
{
    let s = name + seq!['.'] + e;
    if e.len() == 0 {
        assert(s.last() == '.');
    } else {
        let d = e.drop_last();
        assert forall|i: int| 0 <= i < d.len() implies #[trigger] d[i] != '.' by {
            assert(d[i] == e[i]);
        }
        lemma_last_dot(name, d);
        assert(s.drop_last() =~= name + seq!['.'] + d);
        assert(s.last() == e[e.len() - 1]);
    }
}

proof fn lemma_no_dot(e: Seq<char>)
    requires
        forall|i: int| 0 <= i < e.len() ==> #[trigger] e[i] != '.',
    ensures
        last_dot(e) is None,
    decreases e.len(),
{
    if e.len() > 0 {
        let d = e.drop_last();
        assert forall|i: int| 0 <= i < d.len() implies #[trigger] d[i] != '.' by {
            assert(d[i] == e[i]);
        }
        lemma_no_dot(d);
        assert(e[e.len() - 1] != '.');
    }
}

/// What belongs to the family of MP4: an ending of three characters that is `mp4`, `m4v` or `mov`, in whatever case.
pub proof fn law_mp4(platform: Platform, path: Seq<char>)
    ensures
        is_mp4(platform, path) ==> ending(platform, path).len() == 3,
        ending(platform, path).len() == 3 ==> {
            let e = ending(platform, path);
            let m = e[0] == 'm' || e[0] == 'M';
            let v = e[2] == 'v' || e[2] == 'V';
            is_mp4(platform, path) == (m && ((e[1] == 'p' || e[1] == 'P') && e[2] == '4' || e[1] == '4' && v || (e[1] == 'o' || e[1]
                == 'O') && v))
        },
{
    reveal_strlit("mp4");
    reveal_strlit("m4v");
    reveal_strlit("mov");
    let e = ending(platform, path);
    let l = lowered(e);
    assert(lowered("mp4"@) =~= seq!['m', 'p', '4']);
    assert(lowered("m4v"@) =~= seq!['m', '4', 'v']);
    assert(lowered("mov"@) =~= seq!['m', 'o', 'v']);
    if e.len() == 3 {
        crate::text::law_lowered(e, 0);
        crate::text::law_lowered(e, 1);
        crate::text::law_lowered(e, 2);
        assert(l =~= seq![l[0], l[1], l[2]]);
        let m = e[0] == 'm' || e[0] == 'M';
        let v = e[2] == 'v' || e[2] == 'V';
        assert(m == (l[0] == 'm'));
        assert(v == (l[2] == 'v'));
        assert((e[2] == '4') == (l[2] == '4'));
        assert((e[1] == '4') == (l[1] == '4'));
        assert((e[1] == 'p' || e[1] == 'P') == (l[1] == 'p'));
        assert((e[1] == 'o' || e[1] == 'O') == (l[1] == 'o'));
        assert((l == seq!['m', 'p', '4']) == (l[0] == 'm' && l[1] == 'p' && l[2] == '4'));
        assert((l == seq!['m', '4', 'v']) == (l[0] == 'm' && l[1] == '4' && l[2] == 'v'));
        assert((l == seq!['m', 'o', 'v']) == (l[0] == 'm' && l[1] == 'o' && l[2] == 'v'));
    }
}

/// How an encoder is called: raw frames of the given size and rate come in first, the file with the sound second; the picture is
/// taken from the first, with the encoder asked for, and the last word is the file to write.
pub proof fn law_encode_words(platform: Platform, output: Seq<char>, o: EncodeOptions, device: Seq<char>)
    ensures
        ({
            let c = encode_words(platform, output, o, device);
            let k = kind_of(o.encoder@);
            let d: int = if k == EncoderKind::Qsv {
                4
            } else if k == EncoderKind::Vaapi {
                2
            } else {
                0
            };
            let a: int = if o.audio_from is Some {
                2
            } else {
                0
            };
            &&& k == EncoderKind::Qsv ==> c.take(4) == seq!["-init_hw_device"@, "qsv=hw"@, "-filter_hw_device"@, "hw"@]
            &&& k == EncoderKind::Vaapi ==> c.take(2) == seq!["-vaapi_device"@, device]
            &&& c[d] == "-y"@
            &&& c.subrange(d + 3, d + 7) == seq!["-f"@, "rawvideo"@, "-pixel_format"@, "nv12"@]
            &&& c[d + 7] == "-video_size"@
            &&& c[d + 8] == dec(o.width as nat) + seq!['x'] + dec(o.height as nat)
            &&& c[d + 9] == "-framerate"@
            &&& c[d + 10] == o.fps@
            &&& c[d + 11] == "-i"@
            &&& c[d + 12] == "-"@
            &&& o.audio_from is Some ==> c[d + 13] == "-i"@ && c[d + 14] == o.audio_from->0@
            &&& c.subrange(d + a + 13, d + a + 16) == seq!["-map"@, "0:v:0"@, "-c:v"@]
            &&& c[d + a + 16] == o.encoder@
            &&& c.last() == output
        }),
{
    reveal_strlit("x");
    assert("x"@ =~= seq!['x']);
    let k = kind_of(o.encoder@);
    let d = device_words(k, device);
    let f = frames_in(o);
    let s = sound_in(o);
    let m = seq!["-map"@, "0:v:0"@, "-c:v"@, o.encoder@];
    let fast = if is_mp4(platform, output) {
        seq!["-movflags"@, "+faststart"@]
    } else {
        Seq::empty()
    };
    let c = encode_words(platform, output, o, device);
    lemma_parts_of_words(d, f, s, m, quality_words(k, o.bitrate@), source_words(platform, o, output), fast, output);
    let n = d.len() as int;
    assert(c.take(n) =~= d);
    assert(c.subrange(n, n + 13) =~= f);
    assert(c.subrange(n + 3, n + 7) =~= f.subrange(3, 7));
    assert(f.subrange(3, 7) =~= seq!["-f"@, "rawvideo"@, "-pixel_format"@, "nv12"@]);
    assert forall|i: int| 0 <= i < 13 implies #[trigger] f[i] == c[n + i] by {
        assert(c.subrange(n, n + 13)[i] == c[n + i]);
    }
    assert(f[0] == "-y"@ && f[7] == "-video_size"@ && f[9] == "-framerate"@ && f[10] == o.fps@);
    assert(f[11] == "-i"@ && f[12] == "-"@);
    assert(f[8] == dec(o.width as nat) + seq!['x'] + dec(o.height as nat));
    let a = s.len() as int;
    if o.audio_from is Some {
        assert(s[0] == "-i"@ && s[1] == o.audio_from->0@);
    }
    assert(c.subrange(n + a + 13, n + a + 16) =~= m.subrange(0, 3));
    assert(m.subrange(0, 3) =~= seq!["-map"@, "0:v:0"@, "-c:v"@]);
}

proof fn lemma_parts_of_words(
    d: Seq<Seq<char>>,
    f: Seq<Seq<char>>,
    s: Seq<Seq<char>>,
    m: Seq<Seq<char>>,
    q: Seq<Seq<char>>,
    t: Seq<Seq<char>>,
    u: Seq<Seq<char>>,
    output: Seq<char>,
)
    ensures
        ({
            let c = d + f + s + m + q + t + u + seq![output];
            &&& c.len() >= d.len() + f.len() + s.len() + m.len()
            &&& forall|i: int| 0 <= i < d.len() ==> #[trigger] d[i] == c[i]
            &&& forall|i: int| 0 <= i < f.len() ==> #[trigger] f[i] == c[d.len() + i]
            &&& forall|i: int| 0 <= i < s.len() ==> #[trigger] s[i] == c[d.len() + f.len() + i]
            &&& forall|i: int| 0 <= i < m.len() ==> #[trigger] m[i] == c[d.len() + f.len() + s.len() + i]
            &&& c.last() == output
        }),
{
}

/// What is taken over from the source: with no source nothing; otherwise its sound, made anew only if asked, its subtitles as the new
/// file can hold them, chapters and descriptions.
pub proof fn law_source_words(platform: Platform, o: EncodeOptions, output: Seq<char>)
    ensures
        o.audio_from is None ==> source_words(platform, o, output).len() == 0,
        o.audio_from is Some ==> {
            let c = source_words(platform, o, output);
            let a: int = if o.audio_transcode {
                4
            } else {
                2
            };
            &&& c.take(2) == seq!["-map"@, "1:a?"@]
            &&& o.audio_transcode ==> c.subrange(2, 6) == seq!["-c:a"@, "aac"@, "-b:a"@, "192k"@]
            &&& !o.audio_transcode ==> c.subrange(2, 4) == seq!["-c:a"@, "copy"@]
            &&& is_mp4(platform, output) ==> c.subrange(2 + a, 6 + a) == seq!["-map"@, "1:s?"@, "-c:s"@, "mov_text"@]
            &&& !is_mp4(platform, output) && lowered(ending(platform, output)) == lowered("mkv"@) ==> c.subrange(2 + a, 6 + a) == seq![
                "-map"@,
                "1:s?"@,
                "-c:s"@,
                "copy"@,
            ]
            &&& !is_mp4(platform, output) && lowered(ending(platform, output)) != lowered("mkv"@) ==> c.len() == 6 + a
            &&& c.skip(c.len() - 4) == seq!["-map_chapters"@, "1"@, "-map_metadata"@, "1"@]
        },
{
    if o.audio_from is Some {
        let c = source_words(platform, o, output);
        let a: int = if o.audio_transcode {
            4
        } else {
            2
        };
        assert(c.take(2) =~= seq!["-map"@, "1:a?"@]);
        if o.audio_transcode {
            assert(c.subrange(2, 6) =~= seq!["-c:a"@, "aac"@, "-b:a"@, "192k"@]);
        } else {
            assert(c.subrange(2, 4) =~= seq!["-c:a"@, "copy"@]);
        }
        if is_mp4(platform, output) {
            assert(c.subrange(2 + a, 6 + a) =~= seq!["-map"@, "1:s?"@, "-c:s"@, "mov_text"@]);
        } else if lowered(ending(platform, output)) == lowered("mkv"@) {
            assert(c.subrange(2 + a, 6 + a) =~= seq!["-map"@, "1:s?"@, "-c:s"@, "copy"@]);
        }
        assert(c.skip(c.len() - 4) =~= seq!["-map_chapters"@, "1"@, "-map_metadata"@, "1"@]);
    }
}

/// A text comes before another if, where they first differ, its character is the smaller, or if it ends there.
pub proof fn law_precedes(a: Seq<char>, b: Seq<char>, n: int)
    requires
        0 <= n <= a.len(),
        n <= b.len(),
        forall|i: int| 0 <= i < n ==> #[trigger] a[i] == b[i],
    ensures
        n < a.len() && n < b.len() && a[n] != b[n] ==> precedes(a, b) == (a[n] < b[n]),
        n == a.len() || n == b.len() ==> precedes(a, b) == (n == a.len() && n < b.len()),
    decreases n,
{
    if n > 0 {
        let p = a.skip(1);
        let q = b.skip(1);
        assert forall|i: int| 0 <= i < n - 1 implies #[trigger] p[i] == q[i] by {
            assert(a[i + 1] == b[i + 1]);
        }
        assert(a[0] == b[0]);
        law_precedes(p, q, n - 1);
    }
}

/// The device that draws is one of those whose names begin with `renderD`, and none of these comes before it.
pub proof fn law_first_node(names: Seq<Seq<char>>, n: int)
    requires
        0 <= n <= names.len(),
    ensures
        first_node(names, n) is None <==> forall|i: int| 0 <= i < n ==> !has_prefix(#[trigger] names[i], "renderD"@),
        first_node(names, n) is Some ==> exists|i: int| 0 <= i < n && #[trigger] names[i] == first_node(names, n)->0 && has_prefix(
            names[i],
            "renderD"@,
        ),
        forall|i: int|
            0 <= i < n && has_prefix(#[trigger] names[i], "renderD"@) ==> !precedes(names[i], first_node(names, n)->0),
    decreases n,
{
    if n > 0 {
        law_first_node(names, n - 1);
        let b = first_node(names, n - 1);
        let x = names[n - 1];
        lemma_not_before_itself(x);
        if has_prefix(x, "renderD"@) && b is Some && precedes(x, b->0) {
            assert forall|i: int| 0 <= i < n && has_prefix(#[trigger] names[i], "renderD"@) implies !precedes(names[i], x) by {
                if i < n - 1 && precedes(names[i], x) {
                    lemma_precedes_on(names[i], x, b->0);
                }
            }
        }
    }
}

proof fn lemma_not_before_itself(a: Seq<char>)
    ensures
        !precedes(a, a),
    decreases a.len(),
{
    if a.len() > 0 {
        lemma_not_before_itself(a.skip(1));
    }
}

proof fn lemma_precedes_on(a: Seq<char>, b: Seq<char>, c: Seq<char>)
    requires
        precedes(a, b),
        precedes(b, c),
    ensures
        precedes(a, c),
    decreases a.len(),
{
    if a.len() > 0 && a[0] == b[0] && b[0] == c[0] {
        lemma_precedes_on(a.skip(1), b.skip(1), c.skip(1));
    }
}

/// An encoder's kind shows in its name: in the maker's word in it or at its end, or in the whole name.
pub proof fn law_kind_of(name: Seq<char>)
    ensures
        kind_of("h264_videotoolbox"@) == EncoderKind::VideoToolbox,
        kind_of("libx264"@) == EncoderKind::X264,
        (exists|i: int| 0 <= i && i + 5 <= name.len() && #[trigger] name.subrange(i, i + 5) == seq!['n', 'v', 'e', 'n', 'c']) && name
            != "h264_videotoolbox"@ ==> kind_of(name) == EncoderKind::Nvenc,
        !(exists|i: int| 0 <= i && i + 5 <= name.len() && #[trigger] name.subrange(i, i + 5) == seq!['n', 'v', 'e', 'n', 'c']) ==> {
            &&& kind_of(name) != EncoderKind::Nvenc
            &&& name.len() >= 3 && name.skip(name.len() - 3) == seq!['q', 's', 'v'] ==> kind_of(name) == EncoderKind::Qsv
            &&& name.len() >= 3 && name.skip(name.len() - 3) == seq!['a', 'm', 'f'] ==> kind_of(name) == EncoderKind::Amf
            &&& name.len() >= 5 && name.skip(name.len() - 5) == seq!['v', 'a', 'a', 'p', 'i'] ==> kind_of(name) == EncoderKind::Vaapi
        },
{
    reveal_strlit("nvenc");
    reveal_strlit("qsv");
    reveal_strlit("amf");
    reveal_strlit("vaapi");
    reveal_strlit("libx264");
    reveal_strlit("h264_videotoolbox");
    assert("nvenc"@ =~= seq!['n', 'v', 'e', 'n', 'c']);
    assert("qsv"@ =~= seq!['q', 's', 'v']);
    assert("amf"@ =~= seq!['a', 'm', 'f']);
    assert("vaapi"@ =~= seq!['v', 'a', 'a', 'p', 'i']);
    crate::text::law_found(name, "nvenc"@);
    let n = name.len() as int;
    if n >= 3 {
        assert(name.subrange(n - 3, n) =~= name.skip(n - 3));
        assert(name.skip(n - 3)[2] == name[n - 1]);
    }
    if n >= 5 {
        assert(name.subrange(n - 5, n) =~= name.skip(n - 5));
        assert(name.skip(n - 5)[4] == name[n - 1]);
    }
    let v = "h264_videotoolbox"@;
    assert(v[v.len() - 1] == 'x');
    let x = "libx264"@;
    assert(x.len() == 7 && x[6] == '4' && v.len() == 17);
    crate::text::law_found(x, "nvenc"@);
    if find_in(x, "nvenc"@) is Some {
        let i = find_in(x, "nvenc"@)->0;
        assert(x.subrange(i, i + 5)[0] == x[i]);
        assert(x[i] == 'n');
        assert(i == 0 || i == 1 || i == 2);
        assert(x[0] == 'l' && x[1] == 'i' && x[2] == 'b');
    }
    assert(x.subrange(4, 7)[2] == x[6]);
    assert(x.subrange(2, 7)[4] == x[6]);
}

/// What sets the quality: a bit rate for the encoders of Apple and AMD, a fixed quality for the others, each in its own words; a
/// surface for the encoders that take their frames from the card; and nothing for an encoder that is not known.
pub proof fn law_quality_words(bitrate: Seq<char>)
    ensures
        quality_words(EncoderKind::VideoToolbox, bitrate).take(2) == seq!["-b:v"@, bitrate],
        quality_words(EncoderKind::VideoToolbox, bitrate).skip(2) == seq!["-realtime"@, "1"@, "-allow_sw"@, "1"@, "-tag:v"@, "avc1"@],
        quality_words(EncoderKind::Amf, bitrate) == seq!["-quality"@, "balanced"@, "-b:v"@, bitrate],
        quality_words(EncoderKind::Nvenc, bitrate) == seq!["-preset"@, "p4"@, "-rc"@, "vbr"@, "-cq"@, "23"@, "-b:v"@, "0"@],
        quality_words(EncoderKind::Qsv, bitrate) == seq!["-global_quality"@, "22"@, "-vf"@, "format=nv12,hwupload"@],
        quality_words(EncoderKind::Vaapi, bitrate) == seq![
            "-rc_mode"@,
            "CQP"@,
            "-global_quality"@,
            "22"@,
            "-vf"@,
            "format=nv12|vaapi,hwupload"@,
        ],
        quality_words(EncoderKind::X264, bitrate) == seq!["-crf"@, "20"@, "-preset"@, "veryfast"@],
        quality_words(EncoderKind::Other, bitrate).len() == 0,
{
    assert(quality_words(EncoderKind::VideoToolbox, bitrate).take(2) =~= seq!["-b:v"@, bitrate]);
    assert(quality_words(EncoderKind::VideoToolbox, bitrate).skip(2) =~= seq![
        "-realtime"@,
        "1"@,
        "-allow_sw"@,
        "1"@,
        "-tag:v"@,
        "avc1"@,
    ]);
}

} // verus!
