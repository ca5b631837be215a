//! Paths: their parts, the directories above them, and how they are put together. On Windows a path may begin with a drive or
//! a share, and both `/` and `\` stand between parts.
use crate::media::Platform;
use crate::text::{append, chars_of, same, slice, split, split_on, text_of, texts};
use vstd::prelude::*;

verus! {

/// Whether a character stands between the parts of a path.
pub open spec fn parts_at(platform: Platform, c: char) -> bool {
    c == '/' || (platform == Platform::Windows && c == '\\')
}

/// The character that is put between the parts of a path.
pub open spec fn divider(platform: Platform) -> char {
    if platform == Platform::Windows {
        '\\'
    } else {
        '/'
    }
}

/// The first position from `from` on at which a part ends.
pub open spec fn part_end(platform: Platform, s: Seq<char>, from: int) -> int
    decreases s.len() - from,
{
    if from >= s.len() || parts_at(platform, s[from]) {
        from
    } else {
        part_end(platform, s, from + 1)
    }
}

/// Whether a path begins with a drive: a letter and a colon.
pub open spec fn on_drive(platform: Platform, s: Seq<char>) -> bool {
    platform == Platform::Windows && s.len() >= 2 && s[1] == ':' && (('a' <= s[0] && s[0] <= 'z') || ('A' <= s[0] && s[0]
        <= 'Z'))
}

/// Whether a path begins with a share: two dividers, a machine, a divider and a name.
pub open spec fn on_share(platform: Platform, s: Seq<char>) -> bool {
    platform == Platform::Windows && s.len() >= 2 && parts_at(platform, s[0]) && parts_at(platform, s[1]) && part_end(
        platform,
        s,
        2,
    ) < s.len()
}

/// How long the drive or the share is with which a path begins.
pub open spec fn prefix_len(platform: Platform, s: Seq<char>) -> int {
    if on_drive(platform, s) {
        2
    } else if on_share(platform, s) {
        part_end(platform, s, part_end(platform, s, 2) + 1)
    } else {
        0
    }
}

/// Whether a path starts at the root, of its drive or share if it names one.
pub open spec fn rooted(platform: Platform, s: Seq<char>) -> bool {
    let n = prefix_len(platform, s);
    on_share(platform, s) || (n < s.len() && parts_at(platform, s[n]))
}

/// The path of `name` seen from `dir`: a `name` with a drive or a share stands for itself, and so does one that starts at the
/// root, but for the drive of `dir`.
pub open spec fn joined(platform: Platform, dir: Seq<char>, name: Seq<char>) -> Seq<char> {
    let n = prefix_len(platform, dir);
    if prefix_len(platform, name) > 0 {
        name
    } else if rooted(platform, name) {
        dir.take(n) + name
    } else if dir.len() == 0 || parts_at(platform, dir.last()) || (on_drive(platform, dir) && n == dir.len()) {
        dir + name
    } else {
        dir.push(divider(platform)) + name
    }
}

fn is_divider(platform: Platform, c: char) -> (r: bool)
    ensures
        r == parts_at(platform, c),
{
    c == '/' || (platform == Platform::Windows && c == '\\')
}

fn divider_of(platform: Platform) -> (c: char)
    ensures
        c == divider(platform),
{
    if platform == Platform::Windows {
        '\\'
    } else {
        '/'
    }
}

fn find_part_end(platform: Platform, s: &[char], from: usize) -> (n: usize)
    requires
        from <= s@.len(),
    ensures
        n == part_end(platform, s@, from as int),
        from <= n <= s@.len(),
{
    let mut n: usize = from;
    while n < s.len() && !is_divider(platform, s[n])
        invariant
            from <= n <= s@.len(),
            part_end(platform, s@, from as int) == part_end(platform, s@, n as int),
        decreases s@.len() - n,
    {
        n = n + 1;
    }
    n
}

fn has_drive(platform: Platform, s: &[char]) -> (r: bool)
    ensures
        r == on_drive(platform, s@),
{
    platform == Platform::Windows && s.len() >= 2 && s[1] == ':' && (('a' <= s[0] && s[0] <= 'z') || ('A' <= s[0] && s[0]
        <= 'Z'))
}

fn has_share(platform: Platform, s: &[char]) -> (r: bool)
    ensures
        r == on_share(platform, s@),
{
    assert(s.len() == s@.len());
    platform == Platform::Windows && s.len() >= 2 && is_divider(platform, s[0]) && is_divider(platform, s[1])
        && find_part_end(platform, s, 2) < s.len()
}

fn find_prefix(platform: Platform, s: &[char]) -> (n: usize)
    ensures
        n == prefix_len(platform, s@),
        n <= s@.len(),
{
    assert(s.len() == s@.len());
    if has_drive(platform, s) {
        2
    } else if has_share(platform, s) {
        let m: usize = find_part_end(platform, s, 2);
        find_part_end(platform, s, m + 1)
    } else {
        0
    }
}

fn is_rooted(platform: Platform, s: &[char]) -> (r: bool)
    ensures
        r == rooted(platform, s@),
{
    let n: usize = find_prefix(platform, s);
    assert(s.len() == s@.len());
    has_share(platform, s) || (n < s.len() && is_divider(platform, s[n]))
}

/// The path of `name` seen from `dir`.
pub fn join(platform: Platform, dir: &str, name: &str) -> (r: String)
    ensures
        r@ == joined(platform, dir@, name@),
{
    let d = chars_of(dir);
    let n = chars_of(name);
    if find_prefix(platform, &n) > 0 {
        return name.to_owned();
    }
    let p: usize = find_prefix(platform, &d);
    if is_rooted(platform, &n) {
        let mut r = text_of(&slice(&d, 0, p));
        append(&mut r, name);
        assert(d@.subrange(0, p as int) =~= d@.take(p as int));
        return r;
    }
    let mut r = dir.to_owned();
    if d.len() > 0 && !is_divider(platform, d[d.len() - 1]) && !(has_drive(platform, &d) && p == d.len()) {
        r.push(divider_of(platform));
    }
    append(&mut r, name);
    r
}

/// A path taken apart: the drive or the share with which it begins, whether it starts at the root, whether it starts with a
/// dot, and its parts.
#[verifier::ext_equal]
pub struct RouteView {
    pub prefix: Seq<char>,
    pub absolute: bool,
    pub dot: bool,
    pub parts: Seq<Seq<char>>,
}

/// A path taken apart.
#[derive(Debug)]
pub struct Route {
    pub prefix: String,
    pub absolute: bool,
    pub dot: bool,
    pub parts: Vec<String>,
}

impl View for Route {
    type V = RouteView;

    open spec fn view(&self) -> RouteView {
        RouteView { prefix: self.prefix@, absolute: self.absolute, dot: self.dot, parts: texts(self.parts@) }
    }
}

/// The pieces that are parts of a path: those that are neither empty nor a dot.
pub open spec fn named(pieces: Seq<Seq<char>>) -> Seq<Seq<char>>
    decreases pieces.len(),
{
    if pieces.len() == 0 {
        Seq::empty()
    } else if pieces.last().len() == 0 || pieces.last() == "."@ {
        named(pieces.drop_last())
    } else {
        named(pieces.drop_last()).push(pieces.last())
    }
}

/// A text with `/` for every character that stands between the parts of a path.
pub open spec fn unified(platform: Platform, s: Seq<char>) -> Seq<char> {
    s.map_values(
        |c: char|
            if parts_at(platform, c) {
                '/'
            } else {
                c
            },
    )
}

/// The path `s` taken apart.
pub open spec fn route_of(platform: Platform, s: Seq<char>) -> RouteView {
    let n = prefix_len(platform, s);
    let pieces = split(unified(platform, s.skip(n)), '/');
    let absolute = rooted(platform, s);
    RouteView { prefix: s.take(n), absolute, dot: !absolute && pieces[0] == "."@, parts: named(pieces) }
}

/// The directory that holds a path; the root and the empty path have none.
pub open spec fn parent_of(r: RouteView) -> Option<RouteView> {
    if r.parts.len() > 0 {
        Some(RouteView { parts: r.parts.drop_last(), ..r })
    } else if r.dot {
        Some(RouteView { dot: false, ..r })
    } else {
        None
    }
}

/// A path and the directories above it, at most `n`.
pub open spec fn upwards(r: Option<RouteView>, n: int) -> Seq<RouteView>
    decreases n,
{
    if n <= 0 || r is None {
        Seq::empty()
    } else {
        seq![r->0] + upwards(parent_of(r->0), n - 1)
    }
}

/// The list `s` without what has occurred before.
pub open spec fn firsts<A>(s: Seq<A>) -> Seq<A>
    decreases s.len(),
{
    if s.len() == 0 {
        Seq::empty()
    } else {
        let d = firsts(s.drop_last());
        if d.contains(s.last()) {
            d
        } else {
            d.push(s.last())
        }
    }
}

/// `parts` with a divider between them.
pub open spec fn divided(platform: Platform, parts: Seq<Seq<char>>) -> Seq<char>
    decreases parts.len(),
{
    if parts.len() == 0 {
        Seq::empty()
    } else if parts.len() == 1 {
        parts[0]
    } else {
        divided(platform, parts.drop_last()).push(divider(platform)) + parts.last()
    }
}

/// A path put together again.
pub open spec fn rendered(platform: Platform, r: RouteView) -> Seq<char> {
    r.prefix + (if r.absolute {
        seq![divider(platform)] + divided(platform, r.parts)
    } else if r.dot && r.parts.len() == 0 {
        seq!['.']
    } else if r.dot {
        seq!['.', divider(platform)] + divided(platform, r.parts)
    } else {
        divided(platform, r.parts)
    })
}

/// The directories in which the tools and models that belong to a program are looked for: those above the
/// program, at most ten, then the working directory and those above it, at most three in all.
pub open spec fn search_list(platform: Platform, exe: Option<Seq<char>>, cwd: Option<Seq<char>>) -> Seq<RouteView> {
    let e = match exe {
        Some(s) => parent_of(route_of(platform, s)),
        None => None,
    };
    let c = match cwd {
        Some(s) => Some(route_of(platform, s)),
        None => None,
    };
    firsts(upwards(e, 10) + upwards(c, 3))
}

impl Route {
    /// Takes a path apart.
    pub fn parse(platform: Platform, s: &str) -> (r: Route)
        ensures
            r@ == route_of(platform, s@),
    {
        let c = chars_of(s);
        let n: usize = find_prefix(platform, &c);
        let absolute = is_rooted(platform, &c);
        let prefix = text_of(&slice(&c, 0, n));
        let mut rest: Vec<char> = Vec::new();
        let ghost u = unified(platform, s@.skip(n as int));
        for i in n..c.len()
            invariant
                n <= c@.len(),
                c@ == s@,
                u == unified(platform, s@.skip(n as int)),
                rest@.len() == i - n,
                forall|j: int| 0 <= j < i - n ==> rest@[j] == u[j],
        {
            let x: char = c[i];
            rest.push(if is_divider(platform, x) { '/' } else { x });
        }
        assert(rest@ =~= u);
        assert(c@.subrange(0, n as int) =~= s@.take(n as int));
        let pieces = split_on(&rest, '/');
        let ghost p = split(u, '/');
        let first = text_of(&pieces[0]);
        assert(pieces@[0]@ == p[0]);
        let dot = !absolute && same(first.as_str(), ".");
        let mut parts: Vec<String> = Vec::new();
        assert(p.take(0) =~= Seq::<Seq<char>>::empty());
        assert(texts(parts@) =~= Seq::<Seq<char>>::empty());
        for i in 0..pieces.len()
            invariant
                p == crate::text::rows(pieces@),
                texts(parts@) == named(p.take(i as int)),
        {
            assert(p.take(i + 1).drop_last() =~= p.take(i as int));
            assert(pieces@[i as int]@ == p[i as int]);
            let t = text_of(&pieces[i]);
            let ghost before = texts(parts@);
            if pieces[i].len() > 0 && !same(t.as_str(), ".") {
                parts.push(t);
                assert(texts(parts@) =~= before.push(p[i as int]));
            }
        }
        assert(p.take(p.len() as int) =~= p);
        Route { prefix, absolute, dot, parts }
    }

    /// The same path.
    pub fn copy(&self) -> (r: Route)
        ensures
            r@ == self@,
    {
        let parts = copy_texts(&self.parts, self.parts.len());
        assert(self.parts@.take(self.parts@.len() as int) =~= self.parts@);
        Route { prefix: self.prefix.clone(), absolute: self.absolute, dot: self.dot, parts }
    }

    /// The directory that holds the path.
    pub fn parent(&self) -> (r: Option<Route>)
        ensures
            r is Some <==> parent_of(self@) is Some,
            r is Some ==> r->0@ == parent_of(self@)->0,
    {
        let n: usize = self.parts.len();
        if n > 0 {
            let parts = copy_texts(&self.parts, n - 1);
            assert(texts(self.parts@.take(n - 1)) =~= texts(self.parts@).drop_last());
            Some(Route { prefix: self.prefix.clone(), absolute: self.absolute, dot: self.dot, parts })
        } else if self.dot {
            let parts: Vec<String> = Vec::new();
            assert(texts(parts@) =~= texts(self.parts@));
            Some(Route { prefix: self.prefix.clone(), absolute: self.absolute, dot: false, parts })
        } else {
            None
        }
    }

    /// Whether two paths are the same.
    pub fn is_same(&self, other: &Route) -> (r: bool)
        ensures
            r == (self@ == other@),
    {
        if !same(self.prefix.as_str(), other.prefix.as_str()) {
            return false;
        }
        if self.absolute != other.absolute || self.dot != other.dot || self.parts.len() != other.parts.len() {
            assert(self@.parts.len() == self.parts@.len() && other@.parts.len() == other.parts@.len());
            return false;
        }
        for i in 0..self.parts.len()
            invariant
                self.parts@.len() == other.parts@.len(),
                forall|j: int| 0 <= j < i ==> self.parts@[j]@ == other.parts@[j]@,
        {
            if !same(self.parts[i].as_str(), other.parts[i].as_str()) {
                assert(self@.parts[i as int] != other@.parts[i as int]);
                return false;
            }
        }
        assert(self@ =~= other@);
        true
    }

    /// The path put together again.
    pub fn render(&self, platform: Platform) -> (s: String)
        ensures
            s@ == rendered(platform, self@),
    {
        let ghost p = self@.parts;
        let c: char = divider_of(platform);
        let mut body = String::new();
        assert(p.take(0) =~= Seq::<Seq<char>>::empty());
        for i in 0..self.parts.len()
            invariant
                c == divider(platform),
                p == texts(self.parts@),
                body@ == divided(platform, p.take(i as int)),
        {
            assert(p.take(i + 1).drop_last() =~= p.take(i as int));
            assert(p[i as int] == self.parts@[i as int]@);
            if i > 0 {
                body.push(c);
            }
            append(&mut body, self.parts[i].as_str());
            assert(body@ =~= divided(platform, p.take(i + 1)));
        }
        assert(p.take(p.len() as int) =~= p);
        let mut s = self.prefix.clone();
        if self.absolute {
            s.push(c);
        } else if self.dot {
            s.push('.');
            if self.parts.len() > 0 {
                s.push(c);
            }
        }
        append(&mut s, body.as_str());
        assert(s@ =~= rendered(platform, self@));
        s
    }
}

/// The first `n` texts.
fn copy_texts(v: &Vec<String>, n: usize) -> (r: Vec<String>)
    requires
        n <= v@.len(),
    ensures
        texts(r@) == texts(v@.take(n as int)),
{
    let mut r: Vec<String> = Vec::new();
    for i in 0..n
        invariant
            n <= v@.len(),
            r@.len() == i,
            forall|j: int| 0 <= j < i ==> #[trigger] r@[j]@ == v@[j]@,
    {
        r.push(v[i].clone());
    }
    assert(texts(r@) =~= texts(v@.take(n as int)));
    r
}

/// The paths of a list.
pub open spec fn routes(v: Seq<Route>) -> Seq<RouteView> {
    v.map_values(|r: Route| r@)
}

spec fn seen(r: Option<Route>) -> Option<RouteView> {
    match r {
        Some(v) => Some(v@),
        None => None,
    }
}

/// Appends the directories from `from` upwards, at most `n`, that are not yet in the list.
fn push_upwards(roots: &mut Vec<Route>, from: Option<Route>, n: usize, Ghost(before): Ghost<Seq<RouteView>>)
    requires
        routes(old(roots)@) == firsts(before),
    ensures
        routes(final(roots)@) == firsts(
            before + upwards(seen(from), n as int),
        ),
    decreases n,
{
    if n == 0 {
        assert(before + Seq::<RouteView>::empty() =~= before);
        return;
    }
    match from {
        Some(r) => {
            let up = r.parent();
            let ghost v = r@;
            let ghost rest = upwards(parent_of(v), n - 1);
            let ghost next = before.push(v);
            assert(seen(up) == parent_of(v));
            assert(upwards(seen(from), n as int) == seq![v] + rest);
            assert(next.drop_last() =~= before);
            let mut known = false;
            let ghost list = routes(roots@);
            for i in 0..roots.len()
                invariant
                    list == routes(roots@),
                    known ==> list.contains(r@),
                    !known ==> forall|j: int| 0 <= j < i ==> list[j] != r@,
            {
                assert(list[i as int] == roots@[i as int]@);
                if roots[i].is_same(&r) {
                    known = true;
                }
            }
            if !known {
                roots.push(r);
                assert(routes(roots@) =~= list.push(v));
            }
            assert(routes(roots@) == firsts(next));
            push_upwards(roots, up, n - 1, Ghost(next));
            assert(next + rest =~= before + (seq![v] + rest));
        },
        None => {
            assert(before + Seq::<RouteView>::empty() =~= before);
        },
    }
}

/// The directories in which the tools and models that belong to a program are looked for, see [`search_list`].
pub fn roots_from(platform: Platform, exe: Option<&str>, cwd: Option<&str>) -> (r: Vec<String>)
    ensures
        texts(r@) == search_list(
            platform,
            match exe {
                Some(s) => Some(s@),
                None => None,
            },
            match cwd {
                Some(s) => Some(s@),
                None => None,
            },
        ).map_values(|v: RouteView| rendered(platform, v)),
{
    let mut found: Vec<Route> = Vec::new();
    let e = match exe {
        Some(s) => Route::parse(platform, s).parent(),
        None => None,
    };
    let c = match cwd {
        Some(s) => Some(Route::parse(platform, s)),
        None => None,
    };
    let ghost ev = seen(e);
    assert(routes(found@) =~= firsts(Seq::<RouteView>::empty()));
    push_upwards(&mut found, e, 10, Ghost(Seq::empty()));
    assert(Seq::<RouteView>::empty() + upwards(ev, 10) =~= upwards(ev, 10));
    push_upwards(&mut found, c, 3, Ghost(upwards(ev, 10)));
    let ghost list = routes(found@);
    let mut r: Vec<String> = Vec::new();
    for i in 0..found.len()
        invariant
            list == routes(found@),
            r@.len() == i,
            forall|j: int| 0 <= j < i ==> #[trigger] r@[j]@ == rendered(platform, list[j]),
    {
        assert(list[i as int] == found@[i as int]@);
        r.push(found[i].render(platform));
    }
    assert(texts(r@) =~= list.map_values(|v: RouteView| rendered(platform, v)));
    r
}

/// No directory is looked into twice.
pub proof fn law_search_list_distinct(platform: Platform, exe: Option<Seq<char>>, cwd: Option<Seq<char>>)
    ensures
        search_list(platform, exe, cwd).no_duplicates(),
        search_list(platform, exe, cwd).len() <= 13,
{
    let e = match exe {
        Some(s) => parent_of(route_of(platform, s)),
        None => None,
    };
    let c = match cwd {
        Some(s) => Some(route_of(platform, s)),
        None => None,
    };
    lemma_firsts_distinct(upwards(e, 10) + upwards(c, 3));
    lemma_upwards_len(e, 10);
    lemma_upwards_len(c, 3);
}

proof fn lemma_upwards_len(r: Option<RouteView>, n: int)
    ensures
        upwards(r, n).len() <= if n < 0 { 0 } else { n },
    decreases n,
{
    if n > 0 && r is Some {
        lemma_upwards_len(parent_of(r->0), n - 1);
    }
}

/// Dropping repetitions leaves a list without repetitions that holds the same things.
pub proof fn lemma_firsts_distinct<A>(s: Seq<A>)
    ensures
        firsts(s).no_duplicates(),
        firsts(s).len() <= s.len(),
        forall|a: A| firsts(s).contains(a) <==> s.contains(a),
    decreases s.len(),
{
    if s.len() > 0 {
        let m = s.drop_last();
        lemma_firsts_distinct(m);
        let d = firsts(m);
        assert forall|a: A| firsts(s).contains(a) <==> s.contains(a) by {
            if s.contains(a) {
                let i = choose|i: int| 0 <= i < s.len() && s[i] == a;
                if i < m.len() {
                    assert(m[i] == a);
                    assert(m.contains(a));
                    assert(d.contains(a));
                    let j = choose|j: int| 0 <= j < d.len() && d[j] == a;
                    assert(firsts(s)[j] == a);
                } else if !d.contains(s.last()) {
                    assert(firsts(s)[d.len() as int] == a);
                }
            }
            if firsts(s).contains(a) {
                let i = choose|i: int| 0 <= i < firsts(s).len() && firsts(s)[i] == a;
                if i < d.len() {
                    assert(d[i] == a);
                    assert(m.contains(a));
                    let j = choose|j: int| 0 <= j < m.len() && m[j] == a;
                    assert(s[j] == a);
                } else {
                    assert(s[s.len() - 1] == a);
                }
            }
        }
    }
}

/// Joining where only `/` divides: an absolute name stands for itself, and another comes behind the directory with one divider
/// between them, unless the directory is empty or ends in one.
pub proof fn law_joined(platform: Platform, dir: Seq<char>, name: Seq<char>)
    requires
        platform != Platform::Windows,
    ensures
        name.len() > 0 && name[0] == '/' ==> joined(platform, dir, name) == name,
        !(name.len() > 0 && name[0] == '/') && (dir.len() == 0 || dir.last() == '/') ==> joined(platform, dir, name) == dir + name,
        !(name.len() > 0 && name[0] == '/') && dir.len() > 0 && dir.last() != '/' ==> joined(platform, dir, name) == dir + seq!['/']
            + name,
{
    assert(dir.take(0) + name =~= name);
    assert(dir.push('/') + name =~= dir + seq!['/'] + name);
}

/// Joining on Windows: a name that begins with a drive stands for itself, one that begins at the root keeps the drive of the
/// directory, and another comes behind the directory with a backslash between them, unless there is a divider already.
pub proof fn law_joined_on_drive(dir: Seq<char>, name: Seq<char>)
    requires
        dir.len() > 2,
        'a' <= dir[0] <= 'z' || 'A' <= dir[0] <= 'Z',
        dir[1] == ':',
    ensures
        name.len() >= 2 && name[1] == ':' && ('a' <= name[0] <= 'z' || 'A' <= name[0] <= 'Z') ==> joined(
            Platform::Windows,
            dir,
            name,
        ) == name,
        name.len() == 1 && (name[0] == '/' || name[0] == '\\') ==> joined(Platform::Windows, dir, name) == dir.take(2) + name,
        name.len() >= 2 && (name[0] == '/' || name[0] == '\\') && name[1] != '/' && name[1] != '\\' && name[1] != ':' ==> joined(
            Platform::Windows,
            dir,
            name,
        ) == dir.take(2) + name,
        name.len() > 0 && name[0] != '/' && name[0] != '\\' && (name.len() == 1 || name[1] != ':') && dir.last() != '/'
            && dir.last() != '\\' ==> joined(Platform::Windows, dir, name) == dir + seq!['\\'] + name,
        name.len() > 0 && name[0] != '/' && name[0] != '\\' && (name.len() == 1 || name[1] != ':') && (dir.last() == '/'
            || dir.last() == '\\') ==> joined(Platform::Windows, dir, name) == dir + name,
{
    assert(dir.push('\\') + name =~= dir + seq!['\\'] + name);
}

/// The share with which a Windows path begins reaches to the end of its second part, and such a path is absolute.
pub proof fn law_share(a: char, b: char, host: Seq<char>, share: Seq<char>, rest: Seq<char>)
    requires
        a == '/' || a == '\\',
        b == '/' || b == '\\',
        forall|i: int| 0 <= i < host.len() ==> #[trigger] host[i] != '/' && host[i] != '\\',
        forall|i: int| 0 <= i < share.len() ==> #[trigger] share[i] != '/' && share[i] != '\\',
        rest.len() == 0 || rest[0] == '/' || rest[0] == '\\',
    ensures
        route_of(Platform::Windows, seq![a, b] + host + seq!['\\'] + share + rest).prefix == seq![a, b] + host + seq!['\\'] + share,
        route_of(Platform::Windows, seq![a, b] + host + seq!['\\'] + share + rest).absolute,
{
    let p = Platform::Windows;
    let s = seq![a, b] + host + seq!['\\'] + share + rest;
    let m = 2 + host.len();
    let n = m + 1 + share.len();
    assert forall|i: int| 2 <= i < m implies !parts_at(p, #[trigger] s[i]) by {
        assert(s[i] == host[i - 2]);
    }
    assert(s[m as int] == '\\');
    lemma_part_end(p, s, 2, m as int);
    assert forall|i: int| m + 1 <= i < n implies !parts_at(p, #[trigger] s[i]) by {
        assert(s[i] == share[i - m - 1]);
    }
    if rest.len() > 0 {
        assert(s[n as int] == rest[0]);
    }
    lemma_part_end(p, s, m as int + 1, n as int);
    assert(s[0] == a && s[1] == b);
    assert(s.take(n as int) =~= seq![a, b] + host + seq!['\\'] + share);
}

proof fn lemma_part_end(platform: Platform, s: Seq<char>, from: int, end: int)
    requires
        0 <= from <= end <= s.len(),
        forall|i: int| from <= i < end ==> !parts_at(platform, #[trigger] s[i]),
        end < s.len() ==> parts_at(platform, s[end]),
    ensures
        part_end(platform, s, from) == end,
    decreases end - from,
{
    if from < end {
        assert(!parts_at(platform, s[from]));
        lemma_part_end(platform, s, from + 1, end);
    }
}

/// A path of one part, without a divider: it is relative, and its only part is the path itself.
pub proof fn law_route_of_name(platform: Platform, name: Seq<char>)
    requires
        platform != Platform::Windows,
        name.len() > 0,
        name != "."@,
        forall|i: int| 0 <= i < name.len() ==> #[trigger] name[i] != '/',
    ensures
        !route_of(platform, name).absolute,
        !route_of(platform, name).dot,
        route_of(platform, name).prefix.len() == 0,
        route_of(platform, name).parts == seq![name],
{
    assert(name[0] != '/');
    assert(unified(platform, name.skip(0)) =~= name);
    crate::text::law_split_one(name, '/');
    reveal_with_fuel(named, 2);
    assert(seq![name].drop_last() =~= Seq::<Seq<char>>::empty());
    assert(named(seq![name]) =~= seq![name]);
}

/// One more name behind a path is one more part of it, and the directory that holds the longer path is the path.
pub proof fn law_route_grows(platform: Platform, dir: Seq<char>, name: Seq<char>)
    requires
        platform != Platform::Windows,
        dir.len() > 0,
        name.len() > 0,
        name != "."@,
        forall|i: int| 0 <= i < name.len() ==> #[trigger] name[i] != '/',
    ensures
        route_of(platform, dir + seq!['/'] + name).parts == route_of(platform, dir).parts.push(name),
        parent_of(route_of(platform, dir + seq!['/'] + name)) == Some(route_of(platform, dir)),
{
    let s = dir + seq!['/'] + name;
    assert(s.skip(0) =~= s && dir.skip(0) =~= dir);
    assert(unified(platform, s) =~= s);
    assert(unified(platform, dir) =~= dir);
    assert(s =~= dir.push('/') + name);
    crate::text::law_split_adds(dir, name, '/');
    crate::text::law_split_one(name, '/');
    crate::text::law_split_adds(seq![], dir, '/');
    let a = split(dir, '/');
    let b = split(s, '/');
    assert(b =~= a.push(name));
    assert(b.drop_last() =~= a);
    assert(b.last() == name);
    assert(named(b) == named(a).push(name));
    assert(s[0] == dir[0]);
    assert(a.len() > 0);
    assert(b[0] == a[0]);
    assert(named(b).drop_last() =~= named(a));
    assert(s.take(0) =~= dir.take(0));
}

/// Dividers that follow one another, and parts that are a dot, count for nothing.
pub proof fn law_route_ignores(platform: Platform, dir: Seq<char>)
    requires
        platform != Platform::Windows,
        dir.len() > 0,
    ensures
        route_of(platform, dir + seq!['/']) == route_of(platform, dir),
        route_of(platform, dir + seq!['/', '.']) == route_of(platform, dir),
{
    let e = Seq::<char>::empty();
    let s = dir + seq!['/'];
    let t = dir + seq!['/', '.'];
    reveal_strlit(".");
    assert("."@ =~= seq!['.']);
    assert(s.skip(0) =~= s && dir.skip(0) =~= dir && t.skip(0) =~= t);
    assert(unified(platform, s) =~= s);
    assert(unified(platform, t) =~= t);
    assert(unified(platform, dir) =~= dir);
    assert(s =~= dir.push('/') + e);
    assert(t =~= dir.push('/') + seq!['.']);
    crate::text::law_split_adds(dir, e, '/');
    crate::text::law_split_adds(dir, seq!['.'], '/');
    crate::text::law_split_adds(e, dir, '/');
    crate::text::law_split_one(e, '/');
    crate::text::law_split_one(seq!['.'], '/');
    let a = split(dir, '/');
    assert(split(s, '/') =~= a.push(e));
    assert(a.push(e).drop_last() =~= a);
    assert(split(t, '/') =~= a.push(seq!['.']));
    assert(a.push(seq!['.']).drop_last() =~= a);
    assert(s[0] == dir[0] && t[0] == dir[0]);
    assert(s.take(0) =~= dir.take(0));
    assert(t.take(0) =~= dir.take(0));
}

/// A path that begins with `/` is absolute; no other is, where only `/` divides.
pub proof fn law_absolute(platform: Platform, s: Seq<char>)
    requires
        platform != Platform::Windows,
    ensures
        route_of(platform, s).absolute == (s.len() > 0 && s[0] == '/'),
{
}

/// What is put together again: behind the prefix and, for an absolute path, one divider, the parts follow in their order with one
/// divider between two.
pub proof fn law_rendered(platform: Platform, r: RouteView, name: Seq<char>)
    requires
        !r.dot,
    ensures
        r.parts.len() == 0 ==> rendered(platform, r) == r.prefix + (if r.absolute {
            seq![if platform == Platform::Windows { '\\' } else { '/' }]
        } else {
            Seq::empty()
        }),
        rendered(platform, RouteView { parts: r.parts.push(name), ..r }) == rendered(platform, r) + (if r.parts.len() > 0 {
            seq![if platform == Platform::Windows { '\\' } else { '/' }]
        } else {
            Seq::empty()
        }) + name,
{
    let l = r.parts.push(name);
    assert(l.drop_last() =~= r.parts);
    reveal_with_fuel(divided, 2);
    assert(rendered(platform, RouteView { parts: l, ..r }) =~= rendered(platform, r) + (if r.parts.len() > 0 {
        seq![divider(platform)]
    } else {
        Seq::empty()
    }) + name);
    if r.parts.len() == 0 {
        assert(rendered(platform, r) =~= r.prefix + (if r.absolute {
            seq![divider(platform)]
        } else {
            Seq::empty()
        }));
    }
}

/// Upwards from a path: as many steps up as it is places behind the first, one part fewer with each, and no more than asked for.
pub proof fn law_upwards(r: RouteView, n: int)
    requires
        !r.dot,
        n >= 0,
    ensures
        upwards(Some(r), n).len() == (if n <= r.parts.len() {
            n
        } else {
            r.parts.len() as int + 1
        }),
        forall|i: int| 0 <= i < upwards(Some(r), n).len() ==> #[trigger] upwards(Some(r), n)[i] == (RouteView {
            parts: r.parts.take(r.parts.len() - i),
            ..r
        }),
    decreases n,
{
    reveal_with_fuel(upwards, 2);
    assert(r.parts.take(r.parts.len() as int) =~= r.parts);
    if n > 0 && r.parts.len() > 0 {
        let q = RouteView { parts: r.parts.drop_last(), ..r };
        law_upwards(q, n - 1);
        let u = upwards(Some(r), n);
        assert(u == seq![r] + upwards(Some(q), n - 1));
        assert forall|i: int| 0 <= i < u.len() implies #[trigger] u[i] == (RouteView { parts: r.parts.take(r.parts.len() - i), ..r }) by {
            if i > 0 {
                assert(u[i] == upwards(Some(q), n - 1)[i - 1]);
                assert(q.parts.take(q.parts.len() - (i - 1)) =~= r.parts.take(r.parts.len() - i));
            }
        }
    }
}

/// The list without repetitions holds the same things, each once, in the order in which they first come.
pub proof fn law_firsts<A>(s: Seq<A>, x: A)
    ensures
        s.contains(x) ==> firsts(s.push(x)) == firsts(s),
        !s.contains(x) ==> firsts(s.push(x)) == firsts(s).push(x),
        firsts(s).contains(x) == s.contains(x),
        firsts(Seq::<A>::empty()).len() == 0,
    decreases s.len(),
{
    assert(s.push(x).drop_last() =~= s);
    if s.len() > 0 {
        let t = s.drop_last();
        law_firsts(t, x);
        law_firsts(t, s.last());
        let f = firsts(t);
        assert(s =~= t.push(s.last()));
        if t.contains(x) {
            let k = choose|k: int| 0 <= k < t.len() && t[k] == x;
            assert(s[k] == x);
            let j = choose|j: int| 0 <= j < f.len() && f[j] == x;
            assert(firsts(s)[j] == x);
        } else if s.last() == x {
            assert(s[s.len() - 1] == x);
            assert(firsts(s) == f.push(x));
            assert(firsts(s)[f.len() as int] == x);
        } else {
            if s.contains(x) {
                let k = choose|k: int| 0 <= k < s.len() && s[k] == x;
                assert(t[k] == x);
            }
            if firsts(s).contains(x) {
                let k = choose|k: int| 0 <= k < firsts(s).len() && firsts(s)[k] == x;
                assert(f[k] == x);
            }
        }
    }
}

/// Where things are looked for: every directory above the program, to the tenth, and the working directory with the two above it,
/// and nowhere else.
pub proof fn law_search_list(platform: Platform, exe: Seq<char>, cwd: Seq<char>, x: RouteView)
    requires
        !route_of(platform, exe).dot,
        !route_of(platform, cwd).dot,
    ensures
        search_list(platform, Some(exe), Some(cwd)).contains(x) == ({
            let e = route_of(platform, exe);
            let c = route_of(platform, cwd);
            ||| exists|i: int|
                1 <= i <= 10 && i <= e.parts.len() && x == (RouteView { parts: #[trigger] e.parts.take(e.parts.len() - i), ..e })
            ||| exists|i: int|
                0 <= i <= 2 && i <= c.parts.len() && x == (RouteView { parts: #[trigger] c.parts.take(c.parts.len() - i), ..c })
        }),
{
    let e = route_of(platform, exe);
    let c = route_of(platform, cwd);
    let a = upwards(parent_of(e), 10);
    let b = upwards(Some(c), 3);
    law_firsts(a + b, x);
    law_upwards(c, 3);
    let q = RouteView { parts: e.parts.drop_last(), ..e };
    law_upwards(q, 10);
    if e.parts.len() == 0 {
        assert(parent_of(e) is None);
        assert(a.len() == 0);
    } else {
        assert forall|i: int| 0 <= i < a.len() implies #[trigger] a[i] == (RouteView { parts: e.parts.take(e.parts.len() - (i + 1)), ..e }) by {
            assert(q.parts.take(q.parts.len() - i) =~= e.parts.take(e.parts.len() - (i + 1)));
        }
    }
    if (a + b).contains(x) {
        let k = choose|k: int| 0 <= k < (a + b).len() && (a + b)[k] == x;
        if k < a.len() {
            assert(x == a[k]);
            assert(x == (RouteView { parts: e.parts.take(e.parts.len() - (k + 1)), ..e }));
        } else {
            let j = k - a.len();
            assert(x == b[j]);
            assert(x == (RouteView { parts: c.parts.take(c.parts.len() - j), ..c }));
        }
    }
    if exists|i: int|
        1 <= i <= 10 && i <= e.parts.len() && x == (RouteView { parts: #[trigger] e.parts.take(e.parts.len() - i), ..e }) {
        let i = choose|i: int|
            1 <= i <= 10 && i <= e.parts.len() && x == (RouteView { parts: #[trigger] e.parts.take(e.parts.len() - i), ..e });
        assert(a[i - 1] == x);
        assert((a + b)[i - 1] == x);
    }
    if exists|i: int|
        0 <= i <= 2 && i <= c.parts.len() && x == (RouteView { parts: #[trigger] c.parts.take(c.parts.len() - i), ..c }) {
        let i = choose|i: int|
            0 <= i <= 2 && i <= c.parts.len() && x == (RouteView { parts: #[trigger] c.parts.take(c.parts.len() - i), ..c });
        assert(b[i] == x);
        assert((a + b)[a.len() + i] == x);
    }
}

/// The first place to look is the directory that holds the program.
pub proof fn law_beside_the_program_first(platform: Platform, exe: Seq<char>, cwd: Option<Seq<char>>)
    requires
        route_of(platform, exe).parts.len() > 0,
    ensures
        search_list(platform, Some(exe), cwd).len() > 0,
        search_list(platform, Some(exe), cwd)[0] == (RouteView {
            parts: route_of(platform, exe).parts.drop_last(),
            ..route_of(platform, exe)
        }),
{
    let e = route_of(platform, exe);
    let c = match cwd {
        Some(s) => Some(route_of(platform, s)),
        None => None,
    };
    let l = upwards(parent_of(e), 10) + upwards(c, 3);
    assert(l.len() > 0);
    lemma_first_stays(l);
}

proof fn lemma_first_stays<A>(s: Seq<A>)
    requires
        s.len() > 0,
    ensures
        firsts(s).len() > 0,
        firsts(s)[0] == s[0],
    decreases s.len(),
{
    reveal_with_fuel(firsts, 2);
    if s.len() > 1 {
        lemma_first_stays(s.drop_last());
    } else {
        assert(s.drop_last() =~= Seq::<A>::empty());
    }
}

} // verus!
