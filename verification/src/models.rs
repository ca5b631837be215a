//! Models: where they are looked for, how they are checked, and where they are fetched from.
use crate::media::{first_present, first_true, maybe, Platform};
use crate::paths::{join, joined, route_of, Route};
use crate::probe::maybe_text;
use crate::text::{append, chars_of, lowered, same, same_ignoring_case, text_of, texts};
use vstd::prelude::*;

verus! {

/// A model in the list of models.
#[derive(Debug, Clone)]
pub struct ManifestEntry {
    pub file: String,
    /// A second file, for several frames at a time.
    pub batch_file: Option<String>,
    /// The edge of the square that it takes in.
    pub imgsz: u32,
    pub sha256: String,
    pub sha256_batch: Option<String>,
    /// Where the files are fetched from: directories.
    pub url: Option<String>,
    pub mirror_url: Option<String>,
    /// Where the first file is fetched from, if it has another name there: files.
    pub direct_url: Option<String>,
    pub direct_mirror: Option<String>,
}

/// The list of models.
#[derive(Debug, Clone)]
pub struct Manifest {
    pub models: Vec<ManifestEntry>,
}

/// The first entry from the `from`-th on for a file.
pub open spec fn entry_from(m: Seq<ManifestEntry>, file: Seq<char>, from: int) -> Option<int>
    decreases m.len() - from,
{
    if from >= m.len() {
        None
    } else if m[from].file@ == file {
        Some(from)
    } else {
        entry_from(m, file, from + 1)
    }
}

impl Manifest {
    /// The entry for a file.
    pub fn find(&self, file: &str) -> (r: Option<&ManifestEntry>)
        ensures
            match entry_from(self.models@, file@, 0) {
                Some(i) => r == Some(&self.models@[i]),
                None => r is None,
            },
    {
        for i in 0..self.models.len()
            invariant
                entry_from(self.models@, file@, 0) == entry_from(self.models@, file@, i as int),
        {
            if same(self.models[i].file.as_str(), file) {
                return Some(&self.models[i]);
            }
        }
        None
    }
}

// Where models are looked for.
/// What the system says about where a user keeps things.
pub struct Surroundings {
    pub home: Option<String>,
    pub app_data: Option<String>,
    pub data_home: Option<String>,
    pub temp: String,
}

/// The directory in which a user keeps the data of programs.
pub open spec fn data_dir(platform: Platform, s: Surroundings) -> Seq<char> {
    match platform {
        Platform::MacOs => match maybe_text(s.home) {
            Some(h) => joined(platform, h, "Library/Application Support"@),
            None => s.temp@,
        },
        Platform::Windows => match maybe_text(s.app_data) {
            Some(d) => d,
            None => s.temp@,
        },
        _ => match maybe_text(s.data_home) {
            Some(d) => d,
            None => match maybe_text(s.home) {
                Some(h) => joined(platform, h, ".local/share"@),
                None => s.temp@,
            },
        },
    }
}

/// The directory in which a user keeps models.
pub fn user_models_dir(platform: Platform, s: &Surroundings) -> (r: String)
    ensures
        r@ == joined(platform, joined(platform, data_dir(platform, *s), "Simple AutoMosaic"@), "models"@),
{
    let base: String = match platform {
        Platform::MacOs => match &s.home {
            Some(h) => join(platform, h.as_str(), "Library/Application Support"),
            None => s.temp.clone(),
        },
        Platform::Windows => match &s.app_data {
            Some(d) => d.clone(),
            None => s.temp.clone(),
        },
        _ => match &s.data_home {
            Some(d) => d.clone(),
            None => match &s.home {
                Some(h) => join(platform, h.as_str(), ".local/share"),
                None => s.temp.clone(),
            },
        },
    };
    join(platform, join(platform, base.as_str(), "Simple AutoMosaic").as_str(), "models")
}

/// Whether one of the paths of a list is the same as `p`.
pub open spec fn listed(platform: Platform, l: Seq<Seq<char>>, p: Seq<char>) -> bool {
    exists|i: int| 0 <= i < l.len() && route_of(platform, #[trigger] l[i]) == route_of(platform, p)
}

/// A list with a path added, unless it is there.
pub open spec fn with_path(platform: Platform, l: Seq<Seq<char>>, p: Seq<char>) -> Seq<Seq<char>> {
    if listed(platform, l, p) {
        l
    } else {
        l.push(p)
    }
}

/// The directories of models, with those under the first `n` roots.
pub open spec fn model_dirs(platform: Platform, env: Option<Seq<char>>, user: Seq<char>, roots: Seq<Seq<char>>, n: int) -> Seq<Seq<char>>
    decreases n,
{
    if n <= 0 {
        let first = if env is Some && env->0.len() > 0 {
            seq![env->0]
        } else {
            Seq::empty()
        };
        with_path(platform, first, user)
    } else {
        let d = model_dirs(platform, env, user, roots, n - 1);
        with_path(
            platform,
            with_path(platform, d, joined(platform, roots[n - 1], "models"@)),
            joined(platform, joined(platform, roots[n - 1], "Resources"@), "models"@),
        )
    }
}

/// The directories of a list are all different, if those of the list it was made from are.
pub open spec fn all_different(platform: Platform, l: Seq<Seq<char>>) -> bool {
    forall|i: int, j: int| 0 <= i < j < l.len() ==> route_of(platform, #[trigger] l[i]) != route_of(platform, #[trigger] l[j])
}

/// No directory of models is looked into twice.
pub proof fn law_model_dirs_differ(platform: Platform, env: Option<Seq<char>>, user: Seq<char>, roots: Seq<Seq<char>>, n: int)
    ensures
        all_different(platform, model_dirs(platform, env, user, roots, n)),
    decreases n,
{
    if n > 0 {
        law_model_dirs_differ(platform, env, user, roots, n - 1);
    }
}

fn is_listed(platform: Platform, l: &Vec<String>, p: &str) -> (r: bool)
    ensures
        r == listed(platform, texts(l@), p@),
{
    let q = Route::parse(platform, p);
    let ghost all = texts(l@);
    for i in 0..l.len()
        invariant
            all == texts(l@),
            q@ == route_of(platform, p@),
            forall|j: int| 0 <= j < i ==> route_of(platform, #[trigger] all[j]) != route_of(platform, p@),
    {
        assert(all[i as int] == l@[i as int]@);
        if Route::parse(platform, l[i].as_str()).is_same(&q) {
            assert(route_of(platform, all[i as int]) == route_of(platform, p@));
            return true;
        }
    }
    false
}

fn add_path(platform: Platform, l: &mut Vec<String>, p: String)
    ensures
        texts(final(l)@) == with_path(platform, texts(old(l)@), p@),
{
    let ghost before = texts(l@);
    if !is_listed(platform, l, p.as_str()) {
        l.push(p);
        assert(texts(l@) =~= before.push(p@));
    }
}

/// The directories in which models are looked for: the one that the environment names, that of the user, and those under
/// the roots.
pub fn candidate_roots(platform: Platform, env: Option<&str>, user: &str, roots: &Vec<String>) -> (r: Vec<String>)
    ensures
        texts(r@) == model_dirs(platform, maybe(env), user@, texts(roots@), roots@.len() as int),
{
    let mut r: Vec<String> = Vec::new();
    let ghost first = if maybe(env) is Some && maybe(env)->0.len() > 0 {
        seq![maybe(env)->0]
    } else {
        Seq::empty()
    };
    match env {
        Some(d) => {
            if d.unicode_len() > 0 {
                r.push(d.to_owned());
            }
        },
        None => {},
    }
    assert(texts(r@) =~= first);
    add_path(platform, &mut r, user.to_owned());
    for i in 0..roots.len()
        invariant
            texts(r@) == model_dirs(platform, maybe(env), user@, texts(roots@), i as int),
    {
        assert(texts(roots@)[i as int] == roots@[i as int]@);
        add_path(platform, &mut r, join(platform, roots[i].as_str(), "models"));
        add_path(platform, &mut r, join(platform, join(platform, roots[i].as_str(), "Resources").as_str(), "models"));
    }
    r
}

/// The name of the file that a path leads to; empty, if it leads to none.
pub open spec fn file_name(platform: Platform, path: Seq<char>) -> Seq<char> {
    let r = route_of(platform, path);
    if r.parts.len() == 0 || r.parts.last() == ".."@ {
        Seq::empty()
    } else {
        r.parts.last()
    }
}

/// The places where a model may be besides where its path says: under its name, in each directory of models.
pub fn model_candidates(platform: Platform, path: &str, dirs: &Vec<String>) -> (r: Vec<String>)
    ensures
        texts(r@) == texts(dirs@).map_values(|d: Seq<char>| joined(platform, d, file_name(platform, path@))),
{
    let route = Route::parse(platform, path);
    let n: usize = route.parts.len();
    let mut name: String = String::new();
    if n > 0 {
        assert(route@.parts.last() == route.parts@[n - 1]@);
        if !same(route.parts[n - 1].as_str(), "..") {
            name = route.parts[n - 1].clone();
        }
    }
    assert(name@ =~= file_name(platform, path@));
    let mut r: Vec<String> = Vec::new();
    let ghost want = texts(dirs@).map_values(|d: Seq<char>| joined(platform, d, file_name(platform, path@)));
    for i in 0..dirs.len()
        invariant
            name@ == file_name(platform, path@),
            want == texts(dirs@).map_values(|d: Seq<char>| joined(platform, d, file_name(platform, path@))),
            texts(r@) == want.take(i as int),
    {
        let ghost before = r@;
        assert(texts(dirs@)[i as int] == dirs@[i as int]@);
        r.push(join(platform, dirs[i].as_str(), name.as_str()));
        assert(texts(r@) =~= texts(before).push(want[i as int]));
        assert(want.take(i + 1) =~= want.take(i as int).push(want[i as int]));
    }
    assert(want.take(dirs@.len() as int) =~= want);
    r
}

/// Where a model is: where its path says, if there is something (`here`); else at the first of the other places where there
/// is something; else where its path says.
pub open spec fn model_place(path: Seq<char>, here: bool, others: Seq<Seq<char>>, present: Seq<bool>) -> Seq<char> {
    match first_true(present, 0) {
        Some(i) => if here {
            path
        } else {
            others[i]
        },
        None => path,
    }
}

/// Where a model is.
pub fn resolve_model(path: &str, here: bool, others: &Vec<String>, present: &Vec<bool>) -> (r: String)
    requires
        others@.len() == present@.len(),
    ensures
        r@ == model_place(path@, here, texts(others@), present@),
{
    if here {
        return path.to_owned();
    }
    match first_present(present) {
        Some(i) => {
            assert(texts(others@)[i as int] == others@[i as int]@);
            others[i].clone()
        },
        None => path.to_owned(),
    }
}

/// The first of several models, each where it is, that is there.
pub fn resolve_first(places: &Vec<String>, present: &Vec<bool>) -> (r: Option<String>)
    requires
        places@.len() == present@.len(),
    ensures
        match first_true(present@, 0) {
            Some(i) => r is Some && r->0@ == places@[i]@,
            None => r is None,
        },
{
    match first_present(present) {
        Some(i) => Some(places[i].clone()),
        None => None,
    }
}

// Checking files.
/// The digest that `sha2::Sha256::digest` gives of the bytes of a file.
pub uninterp spec fn sha256_digest(data: Seq<u8>) -> Seq<u8>;

/// The digest of the bytes of a file, by `sha2::Sha256::digest`: it depends on the bytes alone, and has 32 bytes.
#[verifier::external_body]
fn digest_of(data: &[u8]) -> (r: Vec<u8>)
    ensures
        r@ == sha256_digest(data@),
        r@.len() == 32,
{
    <sha2::Sha256 as sha2::Digest>::digest(data).to_vec()
}

/// The sixteen digits of hexadecimal numbers.
pub open spec fn hex_char(n: int) -> char {
    if n < 10 {
        (48 + n) as char
    } else {
        (87 + n) as char
    }
}

/// Bytes in hexadecimal, two digits each.
pub open spec fn hex_of(b: Seq<u8>) -> Seq<char>
    decreases b.len(),
{
    if b.len() == 0 {
        Seq::empty()
    } else {
        hex_of(b.drop_last()).push(hex_char(b.last() as int / 16)).push(hex_char(b.last() as int % 16))
    }
}

fn hex_digit_of(n: u8) -> (c: char)
    requires
        n < 16,
    ensures
        c == hex_char(n as int),
{
    if n < 10 {
        (48 + n) as char
    } else {
        (87 + n) as char
    }
}

/// Bytes in hexadecimal.
pub fn hex(b: &[u8]) -> (r: Vec<char>)
    ensures
        r@ == hex_of(b@),
{
    let mut r: Vec<char> = Vec::new();
    assert(b@.take(0) =~= Seq::<u8>::empty());
    for i in 0..b.len()
        invariant
            r@ == hex_of(b@.take(i as int)),
    {
        assert(b@.take(i + 1).drop_last() =~= b@.take(i as int));
        assert(b@.take(i + 1).last() == b@[i as int]);
        r.push(hex_digit_of(b[i] / 16));
        r.push(hex_digit_of(b[i] % 16));
    }
    assert(b@.take(b@.len() as int) =~= b@);
    r
}

/// The digest of the bytes of a file, in hexadecimal; none, if there is no file.
pub fn sha256_of(data: Option<&[u8]>) -> (r: Option<String>)
    ensures
        match data {
            Some(d) => r is Some && r->0@ == hex_of(sha256_digest(d@)),
            None => r is None,
        },
{
    match data {
        Some(d) => Some(text_of(&hex(digest_of(d).as_slice()))),
        None => None,
    }
}

/// Whether a digest is the one expected, which is in hexadecimal; capital letters make no difference.
pub fn digest_matches(digest: &[u8], expected: &str) -> (r: bool)
    ensures
        r == (lowered(hex_of(digest@)) == lowered(expected@)),
{
    same_ignoring_case(&hex(digest), &chars_of(expected))
}

/// Whether the digest of the bytes of a file is the one expected; none, if there is no file.
pub fn verify_sha256(data: Option<&[u8]>, expected: &str) -> (r: Option<bool>)
    ensures
        match data {
            Some(d) => r == Some(lowered(hex_of(sha256_digest(d@))) == lowered(expected@)),
            None => r is None,
        },
{
    match data {
        Some(d) => Some(digest_matches(digest_of(d).as_slice(), expected)),
        None => None,
    }
}

proof fn lemma_hex_len(b: Seq<u8>)
    ensures
        hex_of(b).len() == 2 * b.len(),
    decreases b.len(),
{
    if b.len() > 0 {
        lemma_hex_len(b.drop_last());
    }
}

/// Different bytes are different in hexadecimal, also if capital letters make no difference.
pub proof fn law_hex_injective(a: Seq<u8>, b: Seq<u8>)
    requires
        lowered(hex_of(a)) == lowered(hex_of(b)),
    ensures
        a == b,
    decreases a.len(),
{
    lemma_hex_len(a);
    lemma_hex_len(b);
    let x = lowered(hex_of(a));
    let y = lowered(hex_of(b));
    assert(x.len() == hex_of(a).len() && y.len() == hex_of(b).len());
    if a.len() > 0 {
        let n = x.len() as int;
        let (p, q) = (a.last() as int, b.last() as int);
        assert(x[n - 1] == hex_char(p % 16) && y[n - 1] == hex_char(q % 16)) by {
            lemma_hex_char_small(p % 16);
            lemma_hex_char_small(q % 16);
        }
        assert(x[n - 2] == hex_char(p / 16) && y[n - 2] == hex_char(q / 16)) by {
            lemma_hex_char_small(p / 16);
            lemma_hex_char_small(q / 16);
        }
        lemma_hex_char_injective(p % 16, q % 16);
        lemma_hex_char_injective(p / 16, q / 16);
        assert(a.last() == b.last());
        lemma_hex_len(a.drop_last());
        lemma_hex_len(b.drop_last());
        assert(lowered(hex_of(a.drop_last())) =~= x.take(n - 2));
        assert(lowered(hex_of(b.drop_last())) =~= y.take(n - 2));
        law_hex_injective(a.drop_last(), b.drop_last());
        assert(a =~= a.drop_last().push(a.last()));
        assert(b =~= b.drop_last().push(b.last()));
    } else {
        assert(a =~= b);
    }
}

proof fn lemma_hex_char_small(n: int)
    requires
        0 <= n < 16,
    ensures
        crate::text::lower(hex_char(n)) == hex_char(n),
{
}

proof fn lemma_hex_char_injective(m: int, n: int)
    requires
        0 <= m < 16,
        0 <= n < 16,
        hex_char(m) == hex_char(n),
    ensures
        m == n,
{
}

// Fetching files.
/// Why a model could not be fetched.
#[derive(Debug)]
pub enum DownloadError {
    /// It is not known where this is to be fetched from.
    NoSource(String),
    /// Fetching it failed.
    Http { url: String, err: String },
    /// What was fetched is not what was expected.
    BadSha { path: String },
    /// It could not be stored.
    Io(String),
}

/// What an error says.
pub open spec fn error_text(e: DownloadError) -> Seq<char> {
    match e {
        DownloadError::NoSource(n) => "manifest 中无 "@ + n@ + " 或未配置下载地址"@,
        DownloadError::Http { url, err } => "下载失败（"@ + url@ + "）："@ + err@,
        DownloadError::BadSha { path } => "SHA256 校验失败："@ + path@,
        DownloadError::Io(m) => "IO 错误: "@ + m@,
    }
}

impl DownloadError {
    /// What the error says.
    pub fn message(&self) -> (s: String)
        ensures
            s@ == error_text(*self),
    {
        let mut s = String::new();
        match self {
            DownloadError::NoSource(n) => {
                append(&mut s, "manifest 中无 ");
                append(&mut s, n.as_str());
                append(&mut s, " 或未配置下载地址");
            },
            DownloadError::Http { url, err } => {
                append(&mut s, "下载失败（");
                append(&mut s, url.as_str());
                append(&mut s, "）：");
                append(&mut s, err.as_str());
            },
            DownloadError::BadSha { path } => {
                append(&mut s, "SHA256 校验失败：");
                append(&mut s, path.as_str());
            },
            DownloadError::Io(m) => {
                append(&mut s, "IO 错误: ");
                append(&mut s, m.as_str());
            },
        }
        assert(s@ =~= error_text(*self));
        s
    }
}

/// A file to fetch: its name, the digest expected, and where it may be fetched from, the best place first.
#[derive(Debug)]
pub struct FilePlan {
    pub name: String,
    pub sha256: String,
    pub urls: Vec<String>,
}

/// A list with a text added, if there is one.
pub open spec fn with_text(l: Seq<Seq<char>>, t: Option<Seq<char>>) -> Seq<Seq<char>> {
    match t {
        Some(s) => l.push(s),
        None => l,
    }
}

/// The place of a file in a directory.
pub open spec fn under(dir: Option<Seq<char>>, name: Seq<char>) -> Option<Seq<char>> {
    match dir {
        Some(d) => Some(d + "/"@ + name),
        None => None,
    }
}

/// Where a file of an entry may be fetched from: places for the first file alone, then the directories.
pub open spec fn urls_for(e: ManifestEntry, name: Seq<char>) -> Seq<Seq<char>> {
    let direct = if name == e.file@ {
        with_text(with_text(Seq::empty(), maybe_text(e.direct_url)), maybe_text(e.direct_mirror))
    } else {
        Seq::empty()
    };
    with_text(with_text(direct, under(maybe_text(e.url), name)), under(maybe_text(e.mirror_url), name))
}

/// Whether a file is fetched as it should be.
pub open spec fn file_ok(f: FilePlan, e: ManifestEntry, name: Seq<char>, sha: Seq<char>) -> bool {
    f.name@ == name && f.sha256@ == sha && texts(f.urls@) == urls_for(e, name)
}

fn push_text(l: &mut Vec<String>, t: &Option<String>)
    ensures
        texts(final(l)@) == with_text(texts(old(l)@), maybe_text(*t)),
{
    match t {
        Some(s) => {
            let ghost before = texts(l@);
            l.push(s.clone());
            assert(texts(l@) =~= before.push(s@));
        },
        None => {},
    }
}

fn push_under(l: &mut Vec<String>, dir: &Option<String>, name: &str)
    ensures
        texts(final(l)@) == with_text(texts(old(l)@), under(maybe_text(*dir), name@)),
{
    match dir {
        Some(d) => {
            let ghost before = texts(l@);
            let mut u = d.clone();
            append(&mut u, "/");
            append(&mut u, name);
            l.push(u);
            assert(texts(l@) =~= before.push(u@));
        },
        None => {},
    }
}

fn plan_file(e: &ManifestEntry, name: &str, sha: &str) -> (f: FilePlan)
    ensures
        file_ok(f, *e, name@, sha@),
{
    let mut urls: Vec<String> = Vec::new();
    assert(texts(urls@) =~= Seq::<Seq<char>>::empty());
    if same(name, e.file.as_str()) {
        push_text(&mut urls, &e.direct_url);
        push_text(&mut urls, &e.direct_mirror);
    }
    push_under(&mut urls, &e.url, name);
    push_under(&mut urls, &e.mirror_url, name);
    FilePlan { name: name.to_owned(), sha256: sha.to_owned(), urls }
}

/// The files of an entry that are fetched: the first one, and the one for several frames at a time, if there is one; its
/// digest has to be known.
pub fn download_plan(e: &ManifestEntry) -> (r: Result<Vec<FilePlan>, DownloadError>)
    ensures
        r is Err <==> e.batch_file is Some && e.sha256_batch is None,
        r is Err ==> r->Err_0 is NoSource && r->Err_0->NoSource_0@ == e.batch_file->0@ + "（manifest 缺少批文件 sha256）"@,
        r is Ok ==> ({
            let f = r->Ok_0@;
            &&& f.len() == (if e.batch_file is Some {
                2
            } else {
                1int
            })
            &&& file_ok(f[0], *e, e.file@, e.sha256@)
            &&& e.batch_file is Some ==> file_ok(f[1], *e, e.batch_file->0@, e.sha256_batch->0@)
        }),
{
    let mut files: Vec<FilePlan> = Vec::new();
    files.push(plan_file(e, e.file.as_str(), e.sha256.as_str()));
    match &e.batch_file {
        Some(b) => match &e.sha256_batch {
            Some(sha) => {
                files.push(plan_file(e, b.as_str(), sha.as_str()));
            },
            None => {
                let mut s = b.clone();
                append(&mut s, "（manifest 缺少批文件 sha256）");
                return Err(DownloadError::NoSource(s));
            },
        },
        None => {},
    }
    Ok(files)
}

/// What is done next while files are fetched.
#[derive(Debug)]
pub enum Next {
    /// Fetch this file from this place.
    Try { file: usize, url: usize },
    /// All files have been fetched.
    Done,
    /// No file can be fetched any more.
    Fail(DownloadError),
}

/// Whether `n` is what is done when file `file` is next.
pub open spec fn begins(plan: Seq<FilePlan>, main: Seq<char>, file: int, n: Next) -> bool {
    if file >= plan.len() {
        n is Done
    } else if plan[file].urls@.len() == 0 {
        n is Fail && n->0 is NoSource && n->0->NoSource_0@ == main
    } else {
        n == (Next::Try { file: file as usize, url: 0 })
    }
}

/// What is done when file `file` is next; `main` is the name of the first file.
pub fn begin_file(plan: &Vec<FilePlan>, main: &str, file: usize) -> (n: Next)
    ensures
        begins(plan@, main@, file as int, n),
{
    if file >= plan.len() {
        Next::Done
    } else if plan[file].urls.len() == 0 {
        Next::Fail(DownloadError::NoSource(main.to_owned()))
    } else {
        Next::Try { file, url: 0 }
    }
}

/// What is done after file `file` was tried from place `url`: the next file, if that went well; else the next place; and
/// if there is none, the last error is that of the whole.
pub fn after_try(plan: &Vec<FilePlan>, main: &str, file: usize, url: usize, r: Result<(), DownloadError>) -> (n: Next)
    requires
        file < plan@.len(),
        url < plan@[file as int].urls@.len(),
    ensures
        match r {
            Ok(_) => begins(plan@, main@, file + 1, n),
            Err(e) => if url + 1 < plan@[file as int].urls@.len() {
                n == (Next::Try { file, url: (url + 1) as usize })
            } else {
                n == Next::Fail(e)
            },
        },
{
    assert(plan.len() == plan@.len());
    match r {
        Ok(_) => begin_file(plan, main, file + 1),
        Err(e) => {
            assert(plan@[file as int].urls.len() == plan@[file as int].urls@.len());
            if url + 1 < plan[file].urls.len() {
                Next::Try { file, url: url + 1 }
            } else {
                Next::Fail(e)
            }
        },
    }
}

/// The entry of a file is the first of its name, and there is none only if no entry has that name.
pub proof fn law_entry(m: Seq<ManifestEntry>, file: Seq<char>, from: int)
    requires
        0 <= from,
    ensures
        entry_from(m, file, from) is Some ==> from <= entry_from(m, file, from)->0 < m.len() && m[entry_from(m, file, from)->0].file@
            == file,
        entry_from(m, file, from) is Some ==> forall|j: int| from <= j < entry_from(m, file, from)->0 ==> #[trigger] m[j].file@ != file,
        entry_from(m, file, from) is None ==> forall|j: int| from <= j < m.len() ==> #[trigger] m[j].file@ != file,
    decreases m.len() - from,
{
    if from < m.len() && m[from].file@ != file {
        law_entry(m, file, from + 1);
    }
}

/// Where a system keeps the data of programs: below the home directory on a Mac, in the directory for it on Windows, and elsewhere
/// in the one that is named for it or else below the home directory; where nothing is known, among the temporary files.
pub proof fn law_data_dir(platform: Platform, s: Surroundings)
    ensures
        platform == Platform::MacOs && s.home is Some ==> data_dir(platform, s) == joined(
            platform,
            s.home->0@,
            "Library/Application Support"@,
        ),
        platform == Platform::Windows && s.app_data is Some ==> data_dir(platform, s) == s.app_data->0@,
        (platform == Platform::Unix || platform == Platform::Other) && s.data_home is Some ==> data_dir(platform, s) == s.data_home->0@,
        (platform == Platform::Unix || platform == Platform::Other) && s.data_home is None && s.home is Some ==> data_dir(platform, s)
            == joined(platform, s.home->0@, ".local/share"@),
        s.home is None && s.app_data is None && s.data_home is None ==> data_dir(platform, s) == s.temp@,
        platform == Platform::MacOs && s.home is None ==> data_dir(platform, s) == s.temp@,
        platform == Platform::Windows && s.app_data is None ==> data_dir(platform, s) == s.temp@,
{
}

/// Where models are looked for: the directory that is asked for comes first, then that of the user, then those of the roots; what is
/// there already is not added.
pub proof fn law_model_dirs(platform: Platform, env: Option<Seq<char>>, user: Seq<char>, roots: Seq<Seq<char>>, n: int)
    requires
        0 <= n <= roots.len(),
    ensures
        ({
            let d = model_dirs(platform, env, user, roots, n);
            &&& d.len() > 0
            &&& env is Some && env->0.len() > 0 ==> d[0] == env->0
            &&& env is None || env->0.len() == 0 ==> d[0] == user
            &&& env is Some && env->0.len() > 0 && route_of(platform, env->0) != route_of(platform, user) ==> d.len() > 1 && d[1] == user
            &&& forall|i: int|
                0 <= i < n ==> exists|j: int|
                    0 <= j < d.len() && route_of(platform, #[trigger] d[j]) == route_of(
                        platform,
                        joined(platform, #[trigger] roots[i], "models"@),
                    )
            &&& forall|i: int|
                0 <= i < n ==> exists|j: int|
                    0 <= j < d.len() && route_of(platform, #[trigger] d[j]) == route_of(
                        platform,
                        joined(platform, joined(platform, #[trigger] roots[i], "Resources"@), "models"@),
                    )
        }),
    decreases n,
{
    let d = model_dirs(platform, env, user, roots, n);
    if n > 0 {
        let b = model_dirs(platform, env, user, roots, n - 1);
        let p = joined(platform, roots[n - 1], "models"@);
        let q = joined(platform, joined(platform, roots[n - 1], "Resources"@), "models"@);
        law_model_dirs(platform, env, user, roots, n - 1);
        let c = with_path(platform, b, p);
        assert(d == with_path(platform, c, q));
        assert(forall|j: int| 0 <= j < b.len() ==> c[j] == #[trigger] b[j]);
        assert(forall|j: int| 0 <= j < c.len() ==> d[j] == #[trigger] c[j]);
        assert(listed(platform, c, p)) by {
            if !listed(platform, b, p) {
                assert(c[b.len() as int] == p);
            }
        }
        assert(listed(platform, d, q)) by {
            if !listed(platform, c, q) {
                assert(d[c.len() as int] == q);
            }
        }
        assert forall|i: int| 0 <= i < n implies exists|j: int|
            0 <= j < d.len() && route_of(platform, #[trigger] d[j]) == route_of(
                platform,
                joined(platform, #[trigger] roots[i], "models"@),
            ) by {
            if i < n - 1 {
                let j = choose|j: int|
                    0 <= j < b.len() && route_of(platform, #[trigger] b[j]) == route_of(platform, joined(platform, roots[i], "models"@));
                assert(d[j] == c[j] && c[j] == b[j]);
            } else {
                let j = choose|j: int| 0 <= j < c.len() && route_of(platform, #[trigger] c[j]) == route_of(platform, p);
                assert(d[j] == c[j]);
            }
        }
        assert forall|i: int| 0 <= i < n implies exists|j: int|
            0 <= j < d.len() && route_of(platform, #[trigger] d[j]) == route_of(
                platform,
                joined(platform, joined(platform, #[trigger] roots[i], "Resources"@), "models"@),
            ) by {
            if i < n - 1 {
                let j = choose|j: int|
                    0 <= j < b.len() && route_of(platform, #[trigger] b[j]) == route_of(
                        platform,
                        joined(platform, joined(platform, roots[i], "Resources"@), "models"@),
                    );
                assert(d[j] == c[j] && c[j] == b[j]);
            }
        }
        assert(b[0] == c[0] && c[0] == d[0]);
        if b.len() > 1 {
            assert(b[1] == c[1] && c[1] == d[1]);
        }
    } else if env is Some && env->0.len() > 0 {
        let f = seq![env->0];
        assert(f[0] == env->0);
    }
}

/// A model that is where it was sought is taken from there; another is taken from the first place that has it; and one that is
/// nowhere keeps its path.
pub proof fn law_model_place(path: Seq<char>, here: bool, others: Seq<Seq<char>>, present: Seq<bool>, i: int)
    requires
        0 <= i < present.len(),
        present[i],
        forall|j: int| 0 <= j < i ==> !#[trigger] present[j],
    ensures
        model_place(path, true, others, present) == path,
        model_place(path, false, others, present) == others[i],
        model_place(path, here, others, Seq::new(present.len(), |j: int| false)) == path,
{
    crate::media::law_first_true(present, 0);
    crate::media::law_first_true(Seq::new(present.len(), |j: int| false), 0);
    if first_true(present, 0) is Some {
        let k = first_true(present, 0)->0;
        assert(!(k < i));
        assert(!(i < k));
    }
}

/// Bytes in hexadecimal: two characters to a byte, the upper half first, each a digit or a small letter.
pub proof fn law_hex(b: Seq<u8>, i: int)
    requires
        0 <= i < b.len(),
    ensures
        hex_of(b).len() == 2 * b.len(),
        hex_of(b)[2 * i] as int == (if b[i] / 16 < 10 {
            '0' as int + b[i] / 16
        } else {
            'a' as int + b[i] / 16 - 10
        }),
        hex_of(b)[2 * i + 1] as int == (if b[i] % 16 < 10 {
            '0' as int + b[i] % 16
        } else {
            'a' as int + b[i] % 16 - 10
        }),
    decreases b.len(),
{
    let d = b.drop_last();
    if i < b.len() - 1 {
        law_hex(d, i);
        assert(d[i] == b[i]);
    } else if d.len() > 0 {
        law_hex(d, 0);
    } else {
        assert(hex_of(d).len() == 0);
    }
}

/// Where a file is fetched from: the first file of an entry has its own addresses, which come first; then come the two directories, each
/// with the file's name behind a slash.
pub proof fn law_urls(e: ManifestEntry, name: Seq<char>)
    ensures
        ({
            let u = urls_for(e, name);
            let own = name == e.file@;
            let a: int = if own && e.direct_url is Some {
                1
            } else {
                0
            };
            let b: int = if own && e.direct_mirror is Some {
                1
            } else {
                0
            };
            let c: int = if e.url is Some {
                1
            } else {
                0
            };
            let d: int = if e.mirror_url is Some {
                1
            } else {
                0
            };
            &&& u.len() == a + b + c + d
            &&& a == 1 ==> u[0] == e.direct_url->0@
            &&& b == 1 ==> u[a] == e.direct_mirror->0@
            &&& c == 1 ==> u[a + b] == e.url->0@ + seq!['/'] + name
            &&& d == 1 ==> u[a + b + c] == e.mirror_url->0@ + seq!['/'] + name
        }),
{
    reveal_strlit("/");
    assert("/"@ =~= seq!['/']);
}

/// What a failed download says: whatever names the file, the address or the cause stands in it.
pub proof fn law_error_text(n: String, url: String, err: String, path: String)
    ensures
        error_text(DownloadError::NoSource(n)) == "manifest 中无 "@ + n@ + " 或未配置下载地址"@,
        error_text(DownloadError::Http { url, err }) == "下载失败（"@ + url@ + "）："@ + err@,
        error_text(DownloadError::BadSha { path }) == "SHA256 校验失败："@ + path@,
        error_text(DownloadError::Io(n)) == "IO 错误: "@ + n@,
{
}

/// The name of a file is what comes behind the last divider of its path.
pub proof fn law_file_name(platform: Platform, dir: Seq<char>, name: Seq<char>)
    requires
        platform != Platform::Windows,
        dir.len() > 0,
        name.len() > 0,
        name != "."@,
        name != ".."@,
        forall|i: int| 0 <= i < name.len() ==> #[trigger] name[i] != '/',
    ensures
        file_name(platform, dir + seq!['/'] + name) == name,
        file_name(platform, name) == name,
{
    crate::paths::law_route_grows(platform, dir, name);
    crate::paths::law_route_of_name(platform, name);
}

} // verus!
