//! Trying out settings: every combination of given values is run and reported on.
use crate::compose::Region;
use crate::detect::PersonInstance;
use crate::grid::{cell, lemma_cell, lemma_offset};
use crate::morph::{dilate, dilate_region, dilated, grown_times, shift_mask_region, shifted, whole};
use crate::mosaic::{
    cover_faces, covered, found_mask, growth, has_left, left_picture, mask_of_found, spot_ok, Spot,
};
use crate::probe::{is_number, number_ok};
use crate::text::{append, chars_of, find, find_in, parse_number, parsed, same, slice, split, split_on, text_of, texts, trim, trimmed};
use crate::track::{union, unite, views, Track, TrackView};
use vstd::prelude::*;

verus! {

/// The settings of a run.
#[derive(Debug, Clone)]
pub struct DebugConfig {
    /// The least score, in decimal.
    pub conf: String,
    pub device: String,
    pub style: String,
    pub strength: u32,
    pub batch: u32,
    pub detect_every: u32,
    pub face: bool,
    pub track: bool,
    pub smooth: bool,
    pub face_roi: bool,
    pub landmark_expand: bool,
    pub mask_ema: bool,
    pub tta: bool,
    pub gmc: bool,
    pub ocru: bool,
}

/// What the settings of a run are.
#[verifier::ext_equal]
pub struct DebugView {
    pub conf: Seq<char>,
    pub device: Seq<char>,
    pub style: Seq<char>,
    pub strength: u32,
    pub batch: u32,
    pub detect_every: u32,
    pub face: bool,
    pub track: bool,
    pub smooth: bool,
    pub face_roi: bool,
    pub landmark_expand: bool,
    pub mask_ema: bool,
    pub tta: bool,
    pub gmc: bool,
    pub ocru: bool,
}

impl View for DebugConfig {
    type V = DebugView;

    open spec fn view(&self) -> DebugView {
        DebugView {
            conf: self.conf@,
            device: self.device@,
            style: self.style@,
            strength: self.strength,
            batch: self.batch,
            detect_every: self.detect_every,
            face: self.face,
            track: self.track,
            smooth: self.smooth,
            face_roi: self.face_roi,
            landmark_expand: self.landmark_expand,
            mask_ema: self.mask_ema,
            tta: self.tta,
            gmc: self.gmc,
            ocru: self.ocru,
        }
    }
}

/// The truth value that a word stands for.
pub open spec fn truth(v: Seq<char>) -> Option<bool> {
    if v == "1"@ || v == "true"@ || v == "on"@ {
        Some(true)
    } else if v == "0"@ || v == "false"@ || v == "off"@ {
        Some(false)
    } else {
        None
    }
}

/// What is said of a value that is no number.
pub open spec fn no_number(key: Seq<char>, v: Seq<char>) -> Seq<char> {
    key + "="@ + v + " 不是数字"@
}

/// What is said of a value that is no truth value.
pub open spec fn no_truth(key: Seq<char>, v: Seq<char>) -> Seq<char> {
    key + "="@ + v + " 不是布尔（1/0/true/false）"@
}

fn complain(key: &str, v: &str, what: &str) -> (s: String)
    ensures
        s@ == key@ + "="@ + v@ + what@,
{
    let mut s = key.to_owned();
    append(&mut s, "=");
    append(&mut s, v);
    append(&mut s, what);
    s
}

/// The truth value that a word stands for.
pub fn parse_bool(v: &str, key: &str) -> (r: Result<bool, String>)
    ensures
        match truth(v@) {
            Some(b) => r == Ok::<bool, String>(b),
            None => r is Err && r->Err_0@ == no_truth(key@, v@),
        },
{
    if same(v, "1") || same(v, "true") || same(v, "on") {
        Ok(true)
    } else if same(v, "0") || same(v, "false") || same(v, "off") {
        Ok(false)
    } else {
        Err(complain(key, v, " 不是布尔（1/0/true/false）"))
    }
}

/// Whether a setting is a whole number.
pub open spec fn counts(key: Seq<char>) -> bool {
    key == "strength"@ || key == "detect-every"@ || key == "batch"@
}

/// Whether a setting is a truth value.
pub open spec fn switches(key: Seq<char>) -> bool {
    key == "face"@ || key == "face-roi"@ || key == "landmark"@ || key == "ema"@ || key == "track"@ || key == "smooth"@
        || key == "tta"@ || key == "gmc"@ || key == "ocru"@
}

/// Why a setting cannot have a value, if it cannot.
pub open spec fn override_error(key: Seq<char>, v: Seq<char>) -> Option<Seq<char>> {
    if key == "conf"@ {
        if number_ok(v) {
            None
        } else {
            Some(no_number(key, v))
        }
    } else if counts(key) {
        if parsed(v, u32::MAX as nat) is Some {
            None
        } else {
            Some(no_number(key, v))
        }
    } else if key == "style"@ || key == "device"@ {
        None
    } else if switches(key) {
        if truth(v) is Some {
            None
        } else {
            Some(no_truth(key, v))
        }
    } else {
        Some(
            "未知 sweep 键 "@ + key
                + "（可用：conf/strength/detect-every/batch/style/device/face/track/smooth/tta/gmc/ocru）"@,
        )
    }
}

/// The settings after one of them has been given a value.
pub open spec fn overridden(c: DebugView, key: Seq<char>, v: Seq<char>) -> DebugView {
    let n = parsed(v, u32::MAX as nat)->0 as u32;
    let b = truth(v)->0;
    if key == "conf"@ {
        DebugView { conf: v, ..c }
    } else if key == "strength"@ {
        DebugView { strength: n, ..c }
    } else if key == "detect-every"@ {
        DebugView { detect_every: n, ..c }
    } else if key == "batch"@ {
        DebugView { batch: n, ..c }
    } else if key == "style"@ {
        DebugView { style: v, ..c }
    } else if key == "device"@ {
        DebugView { device: v, ..c }
    } else if key == "face"@ {
        DebugView { face: b, ..c }
    } else if key == "face-roi"@ {
        DebugView { face_roi: b, ..c }
    } else if key == "landmark"@ {
        DebugView { landmark_expand: b, ..c }
    } else if key == "ema"@ {
        DebugView { mask_ema: b, ..c }
    } else if key == "track"@ {
        DebugView { track: b, ..c }
    } else if key == "smooth"@ {
        DebugView { smooth: b, ..c }
    } else if key == "tta"@ {
        DebugView { tta: b, ..c }
    } else if key == "gmc"@ {
        DebugView { gmc: b, ..c }
    } else {
        DebugView { ocru: b, ..c }
    }
}

impl DebugConfig {
    fn set_count(&mut self, key: &str, n: u32)
        requires
            counts(key@),
            key@ != "conf"@,
        ensures
            final(self)@ == (if key@ == "strength"@ {
                DebugView { strength: n, ..old(self)@ }
            } else if key@ == "detect-every"@ {
                DebugView { detect_every: n, ..old(self)@ }
            } else {
                DebugView { batch: n, ..old(self)@ }
            }),
    {
        if same(key, "strength") {
            self.strength = n;
        } else if same(key, "detect-every") {
            self.detect_every = n;
        } else {
            self.batch = n;
        }
    }

    fn set_switch(&mut self, key: &str, b: bool)
        requires
            switches(key@),
        ensures
            final(self)@ == (if key@ == "face"@ {
                DebugView { face: b, ..old(self)@ }
            } else if key@ == "face-roi"@ {
                DebugView { face_roi: b, ..old(self)@ }
            } else if key@ == "landmark"@ {
                DebugView { landmark_expand: b, ..old(self)@ }
            } else if key@ == "ema"@ {
                DebugView { mask_ema: b, ..old(self)@ }
            } else if key@ == "track"@ {
                DebugView { track: b, ..old(self)@ }
            } else if key@ == "smooth"@ {
                DebugView { smooth: b, ..old(self)@ }
            } else if key@ == "tta"@ {
                DebugView { tta: b, ..old(self)@ }
            } else if key@ == "gmc"@ {
                DebugView { gmc: b, ..old(self)@ }
            } else {
                DebugView { ocru: b, ..old(self)@ }
            }),
    {
        if same(key, "face") {
            self.face = b;
        } else if same(key, "face-roi") {
            self.face_roi = b;
        } else if same(key, "landmark") {
            self.landmark_expand = b;
        } else if same(key, "ema") {
            self.mask_ema = b;
        } else if same(key, "track") {
            self.track = b;
        } else if same(key, "smooth") {
            self.smooth = b;
        } else if same(key, "tta") {
            self.tta = b;
        } else if same(key, "gmc") {
            self.gmc = b;
        } else {
            self.ocru = b;
        }
    }

    /// Gives a setting a value.
    pub fn apply_override(&mut self, key: &str, v: &str) -> (r: Result<(), String>)
        ensures
            match override_error(key@, v@) {
                Some(e) => r is Err && r->Err_0@ == e && final(self)@ == old(self)@,
                None => r is Ok && final(self)@ == overridden(old(self)@, key@, v@),
            },
    {
        if same(key, "conf") {
            if !is_number(&chars_of(v)) {
                return Err(complain(key, v, " 不是数字"));
            }
            self.conf = v.to_owned();
            return Ok(());
        }
        if same(key, "strength") || same(key, "detect-every") || same(key, "batch") {
            return match parse_number(&chars_of(v), u32::MAX as u64) {
                None => Err(complain(key, v, " 不是数字")),
                Some(n) => {
                    self.set_count(key, n as u32);
                    Ok(())
                },
            };
        }
        if same(key, "style") {
            self.style = v.to_owned();
            return Ok(());
        }
        if same(key, "device") {
            self.device = v.to_owned();
            return Ok(());
        }
        if same(key, "face") || same(key, "face-roi") || same(key, "landmark") || same(key, "ema") || same(key, "track")
            || same(key, "smooth") || same(key, "tta") || same(key, "gmc") || same(key, "ocru") {
            return match parse_bool(v, key) {
                Err(e) => Err(e),
                Ok(b) => {
                    self.set_switch(key, b);
                    Ok(())
                },
            };
        }
        let mut s = "未知 sweep 键 ".to_owned();
        append(&mut s, key);
        append(&mut s, "（可用：conf/strength/detect-every/batch/style/device/face/track/smooth/tta/gmc/ocru）");
        Err(s)
    }
}

// Every combination.
/// Texts without the space around them.
pub open spec fn trims(s: Seq<Seq<char>>) -> Seq<Seq<char>> {
    s.map_values(|t: Seq<char>| trim(t))
}

/// Takes apart what a user writes to have several values of a setting tried: `key=v1,v2`.
pub fn parse_sweep(s: &str) -> (r: Result<(String, Vec<String>), String>)
    ensures
        match find_in(s@, "="@) {
            None => r is Err && r->Err_0@ == "--sweep 格式应为 key=v1,v2，得到 "@ + s@,
            Some(i) => r is Ok && (r->Ok_0).0@ == trim(s@.take(i)) && texts((r->Ok_0).1@) == trims(
                split(s@.skip(i + 1), ','),
            ),
        },
{
    let c = chars_of(s);
    let eq = chars_of("=");
    proof {
        reveal_strlit("=");
    }
    match find(&c, &eq) {
        None => {
            let mut e = "--sweep 格式应为 key=v1,v2，得到 ".to_owned();
            append(&mut e, s);
            Err(e)
        },
        Some(i) => {
            assert(eq@.len() == 1);
            assert(c.len() == c@.len());
            let head = slice(&c, 0, i);
            assert(head@ =~= s@.take(i as int));
            let tail = slice(&c, i + 1, c.len());
            assert(tail@ =~= s@.skip(i + 1));
            let p = split_on(&tail, ',');
            let ghost q = split(tail@, ',');
            let mut v: Vec<String> = Vec::new();
            for k in 0..p.len()
                invariant
                    q == crate::text::rows(p@),
                    texts(v@) == trims(q).take(k as int),
            {
                assert(q[k as int] == p@[k as int]@);
                let ghost before = v@;
                let t = trimmed(&p[k]);
                v.push(text_of(&t));
                assert(texts(v@) =~= texts(before).push(trims(q)[k as int]));
                assert(trims(q).take(k + 1) =~= trims(q).take(k as int).push(trims(q)[k as int]));
            }
            assert(trims(q).take(p@.len() as int) =~= trims(q));
            Ok((text_of(&trimmed(&head)), v))
        },
    }
}

/// Every choice of one value for each setting, where the settings have so many values; the last setting changes fastest.
pub open spec fn choices(n: Seq<usize>) -> Seq<Seq<usize>>
    decreases n.len(),
{
    if n.len() == 0 {
        seq![Seq::<usize>::empty()]
    } else {
        let c = choices(n.drop_last());
        let k = n.last() as int;
        Seq::new((c.len() * k) as nat, |i: int| c[i / k].push((i % k) as usize))
    }
}

/// The product of the first numbers of a list.
pub open spec fn product(n: Seq<usize>) -> int
    decreases n.len(),
{
    if n.len() == 0 {
        1
    } else {
        product(n.drop_last()) * n.last()
    }
}

/// There are as many choices as the numbers of values multiplied.
pub proof fn law_choices_count(n: Seq<usize>)
    ensures
        choices(n).len() == product(n),
        product(n) >= 0,
    decreases n.len(),
{
    if n.len() > 0 {
        law_choices_count(n.drop_last());
        assert(0 <= product(n.drop_last()) * n.last()) by (nonlinear_arith)
            requires
                0 <= product(n.drop_last()),
                0 <= n.last(),
        ;
    }
}

/// A choice picks, for each setting, one of its values.
pub open spec fn picks(n: Seq<usize>, c: Seq<usize>) -> bool {
    c.len() == n.len() && forall|k: int| 0 <= k < n.len() ==> (#[trigger] c[k]) < n[k]
}

/// Every choice that picks a value of each setting is among the choices.
pub proof fn law_choices_complete(n: Seq<usize>, c: Seq<usize>)
    requires
        picks(n, c),
    ensures
        choices(n).contains(c),
    decreases n.len(),
{
    if n.len() == 0 {
        assert(c =~= Seq::<usize>::empty());
        assert(choices(n)[0] == c);
    } else {
        let m = n.drop_last();
        let b = c.drop_last();
        assert forall|k: int| 0 <= k < m.len() implies (#[trigger] b[k]) < m[k] by {
            assert(c[k] < n[k]);
        }
        law_choices_complete(m, b);
        let all = choices(m);
        let j = choose|j: int| 0 <= j < all.len() && all[j] == b;
        let k = n.last() as int;
        let last = c.last() as int;
        assert(c[n.len() - 1] < n[n.len() - 1]);
        lemma_cell(k, all.len() as int, last, j);
        let i = cell(k, last, j);
        assert(all.len() * k == k * all.len()) by (nonlinear_arith);
        assert(choices(n)[i] =~= c);
    }
}

/// The choices as sequences.
pub open spec fn index_rows(s: Seq<Vec<usize>>) -> Seq<Seq<usize>> {
    s.map_values(|v: Vec<usize>| v@)
}

fn expand(c: &Vec<Vec<usize>>, k: usize) -> (r: Vec<Vec<usize>>)
    requires
        c@.len() * k <= usize::MAX,
    ensures
        index_rows(r@) == Seq::new(
            (c@.len() * k) as nat,
            |i: int| index_rows(c@)[i / (k as int)].push((i % (k as int)) as usize),
        ),
{
    let mut r: Vec<Vec<usize>> = Vec::new();
    let ghost old_rows = index_rows(c@);
    let ghost want = Seq::new((c@.len() * k) as nat, |i: int| old_rows[i / (k as int)].push((i % (k as int)) as usize));
    let total: usize = c.len() * k;
    assert(index_rows(r@) =~= want.take(0));
    for i in 0..total
        invariant
            total == c@.len() * k,
            old_rows == index_rows(c@),
            want == Seq::new((c@.len() * k) as nat, |i: int| old_rows[i / (k as int)].push((i % (k as int)) as usize)),
            index_rows(r@) == want.take(i as int),
    {
        proof {
            assert(k > 0) by (nonlinear_arith)
                requires
                    0 <= i < c@.len() * k,
                    0 <= k,
                    0 <= c@.len(),
            ;
            assert(c@.len() * k == k * c@.len()) by (nonlinear_arith);
            lemma_offset(k as int, c@.len() as int, i as int);
        }
        let mut row: Vec<usize> = vstd::slice::slice_to_vec(c[i / k].as_slice());
        assert(old_rows[i as int / (k as int)] == c@[i as int / (k as int)]@);
        row.push(i % k);
        let ghost before = r@;
        assert(row@ == want[i as int]);
        r.push(row);
        assert(index_rows(r@) =~= index_rows(before).push(want[i as int]));
        assert(want.take(i + 1) =~= want.take(i as int).push(want[i as int]));
    }
    assert(want.take(total as int) =~= want);
    r
}

/// The product of the first numbers of a list fits the machine, for every number of them.
pub open spec fn countable(n: Seq<usize>) -> bool {
    forall|i: int| 0 <= i <= n.len() ==> product(#[trigger] n.take(i)) <= usize::MAX
}

/// Every choice of one value for each setting, where the settings have so many values.
pub fn combinations(n: &Vec<usize>) -> (r: Vec<Vec<usize>>)
    requires
        countable(n@),
    ensures
        index_rows(r@) == choices(n@),
{
    let mut r: Vec<Vec<usize>> = Vec::new();
    let none: Vec<usize> = Vec::new();
    assert(none@ =~= Seq::<usize>::empty());
    r.push(none);
    assert(n@.take(0) =~= Seq::<usize>::empty());
    assert(index_rows(r@) =~= choices(n@.take(0)));
    for i in 0..n.len()
        invariant
            countable(n@),
            index_rows(r@) == choices(n@.take(i as int)),
    {
        proof {
            assert(n@.take(i + 1).drop_last() =~= n@.take(i as int));
            assert(n@.take(i + 1).last() == n@[i as int]);
            law_choices_count(n@.take(i as int));
            assert(product(n@.take(i + 1)) <= usize::MAX);
            assert(r@.len() == index_rows(r@).len());
        }
        r = expand(&r, n[i]);
    }
    assert(n@.take(n@.len() as int) =~= n@);
    r
}

// The mask of a frame.
/// The mask of a track as it is shown while settings are tried out: moved and grown, in a frame that was not looked into
/// or if the track moves.
pub open spec fn traced(m: Seq<u8>, p: Spot, apart: bool, w: int, h: int) -> Seq<u8> {
    if apart {
        dilated(shifted(m, w, h, p.at, p.dx as int, p.dy as int), w, h, p.shifted, growth(p.spread as int))
    } else {
        m
    }
}

/// The masks of the first `n` tracks put together. `moves` says which of them move.
pub open spec fn traces(t: Seq<TrackView>, p: Seq<Spot>, moves: Seq<bool>, looked: bool, w: int, h: int, n: int) -> Seq<u8>
    decreases n,
{
    if n <= 0 {
        Seq::new((w * h) as nat, |k: int| 0u8)
    } else {
        let m = traces(t, p, moves, looked, w, h, n - 1);
        if left_picture(t[n - 1].lost, p[n - 1], w, h) {
            m
        } else {
            union(m, traced(t[n - 1].mask, p[n - 1], !looked || moves[n - 1], w, h))
        }
    }
}

proof fn lemma_shift_len(m: Seq<u8>, p: Spot, w: int, h: int)
    ensures
        shifted(m, w, h, p.at, p.dx as int, p.dy as int).len() == m.len(),
{
}

/// The masks of tracks put together.
pub fn trace_mask(t: &Vec<Track>, p: &Vec<Spot>, moves: &Vec<bool>, looked: bool, w: usize, h: usize) -> (m: Vec<u8>)
    requires
        0 < w,
        0 < h,
        w + 26 <= usize::MAX,
        h + 26 <= usize::MAX,
        w * h <= usize::MAX,
        t@.len() == p@.len(),
        t@.len() == moves@.len(),
        forall|i: int| 0 <= i < t@.len() ==> (#[trigger] t@[i]).mask@.len() == w * h,
        forall|i: int| 0 <= i < p@.len() ==> spot_ok(#[trigger] p@[i], w as int, h as int),
    ensures
        m@ == traces(views(t@), p@, moves@, looked, w as int, h as int, t@.len() as int),
        m@.len() == w * h,
{
    let mut m: Vec<u8> = vec![0u8; w * h];
    let ghost v = views(t@);
    assert(m@ =~= traces(v, p@, moves@, looked, w as int, h as int, 0));
    for i in 0..t.len()
        invariant
            0 < w,
            0 < h,
            w + 26 <= usize::MAX,
            h + 26 <= usize::MAX,
            t@.len() == p@.len(),
            t@.len() == moves@.len(),
            v == views(t@),
            forall|i: int| 0 <= i < t@.len() ==> (#[trigger] t@[i]).mask@.len() == w * h,
            forall|i: int| 0 <= i < p@.len() ==> spot_ok(#[trigger] p@[i], w as int, h as int),
            m@.len() == w * h,
            m@ == traces(v, p@, moves@, looked, w as int, h as int, i as int),
    {
        let spot: Spot = p[i];
        assert(v[i as int] == t@[i as int]@);
        assert(spot_ok(p@[i as int], w as int, h as int));
        if !has_left(t[i].lost, spot, w, h) {
            if !looked || moves[i] {
                proof {
                    lemma_shift_len(t@[i as int].mask@, spot, w as int, h as int);
                }
                let mut s: Vec<u8> = vstd::slice::slice_to_vec(t[i].mask.as_slice());
                shift_mask_region(s.as_mut_slice(), w, h, spot.at, spot.dx, spot.dy);
                let n: usize = t[i].hold_dilate_px(spot.spread);
                dilate_region(s.as_mut_slice(), w, h, spot.shifted, n);
                unite(m.as_mut_slice(), s.as_slice());
            } else {
                unite(m.as_mut_slice(), t[i].mask.as_slice());
            }
        }
    }
    m
}

/// Covers faces, and grows the mask of a frame that was not looked into by ten pixels.
pub fn finish_mask(m: &mut [u8], faces: &Vec<Region>, looked: bool, w: usize, h: usize)
    requires
        old(m)@.len() == w * h,
        forall|i: int| 0 <= i < faces@.len() ==> (#[trigger] faces@[i]).x2 <= w && faces@[i].y2 <= h,
    ensures
        final(m)@ == ({
            let c = covered(old(m)@, faces@, w as int, faces@.len() as int);
            if looked {
                c
            } else {
                grown_times(c, w as int, h as int, whole(w as int, h as int), 10)
            }
        }),
{
    cover_faces(m, faces, w, h);
    if !looked {
        proof {
            lemma_covered(old(m)@, faces@, w as int, faces@.len() as int);
        }
        dilate(m, w, h, 10);
    }
}

proof fn lemma_covered(m: Seq<u8>, faces: Seq<Region>, w: int, n: int)
    ensures
        covered(m, faces, w, n).len() == m.len(),
    decreases n,
{
    if n > 0 {
        lemma_covered(m, faces, w, n - 1);
    }
}

/// The masks of all people found put together.
pub fn plain_mask(d: &Vec<PersonInstance>, len: usize) -> (m: Vec<u8>)
    ensures
        m@ == found_mask(d@, 0, len as int, d@.len() as int),
{
    mask_of_found(d, 0, len)
}

// What is reported.
/// How many pixels among the first `n` are set.
pub open spec fn set_upto(m: Seq<u8>, n: int) -> int
    decreases n,
{
    if n <= 0 {
        0
    } else {
        set_upto(m, n - 1) + if m[n - 1] != 0 {
            1int
        } else {
            0
        }
    }
}

/// How many pixels are set.
pub fn count_set(m: &[u8]) -> (n: usize)
    ensures
        n == set_upto(m@, m@.len() as int),
        n <= m@.len(),
{
    assert(m.len() == m@.len());
    let mut n: usize = 0;
    for i in 0..m.len()
        invariant
            m@.len() <= usize::MAX,
            n == set_upto(m@, i as int),
            n <= i,
    {
        if m[i] != 0 {
            n = n + 1;
        }
    }
    n
}

/// What matters of a frame for the report.
#[derive(Debug, Clone, Copy, PartialEq, Eq, Structural)]
pub struct FrameFacts {
    /// How many tracks were shown.
    pub tracks: usize,
    /// How many of them were missing, and so only held.
    pub held: usize,
}

/// Whether all that is masked in a frame is only held.
pub open spec fn only_held(f: FrameFacts) -> bool {
    f.tracks > 0 && f.held == f.tracks
}

/// How many of the first `n` frames show only what is held.
pub open spec fn held_upto(f: Seq<FrameFacts>, n: int) -> int
    decreases n,
{
    if n <= 0 {
        0
    } else {
        held_upto(f, n - 1) + if only_held(f[n - 1]) {
            1int
        } else {
            0
        }
    }
}

/// How many frames show only what is held.
pub fn held_frames(f: &Vec<FrameFacts>) -> (n: usize)
    ensures
        n == held_upto(f@, f@.len() as int),
        n <= f@.len(),
{
    let mut n: usize = 0;
    for i in 0..f.len()
        invariant
            n == held_upto(f@, i as int),
            n <= i,
    {
        let x: FrameFacts = f[i];
        if x.tracks > 0 && x.held == x.tracks {
            n = n + 1;
        }
    }
    n
}

/// Whether a picture of frame `idx` is kept: one in `every`, and those near a time that the user names.
pub fn wants_picture(every: Option<u32>, idx: u64, near: bool) -> (r: bool)
    ensures
        r == ((every is Some && every->0 > 0 && idx % (every->0 as u64) == 0) || near),
{
    let due: bool = match every {
        Some(n) => n > 0 && idx % (n as u64) == 0,
        None => false,
    };
    due || near
}

// Pictures.
/// A byte with something added, at most 255.
pub open spec fn brighter(v: int) -> u8 {
    if v > 255 {
        255
    } else {
        v as u8
    }
}

/// A picture with four bytes per pixel in which what a mask sets is tinted green.
pub open spec fn tinted(p: Seq<u8>, mask: Seq<u8>, n: int) -> Seq<u8> {
    Seq::new(
        p.len(),
        |k: int|
            if k / 4 < n && mask[k / 4] != 0 {
                if k % 4 == 0 {
                    brighter(p[k] as int * 3 / 4 + 60)
                } else if k % 4 == 1 {
                    brighter(p[k] as int + 90)
                } else if k % 4 == 2 {
                    brighter(p[k] as int * 3 / 4 + 20)
                } else {
                    p[k]
                }
            } else {
                p[k]
            },
    )
}

fn cap(v: u32) -> (r: u8)
    ensures
        r == brighter(v as int),
{
    if v > 255 {
        255
    } else {
        v as u8
    }
}

/// Tints what a mask sets.
pub fn overlay_mask(rgba: &mut [u8], w: usize, h: usize, mask: &[u8])
    requires
        w * h <= mask@.len(),
        w * h * 4 <= old(rgba)@.len(),
    ensures
        final(rgba)@ == tinted(old(rgba)@, mask@, w * h),
{
    let ghost start = rgba@;
    let ghost want = tinted(start, mask@, w * h);
    assert(rgba.len() == rgba@.len());
    assert(mask.len() == mask@.len());
    let n: usize = w * h;
    for i in 0..n
        invariant
            n == w * h,
            n <= mask@.len(),
            n * 4 <= rgba@.len(),
            rgba@.len() <= usize::MAX,
            rgba@.len() == start.len(),
            want == tinted(start, mask@, n as int),
            forall|k: int| 0 <= k < 4 * i ==> rgba@[k] == want[k],
            forall|k: int| 4 * i <= k < rgba@.len() ==> rgba@[k] == start[k],
    {
        if mask[i] != 0 {
            let (r, g, b): (u8, u8, u8) = (rgba[i * 4], rgba[i * 4 + 1], rgba[i * 4 + 2]);
            rgba[i * 4] = cap(r as u32 * 3 / 4 + 60);
            rgba[i * 4 + 1] = cap(g as u32 + 90);
            rgba[i * 4 + 2] = cap(b as u32 * 3 / 4 + 20);
        }
        assert forall|k: int| 0 <= k < 4 * (i + 1) implies rgba@[k] == want[k] by {
            if k >= 4 * i {
                let j = k - 4 * i;
                assert((4 * i + j) / 4 == i && (4 * i + j) % 4 == j);
            }
        }
    }
    assert(rgba@ =~= want);
}

/// Whether a pixel belongs to the frame, `t` pixels thick, around a box; both ends of the box belong to it.
pub open spec fn on_border(x1: int, y1: int, x2: int, y2: int, t: int, x: int, y: int) -> bool {
    &&& x1 <= x <= x2
    &&& y1 <= y <= y2
    &&& x < x1 + t || x + t > x2 || y < y1 + t || y + t > y2
}

/// A picture of `w` by `h` pixels, four bytes each, in which the frame around a box is drawn.
pub open spec fn framed(p: Seq<u8>, w: int, h: int, xyxy: [usize; 4], color: [u8; 4], t: int) -> Seq<u8> {
    let x2 = if xyxy[2] < w - 1 {
        xyxy[2] as int
    } else {
        w - 1
    };
    let y2 = if xyxy[3] < h - 1 {
        xyxy[3] as int
    } else {
        h - 1
    };
    Seq::new(
        p.len(),
        |k: int|
            if k < 4 * (w * h) && on_border(xyxy[0] as int, xyxy[1] as int, x2, y2, t, (k / 4) % w, (k / 4) / w) {
                if k % 4 < 3 {
                    color[k % 4]
                } else {
                    255
                }
            } else {
                p[k]
            },
    )
}

/// Draws the frame around a box; the corners of the box are rounded down.
pub fn draw_rect(rgba: &mut [u8], w: usize, h: usize, xyxy: [usize; 4], color: [u8; 4], t: usize)
    requires
        0 < w,
        0 < h,
        w + t <= usize::MAX,
        h + t <= usize::MAX,
        4 * (w * h) <= old(rgba)@.len(),
    ensures
        final(rgba)@ == framed(old(rgba)@, w as int, h as int, xyxy, color, t as int),
{
    let ghost start = rgba@;
    let ghost want = framed(start, w as int, h as int, xyxy, color, t as int);
    assert(rgba.len() == rgba@.len());
    let x1: usize = xyxy[0];
    let y1: usize = xyxy[1];
    let x2: usize = if xyxy[2] < w - 1 { xyxy[2] } else { w - 1 };
    let y2: usize = if xyxy[3] < h - 1 { xyxy[3] } else { h - 1 };
    let n: usize = w * h;
    for i in 0..n
        invariant
            0 < w,
            0 < h,
            n == w * h,
            w + t <= usize::MAX,
            h + t <= usize::MAX,
            4 * n <= rgba@.len(),
            rgba@.len() <= usize::MAX,
            rgba@.len() == start.len(),
            x1 == xyxy[0],
            y1 == xyxy[1],
            x2 == (if xyxy[2] < w - 1 {
                xyxy[2] as int
            } else {
                w - 1
            }),
            y2 == (if xyxy[3] < h - 1 {
                xyxy[3] as int
            } else {
                h - 1
            }),
            want == framed(start, w as int, h as int, xyxy, color, t as int),
            forall|k: int| 0 <= k < 4 * i ==> rgba@[k] == want[k],
            forall|k: int| 4 * i <= k < rgba@.len() ==> rgba@[k] == start[k],
    {
        proof {
            lemma_offset(w as int, h as int, i as int);
        }
        let x: usize = i % w;
        let y: usize = i / w;
        if x1 <= x && x <= x2 && y1 <= y && y <= y2 && (x < x1 + t || x + t > x2 || y < y1 + t || y + t > y2) {
            rgba[i * 4] = color[0];
            rgba[i * 4 + 1] = color[1];
            rgba[i * 4 + 2] = color[2];
            rgba[i * 4 + 3] = 255;
        }
        assert forall|k: int| 0 <= k < 4 * (i + 1) implies rgba@[k] == want[k] by {
            if k >= 4 * i {
                let j = k - 4 * i;
                assert((4 * i + j) / 4 == i && (4 * i + j) % 4 == j);
            }
        }
    }
    assert(rgba@ =~= want);
}

/// The colour in which a track is drawn: one of eight, by its number.
pub fn track_color(id: u64) -> (c: [u8; 4])
    ensures
        c == (match id % 8 {
            0 => [255u8, 76, 76, 255],
            1 => [76u8, 175, 255, 255],
            2 => [255u8, 165, 0, 255],
            3 => [156u8, 39, 176, 255],
            4 => [0u8, 230, 118, 255],
            5 => [255u8, 105, 180, 255],
            6 => [121u8, 85, 72, 255],
            _ => [240u8, 240, 60, 255],
        }),
{
    match id % 8 {
        0 => [255, 76, 76, 255],
        1 => [76, 175, 255, 255],
        2 => [255, 165, 0, 255],
        3 => [156, 39, 176, 255],
        4 => [0, 230, 118, 255],
        5 => [255, 105, 180, 255],
        6 => [121, 85, 72, 255],
        _ => [240, 240, 60, 255],
    }
}

/// The words for truth values: `1`, `true` and `on`; `0`, `false` and `off`; and no others.
pub proof fn law_truth(v: Seq<char>)
    ensures
        truth(v) == Some(true) <==> v == seq!['1'] || v == seq!['t', 'r', 'u', 'e'] || v == seq!['o', 'n'],
        truth(v) == Some(false) <==> v == seq!['0'] || v == seq!['f', 'a', 'l', 's', 'e'] || v == seq!['o', 'f', 'f'],
{
    reveal_strlit("1");
    reveal_strlit("true");
    reveal_strlit("on");
    reveal_strlit("0");
    reveal_strlit("false");
    reveal_strlit("off");
    assert("1"@ =~= seq!['1']);
    assert("true"@ =~= seq!['t', 'r', 'u', 'e']);
    assert("on"@ =~= seq!['o', 'n']);
    assert("0"@ =~= seq!['0']);
    assert("false"@ =~= seq!['f', 'a', 'l', 's', 'e']);
    assert("off"@ =~= seq!['o', 'f', 'f']);
    if v == "0"@ {
        assert(v[0] == '0');
    }
    if v == "off"@ {
        assert(v.len() == 3);
    }
    if v == "1"@ {
        assert(v[0] == '1');
    }
}

proof fn lemma_keys_differ()
    ensures
        "conf"@.len() == 4 && "conf"@[0] == 'c',
        "strength"@.len() == 8,
        "detect-every"@.len() == 12,
        "batch"@.len() == 5 && "batch"@[0] == 'b',
        "style"@.len() == 5 && "style"@[0] == 's',
        "device"@.len() == 6 && "device"@[0] == 'd',
        "face"@.len() == 4 && "face"@[0] == 'f',
        "face-roi"@.len() == 8 && "face-roi"@[0] == 'f',
        "strength"@[0] == 's',
        "landmark"@.len() == 8 && "landmark"@[0] == 'l',
        "ema"@.len() == 3 && "ema"@[0] == 'e',
        "track"@.len() == 5 && "track"@[0] == 't',
        "smooth"@.len() == 6 && "smooth"@[0] == 's',
        "tta"@.len() == 3 && "tta"@[0] == 't',
        "gmc"@.len() == 3 && "gmc"@[0] == 'g',
        "ocru"@.len() == 4 && "ocru"@[0] == 'o',
{
    reveal_strlit("conf");
    reveal_strlit("strength");
    reveal_strlit("detect-every");
    reveal_strlit("batch");
    reveal_strlit("style");
    reveal_strlit("device");
    reveal_strlit("face");
    reveal_strlit("face-roi");
    reveal_strlit("landmark");
    reveal_strlit("ema");
    reveal_strlit("track");
    reveal_strlit("smooth");
    reveal_strlit("tta");
    reveal_strlit("gmc");
    reveal_strlit("ocru");
}

/// Each setting is changed under its own name, and no other with it.
pub proof fn law_each_setting_by_its_name(c: DebugView, v: Seq<char>)
    ensures
        overridden(c, "conf"@, v) == (DebugView { conf: v, ..c }),
        overridden(c, "style"@, v) == (DebugView { style: v, ..c }),
        overridden(c, "device"@, v) == (DebugView { device: v, ..c }),
        parsed(v, u32::MAX as nat) is Some ==> {
            let n = parsed(v, u32::MAX as nat)->0 as u32;
            &&& overridden(c, "strength"@, v) == (DebugView { strength: n, ..c })
            &&& overridden(c, "detect-every"@, v) == (DebugView { detect_every: n, ..c })
            &&& overridden(c, "batch"@, v) == (DebugView { batch: n, ..c })
        },
        truth(v) is Some ==> {
            let b = truth(v)->0;
            &&& overridden(c, "face"@, v) == (DebugView { face: b, ..c })
            &&& overridden(c, "face-roi"@, v) == (DebugView { face_roi: b, ..c })
            &&& overridden(c, "landmark"@, v) == (DebugView { landmark_expand: b, ..c })
            &&& overridden(c, "ema"@, v) == (DebugView { mask_ema: b, ..c })
            &&& overridden(c, "track"@, v) == (DebugView { track: b, ..c })
            &&& overridden(c, "smooth"@, v) == (DebugView { smooth: b, ..c })
            &&& overridden(c, "tta"@, v) == (DebugView { tta: b, ..c })
            &&& overridden(c, "gmc"@, v) == (DebugView { gmc: b, ..c })
            &&& overridden(c, "ocru"@, v) == (DebugView { ocru: b, ..c })
        },
{
    lemma_keys_differ();
}

/// Which values a setting can have: a score any number, the counts any whole number, the style and the device anything, and the switches any
/// truth value. Other settings there are none.
pub proof fn law_what_settings_take(key: Seq<char>, v: Seq<char>)
    ensures
        key == "conf"@ ==> (override_error(key, v) is None <==> number_ok(v)),
        key == "strength"@ || key == "detect-every"@ || key == "batch"@ ==> (override_error(key, v) is None <==> parsed(v, u32::MAX as nat) is Some),
        key == "style"@ || key == "device"@ ==> override_error(key, v) is None,
        key == "face"@ || key == "face-roi"@ || key == "landmark"@ || key == "ema"@ || key == "track"@ || key == "smooth"@ || key == "tta"@ || key
            == "gmc"@ || key == "ocru"@ ==> (override_error(key, v) is None <==> truth(v) is Some),
        key != "conf"@ && key != "strength"@ && key != "detect-every"@ && key != "batch"@ && key != "style"@ && key != "device"@ && key != "face"@ && key
            != "face-roi"@ && key != "landmark"@ && key != "ema"@ && key != "track"@ && key != "smooth"@ && key != "tta"@ && key != "gmc"@ && key
            != "ocru"@ ==> override_error(key, v) is Some,
{
    lemma_keys_differ();
}

/// The choices with one setting more: for each choice of the others, in their order, all values of the new one, in their order.
pub proof fn law_choices_in_order(n: Seq<usize>, k: usize, i: int, j: int)
    requires
        0 <= i < choices(n).len(),
        0 <= j < k,
    ensures
        choices(Seq::empty()) == seq![Seq::<usize>::empty()],
        choices(n.push(k)).len() == choices(n).len() * k,
        i * k + j < choices(n.push(k)).len(),
        choices(n.push(k))[i * k + j] == choices(n)[i].push(j as usize),
{
    assert(n.push(k).drop_last() =~= n);
    lemma_cell(k as int, choices(n).len() as int, j, i);
    assert(cell(k as int, j, i) == i * k + j);
    assert(choices(n).len() * k == k * choices(n).len()) by (nonlinear_arith);
}

/// The mask of a track while settings are tried out: as it was seen, if the frame was looked into and the track does not move; else moved
/// with the track and grown there by 6 to 24 pixels.
pub proof fn law_traced(m: Seq<u8>, p: Spot, apart: bool, w: int, h: int)
    ensures
        !apart ==> traced(m, p, apart, w, h) == m,
        apart ==> traced(m, p, apart, w, h) == dilated(
            shifted(m, w, h, p.at, p.dx as int, p.dy as int),
            w,
            h,
            p.shifted,
            if p.spread < 6 {
                6
            } else if p.spread > 24 {
                24
            } else {
                p.spread as int
            },
        ),
{
}

/// The mask of a frame while settings are tried out is set exactly where the mask of a track that has not left the picture is, as it is shown.
pub proof fn law_traces(t: Seq<TrackView>, p: Seq<Spot>, moves: Seq<bool>, looked: bool, w: int, h: int, n: int, k: int)
    requires
        0 <= n <= t.len(),
        0 <= k < w * h,
        forall|i: int| 0 <= i < n ==> (#[trigger] t[i]).mask.len() == w * h,
    ensures
        traces(t, p, moves, looked, w, h, n).len() == w * h,
        traces(t, p, moves, looked, w, h, n)[k] != 0 <==> exists|i: int|
            0 <= i < n && !left_picture((#[trigger] t[i]).lost, p[i], w, h) && traced(t[i].mask, p[i], !looked || moves[i], w, h)[k] != 0,
    decreases n,
{
    if n > 0 {
        law_traces(t, p, moves, looked, w, h, n - 1, k);
        let was = traces(t, p, moves, looked, w, h, n - 1);
        let m = traced(t[n - 1].mask, p[n - 1], !looked || moves[n - 1], w, h);
        lemma_traced_len(t[n - 1].mask, p[n - 1], !looked || moves[n - 1], w, h);
        crate::track::law_union(was, m, k);
        if was[k] != 0 {
            let i = choose|i: int|
                0 <= i < n - 1 && !left_picture((#[trigger] t[i]).lost, p[i], w, h) && traced(t[i].mask, p[i], !looked || moves[i], w, h)[k] != 0;
            assert(traced(t[i].mask, p[i], !looked || moves[i], w, h)[k] != 0);
        }
        if !left_picture(t[n - 1].lost, p[n - 1], w, h) && m[k] != 0 {
            assert(traced(t[n - 1].mask, p[n - 1], !looked || moves[n - 1], w, h)[k] != 0);
        }
    }
}

proof fn lemma_traced_len(m: Seq<u8>, p: Spot, apart: bool, w: int, h: int)
    ensures
        traced(m, p, apart, w, h).len() == m.len(),
{
    let a = shifted(m, w, h, p.at, p.dx as int, p.dy as int);
    let n = growth(p.spread as int);
    crate::mosaic::lemma_grown_len(a, w, h, crate::morph::around(p.shifted, w, h, n + 2), n);
}

/// How many pixels are set, and how many frames show only what is held: each counts once.
pub proof fn law_counts(m: Seq<u8>, f: Seq<FrameFacts>, n: int, k: int)
    requires
        0 <= n,
        0 <= k,
    ensures
        set_upto(m, n) == crate::compose::total(
            |i: int|
                if m[i] == 0 {
                    0int
                } else {
                    1
                },
            n,
        ),
        held_upto(f, k) == crate::compose::total(
            |i: int|
                if f[i].tracks > 0 && f[i].held == f[i].tracks {
                    1int
                } else {
                    0
                },
            k,
        ),
    decreases n + k,
{
    if n > 0 {
        law_counts(m, f, n - 1, k);
    }
    if k > 0 {
        law_counts(m, f, n, k - 1);
    }
}

/// A tinted picture: a pixel that the mask sets keeps three fourths of its red and blue, and gets 60 of red, 90 of green and 20 of blue added,
/// up to 255; all other pixels stay.
pub proof fn law_tinted(p: Seq<u8>, mask: Seq<u8>, n: int, i: int)
    requires
        0 <= i < n,
        4 * n <= p.len(),
    ensures
        ({
            let t = tinted(p, mask, n);
            let most = |v: int| if v > 255 { 255 } else { v };
            &&& t.len() == p.len()
            &&& mask[i] == 0 ==> t[4 * i] == p[4 * i] && t[4 * i + 1] == p[4 * i + 1] && t[4 * i + 2] == p[4 * i + 2]
            &&& mask[i] != 0 ==> t[4 * i] == most(p[4 * i] as int * 3 / 4 + 60) && t[4 * i + 1] == most(p[4 * i + 1] as int + 90) && t[4 * i + 2]
                == most(p[4 * i + 2] as int * 3 / 4 + 20)
            &&& t[4 * i + 3] == p[4 * i + 3]
        }),
{
    assert((4 * i) / 4 == i && (4 * i + 1) / 4 == i && (4 * i + 2) / 4 == i && (4 * i + 3) / 4 == i);
}

/// The frame around a box: the pixels of the box that are less than `t` from one of its edges, where it ends at the edge of the picture if
/// it reaches beyond. They get the colour and are opaque; all others stay.
pub proof fn law_framed(p: Seq<u8>, w: int, h: int, xyxy: [usize; 4], color: [u8; 4], t: int, x: int, y: int, c: int)
    requires
        0 <= x < w,
        0 <= y < h,
        4 * (w * h) <= p.len(),
        0 <= c <= 2,
    ensures
        ({
            let r = if xyxy[2] < w - 1 { xyxy[2] as int } else { w - 1 };
            let b = if xyxy[3] < h - 1 { xyxy[3] as int } else { h - 1 };
            let inside = xyxy[0] <= x <= r && xyxy[1] <= y <= b;
            let edge = x - xyxy[0] < t || r - x < t || y - xyxy[1] < t || b - y < t;
            let k = 4 * (y * w + x);
            let f = framed(p, w, h, xyxy, color, t);
            &&& f.len() == p.len()
            &&& inside && edge ==> f[k + c] == color[c] && f[k + 3] == 255
            &&& !(inside && edge) ==> f[k + c] == p[k + c] && f[k + 3] == p[k + 3]
        }),
{
    lemma_cell(w, h, x, y);
    let k = cell(w, x, y);
    assert((4 * k + c) / 4 == k && (4 * k + c) % 4 == c);
    assert((4 * k + 3) / 4 == k && (4 * k + 3) % 4 == 3);
}

} // verus!
