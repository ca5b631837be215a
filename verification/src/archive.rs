//! The thorough analysis of a frame: which of several opinions to believe, and to whom a face belongs.
use crate::compose::{fill_rect, filled, lemma_total_same, total, Region};
use crate::detect::{measured, rect_of, PersonInstance};
use vstd::prelude::*;

verus! {

/// The kind of an instance that is a person.
pub const KIND_PERSON: u8 = 0;

/// The kind of an instance that is a face without a person.
pub const KIND_FACE: u8 = 1;

/// A hypothesis that only one detector holds is kept from this score on: the bits of 0.1.
pub const FUSED_KEEP_SOLO: u32 = 0x3DCC_CCCD;

/// More overlap than this makes two boxes one person: the bits of 0.55.
pub const YOLO_MATCH_IOU: u32 = 0x3F0C_CCCD;

/// What the analysis says of one person or face in one frame. The score and the box are the bits of
/// single-precision numbers.
#[derive(Debug, Clone)]
pub struct ArchiveInstance {
    /// The number of the masklet; the same in every frame.
    pub id: u64,
    pub score: u32,
    pub xyxy: [u32; 4],
    pub mask: Vec<u8>,
    pub kind: u8,
}

/// Where the models of the analysis are.
#[derive(Debug, Clone)]
pub struct ArchiveModelPaths {
    pub yolo: String,
    pub gd: String,
    pub sam_encoder: String,
    pub sam_decoder: String,
    pub retina: String,
    /// Without it, masklets are linked by position alone.
    pub reid: Option<String>,
}

impl Default for ArchiveModelPaths {
    /// No paths.
    fn default() -> (p: ArchiveModelPaths)
        ensures
            p.yolo@.len() == 0,
            p.gd@.len() == 0,
            p.sam_encoder@.len() == 0,
            p.sam_decoder@.len() == 0,
            p.retina@.len() == 0,
            p.reid is None,
    {
        ArchiveModelPaths {
            yolo: String::new(),
            gd: String::new(),
            sam_encoder: String::new(),
            sam_decoder: String::new(),
            retina: String::new(),
            reid: None,
        }
    }
}

/// A box that two detectors agree on, or that one of them holds: how many hold it, the key of the common score, and
/// that of the best single score.
#[derive(Debug, Clone, Copy, PartialEq, Eq, Structural)]
pub struct FusedKey {
    pub votes: usize,
    pub score: u32,
    pub best: u32,
}

/// Whether a box is kept: two detectors hold it, or it has a good common score, or one detector at least is at
/// `sure` or above.
pub open spec fn believed(f: FusedKey, sure: u32) -> bool {
    f.votes >= 2 || f.score >= FUSED_KEEP_SOLO || f.best >= sure
}

/// The first `n` boxes that are kept.
pub open spec fn believed_upto(list: Seq<FusedKey>, sure: u32, n: int) -> Seq<usize>
    decreases n,
{
    if n <= 0 {
        Seq::empty()
    } else if believed(list[n - 1], sure) {
        believed_upto(list, sure, n - 1).push((n - 1) as usize)
    } else {
        believed_upto(list, sure, n - 1)
    }
}

/// Which boxes are kept.
pub fn keep_fused(list: &Vec<FusedKey>, sure: u32) -> (kept: Vec<usize>)
    ensures
        kept@ == believed_upto(list@, sure, list@.len() as int),
{
    let mut kept: Vec<usize> = Vec::new();
    for i in 0..list.len()
        invariant
            kept@ == believed_upto(list@, sure, i as int),
    {
        let f: FusedKey = list[i];
        if f.votes >= 2 || f.score >= FUSED_KEEP_SOLO || f.best >= sure {
            kept.push(i);
        }
    }
    kept
}

/// How many samples are taken along `n` pixels, one in four.
pub open spec fn samples(n: int) -> int {
    (n + 3) / 4
}

/// How many of `n` samples, four pixels apart, from `at` on, are set to one.
pub open spec fn row_hits(mask: Seq<u8>, at: int, n: int) -> int
    decreases n,
{
    if n <= 0 {
        0
    } else {
        row_hits(mask, at, n - 1) + if mask[at + 4 * (n - 1)] == 1 {
            1int
        } else {
            0
        }
    }
}

/// How many samples of `n` rows, four rows apart, are set to one.
pub open spec fn hits(mask: Seq<u8>, w: int, x: int, y: int, columns: int, n: int) -> int
    decreases n,
{
    if n <= 0 {
        0
    } else {
        hits(mask, w, x, y, columns, n - 1) + row_hits(mask, (y + 4 * (n - 1)) * w + x, columns)
    }
}

/// A part of a whole.
#[derive(Debug, Clone, Copy, PartialEq, Eq, Structural)]
pub struct Share {
    pub hit: u128,
    pub total: u128,
}

/// How much of a box, sampled every four pixels, a mask with rows of `w` pixels covers.
pub open spec fn share_of(xyxy: [usize; 4], mask: Seq<u8>, w: int) -> Share {
    let g = measured(xyxy, w, mask.len() as int / w);
    let columns = samples(g.width());
    let lines = samples(g.height());
    Share {
        hit: hits(mask, w, g.x1 as int, g.y1 as int, columns, lines) as u128,
        total: (columns * lines) as u128,
    }
}

/// Whether the samples of a box lie inside a mask.
pub open spec fn samples_fit(xyxy: [usize; 4], len: int, w: int) -> bool {
    let g = measured(xyxy, w, len / w);
    &&& 0 < w
    &&& xyxy[0] < usize::MAX
    &&& xyxy[1] < usize::MAX
    &&& (g.y1 + 4 * (samples(g.height()) - 1)) * w + g.x1 + 4 * (samples(g.width()) - 1) < len
}

proof fn lemma_sample(g: Region, w: int, len: int, i: int, j: int)
    requires
        0 < w,
        g.x1 < g.x2,
        g.y1 < g.y2,
        0 <= i < samples(g.width()),
        0 <= j < samples(g.height()),
        (g.y1 + 4 * (samples(g.height()) - 1)) * w + g.x1 + 4 * (samples(g.width()) - 1) < len,
    ensures
        0 <= (g.y1 + 4 * j) * w,
        (g.y1 + 4 * j) * w + g.x1 + 4 * i < len,
{
    assert((g.y1 + 4 * j) * w <= (g.y1 + 4 * (samples(g.height()) - 1)) * w && 0 <= (g.y1 + 4 * j) * w)
        by (nonlinear_arith)
        requires
            0 < w,
            0 <= g.y1 + 4 * j <= g.y1 + 4 * (samples(g.height()) - 1),
    ;
}

proof fn lemma_row_hits(mask: Seq<u8>, at: int, n: int)
    requires
        0 <= n,
    ensures
        0 <= row_hits(mask, at, n) <= n,
    decreases n,
{
    if n > 0 {
        lemma_row_hits(mask, at, n - 1);
    }
}

proof fn lemma_hits(mask: Seq<u8>, w: int, x: int, y: int, columns: int, n: int)
    requires
        0 <= n,
        0 <= columns,
    ensures
        0 <= hits(mask, w, x, y, columns, n) <= columns * n,
    decreases n,
{
    if n > 0 {
        lemma_hits(mask, w, x, y, columns, n - 1);
        lemma_row_hits(mask, (y + 4 * (n - 1)) * w + x, columns);
        assert(columns * (n - 1) + columns == columns * n) by (nonlinear_arith);
    } else {
        assert(columns * 0 == 0);
    }
}

/// A share is a part of its whole, and the whole is not nothing.
pub proof fn law_share(xyxy: [usize; 4], mask: Seq<u8>, w: int)
    requires
        samples_fit(xyxy, mask.len() as int, w),
        mask.len() <= usize::MAX,
    ensures
        share_of(xyxy, mask, w).hit <= share_of(xyxy, mask, w).total,
        0 < share_of(xyxy, mask, w).total,
        10 * share_of(xyxy, mask, w).total <= u128::MAX,
{
    let g = measured(xyxy, w, mask.len() as int / w);
    let c = samples(g.width());
    let l = samples(g.height());
    lemma_hits(mask, w, g.x1 as int, g.y1 as int, c, l);
    lemma_shares_fit(c, l);
}

proof fn lemma_shares_fit(c: int, l: int)
    requires
        1 <= c <= 0x4000_0000_0000_0000,
        1 <= l <= 0x4000_0000_0000_0000,
    ensures
        1 <= c * l,
        10 * (c * l) <= u128::MAX,
{
    assert(1 <= c * l <= 0x4000_0000_0000_0000 * 0x4000_0000_0000_0000) by (nonlinear_arith)
        requires
            1 <= c <= 0x4000_0000_0000_0000,
            1 <= l <= 0x4000_0000_0000_0000,
    ;
}

/// How much of a box a mask with rows of `w` pixels covers. The first two corners of the box are rounded down, the
/// others up.
pub fn box_area_overlap(xyxy: [usize; 4], mask: &[u8], w: usize) -> (s: Share)
    requires
        samples_fit(xyxy, mask@.len() as int, w as int),
    ensures
        s == share_of(xyxy, mask@, w as int),
        s.hit <= s.total,
        0 < s.total,
        10 * s.total <= u128::MAX,
{
    let g = rect_of(xyxy, w, mask.len() / w);
    let columns: usize = (g.x2 - g.x1 - 1) / 4 + 1;
    let lines: usize = (g.y2 - g.y1 - 1) / 4 + 1;
    let mut hit: u128 = 0;
    proof {
        assert(mask.len() == mask@.len());
        assert(columns == samples(g.width()));
        assert(lines == samples(g.height()));
        lemma_shares_fit(columns as int, lines as int);
        law_share(xyxy, mask@, w as int);
    }
    for j in 0..lines
        invariant
            0 < w,
            mask@.len() <= usize::MAX,
            g.x1 < g.x2,
            g.y1 < g.y2,
            columns == samples(g.width()),
            lines == samples(g.height()),
            (g.y1 + 4 * (samples(g.height()) - 1)) * w + g.x1 + 4 * (samples(g.width()) - 1) < mask@.len(),
            hit == hits(mask@, w as int, g.x1 as int, g.y1 as int, columns as int, j as int),
    {
        proof {
            lemma_sample(g, w as int, mask@.len() as int, 0, j as int);
            lemma_hits(mask@, w as int, g.x1 as int, g.y1 as int, columns as int, j as int);
            assert(columns * j <= 0x4000_0000_0000_0000 * 0x4000_0000_0000_0000) by (nonlinear_arith)
                requires
                    0 <= columns <= 0x4000_0000_0000_0000,
                    0 <= j <= 0x4000_0000_0000_0000,
            ;
        }
        let at: usize = (g.y1 + 4 * j) * w + g.x1;
        let ghost before = hit as int;
        for i in 0..columns
            invariant
                0 < w,
                mask@.len() <= usize::MAX,
                g.x1 < g.x2,
                g.y1 < g.y2,
                j < lines,
                columns == samples(g.width()),
                lines == samples(g.height()),
                (g.y1 + 4 * (samples(g.height()) - 1)) * w + g.x1 + 4 * (samples(g.width()) - 1) < mask@.len(),
                at == (g.y1 + 4 * j) * w + g.x1,
                0 <= before <= 0x4000_0000_0000_0000 * 0x4000_0000_0000_0000,
                hit == before + row_hits(mask@, at as int, i as int),
        {
            proof {
                lemma_sample(g, w as int, mask@.len() as int, i as int, j as int);
                lemma_row_hits(mask@, at as int, i as int);
            }
            if mask[at + 4 * i] == 1 {
                hit = hit + 1;
            }
        }
    }
    let total: u128 = (columns as u128) * (lines as u128);
    Share { hit, total }
}

/// Whether a share is more than so many tenths.
pub open spec fn exceeds(s: Share, tenths: int) -> bool {
    10 * s.hit > tenths * s.total
}

/// Among the first `n` people found, the one whose box is the given one and whose score is best, the last of equals.
pub open spec fn best_match(found: Seq<PersonInstance>, overlaps: Seq<u32>, n: int) -> Option<usize>
    decreases n,
{
    if n <= 0 {
        None
    } else {
        let b = best_match(found, overlaps, n - 1);
        if overlaps[n - 1] > YOLO_MATCH_IOU && (b is None || found[n - 1].score >= found[b->0 as int].score) {
            Some((n - 1) as usize)
        } else {
            b
        }
    }
}

/// Where the mask of a person comes from.
#[derive(Debug, Clone, Copy, PartialEq, Eq, Structural)]
pub enum MaskSource {
    /// The refined mask is trusted.
    Refined,
    /// The mask of this detection stands in for it.
    Detection(usize),
    /// Nothing better than a rectangle is known.
    Rectangle,
}

/// Where the mask of a person comes from: the refined one, if its quality is at least `least`; else that of the
/// best detection with the same box, if it covers more than three tenths of it; else a rectangle.
pub open spec fn source_of(
    quality: u32,
    least: u32,
    found: Seq<PersonInstance>,
    overlaps: Seq<u32>,
    xyxy: [usize; 4],
    w: int,
) -> MaskSource {
    if quality >= least {
        MaskSource::Refined
    } else {
        match best_match(found, overlaps, found.len() as int) {
            Some(i) => if exceeds(share_of(xyxy, found[i as int].mask@, w), 3) {
                MaskSource::Detection(i)
            } else {
                MaskSource::Rectangle
            },
            None => MaskSource::Rectangle,
        }
    }
}

/// Decides where the mask of a person comes from. `overlaps` holds the keys of the overlaps of the person's box
/// with those of the people found.
pub fn choose_source(
    quality: u32,
    least: u32,
    found: &Vec<PersonInstance>,
    overlaps: &Vec<u32>,
    xyxy: [usize; 4],
    w: usize,
) -> (s: MaskSource)
    requires
        overlaps@.len() == found@.len(),
        forall|i: int| 0 <= i < found@.len() ==> samples_fit(xyxy, (#[trigger] found@[i]).mask@.len() as int, w as int),
    ensures
        s == source_of(quality, least, found@, overlaps@, xyxy, w as int),
        s is Detection ==> s->0 < found@.len(),
{
    if quality >= least {
        return MaskSource::Refined;
    }
    let mut best: Option<usize> = None;
    for i in 0..found.len()
        invariant
            overlaps@.len() == found@.len(),
            best == best_match(found@, overlaps@, i as int),
            best is Some ==> best->0 < i,
    {
        if overlaps[i] > YOLO_MATCH_IOU {
            match best {
                None => {
                    best = Some(i);
                },
                Some(b) => {
                    if found[i].score >= found[b].score {
                        best = Some(i);
                    }
                },
            }
        }
    }
    match best {
        Some(i) => {
            let s = box_area_overlap(xyxy, found[i].mask.as_slice(), w);
            if 10 * s.hit > 3 * s.total {
                MaskSource::Detection(i)
            } else {
                MaskSource::Rectangle
            }
        },
        None => MaskSource::Rectangle,
    }
}

/// A person in a frame: the box, with the first two corners rounded down and the others up, and the mask.
pub struct Person {
    pub xyxy: [usize; 4],
    pub mask: Vec<u8>,
}

/// A face in a frame: whether its middle lies in (or just beside) the box of each person, and the part of the frame to
/// cover for it.
pub struct FaceSpot {
    pub inside: Vec<bool>,
    pub cover: Region,
}

/// What a person is.
#[verifier::ext_equal]
pub struct PersonView {
    pub xyxy: [usize; 4],
    pub mask: Seq<u8>,
}

impl View for Person {
    type V = PersonView;

    open spec fn view(&self) -> PersonView {
        PersonView { xyxy: self.xyxy, mask: self.mask@ }
    }
}

/// The people of a list.
pub open spec fn people(s: Seq<Person>) -> Seq<PersonView> {
    s.map_values(|p: Person| p@)
}

/// The first person, from the `from`-th on, to whom a face belongs: its middle lies in the box of the person, of which
/// more than a tenth is masked.
pub open spec fn host(p: Seq<PersonView>, inside: Seq<bool>, w: int, from: int) -> Option<int>
    decreases p.len() - from,
{
    if from >= p.len() {
        None
    } else if inside[from] && exceeds(share_of(p[from].xyxy, p[from].mask, w), 1) {
        Some(from)
    } else {
        host(p, inside, w, from + 1)
    }
}

/// The people after a face has been given to one of them, whose mask then covers it.
pub open spec fn with_face(p: Seq<PersonView>, f: FaceSpot, w: int) -> Seq<PersonView> {
    match host(p, f.inside@, w, 0) {
        Some(i) => p.update(i, PersonView { mask: filled(p[i].mask, w, f.cover, 1), ..p[i] }),
        None => p,
    }
}

/// The people after the first `n` faces have been given to them, one after the other.
pub open spec fn with_faces(p: Seq<PersonView>, f: Seq<FaceSpot>, w: int, n: int) -> Seq<PersonView>
    decreases n,
{
    if n <= 0 {
        p
    } else {
        with_face(with_faces(p, f, w, n - 1), f[n - 1], w)
    }
}

/// Which of the first `n` faces belong to nobody.
pub open spec fn orphans(p: Seq<PersonView>, f: Seq<FaceSpot>, w: int, n: int) -> Seq<usize>
    decreases n,
{
    if n <= 0 {
        Seq::empty()
    } else if host(with_faces(p, f, w, n - 1), f[n - 1].inside@, w, 0) is None {
        orphans(p, f, w, n - 1).push((n - 1) as usize)
    } else {
        orphans(p, f, w, n - 1)
    }
}

/// Whether people and faces are those of a `w` by `h` frame.
pub open spec fn people_ok(p: Seq<PersonView>, w: int, h: int) -> bool {
    forall|i: int| 0 <= i < p.len() ==> (#[trigger] p[i]).mask.len() == w * h && samples_fit(p[i].xyxy, w * h, w)
}

/// Whether faces are those of a `w` by `h` frame with `n` people.
pub open spec fn faces_ok(f: Seq<FaceSpot>, n: int, w: int, h: int) -> bool {
    forall|i: int|
        0 <= i < f.len() ==> (#[trigger] f[i]).inside@.len() == n && f[i].cover.x2 <= w && f[i].cover.y2 <= h
}

fn find_host(p: &Vec<Person>, inside: &Vec<bool>, w: usize, h: usize) -> (r: Option<usize>)
    requires
        people_ok(people(p@), w as int, h as int),
        inside@.len() == p@.len(),
    ensures
        (r is Some) == (host(people(p@), inside@, w as int, 0) is Some),
        r is Some ==> host(people(p@), inside@, w as int, 0) == Some(r->0 as int),
        r is Some ==> r->0 < p@.len(),
{
    let ghost v = people(p@);
    for i in 0..p.len()
        invariant
            v == people(p@),
            people_ok(v, w as int, h as int),
            inside@.len() == p@.len(),
            host(v, inside@, w as int, 0) == host(v, inside@, w as int, i as int),
    {
        assert(v[i as int] == p@[i as int]@);
        if inside[i] {
            let s = box_area_overlap(p[i].xyxy, p[i].mask.as_slice(), w);
            if 10 * s.hit > s.total {
                return Some(i);
            }
        }
    }
    None
}

/// Gives each face to the person it belongs to, whose mask is made to cover it, and returns the faces that belong to
/// nobody.
pub fn place_faces(p: &mut Vec<Person>, f: &Vec<FaceSpot>, w: usize, h: usize) -> (left: Vec<usize>)
    requires
        people_ok(people(old(p)@), w as int, h as int),
        faces_ok(f@, old(p)@.len() as int, w as int, h as int),
    ensures
        people(final(p)@) == with_faces(people(old(p)@), f@, w as int, f@.len() as int),
        left@ == orphans(people(old(p)@), f@, w as int, f@.len() as int),
{
    let ghost v = people(p@);
    let mut left: Vec<usize> = Vec::new();
    for i in 0..f.len()
        invariant
            p@.len() == v.len(),
            people_ok(people(p@), w as int, h as int),
            faces_ok(f@, v.len() as int, w as int, h as int),
            people(p@) == with_faces(v, f@, w as int, i as int),
            left@ == orphans(v, f@, w as int, i as int),
    {
        let ghost before = people(p@);
        match find_host(p, &f[i].inside, w, h) {
            Some(k) => {
                let cover: Region = f[i].cover;
                assert(before[k as int] == p@[k as int]@);
                fill_rect(p[k].mask.as_mut_slice(), w, h, cover, 1);
                assert(people(p@) =~= with_face(before, f@[i as int], w as int));
            },
            None => {
                left.push(i);
            },
        }
    }
    left
}

proof fn lemma_host(p: Seq<PersonView>, inside: Seq<bool>, w: int, from: int)
    requires
        0 <= from <= p.len(),
    ensures
        host(p, inside, w, from) is Some ==> from <= host(p, inside, w, from)->0 < p.len(),
    decreases p.len() - from,
{
    if from < p.len() {
        lemma_host(p, inside, w, from + 1);
    }
}

/// Covering a face never uncovers anything, nor changes anybody's box.
pub proof fn law_faces_only_cover(p: Seq<PersonView>, f: Seq<FaceSpot>, w: int, n: int, i: int, k: int)
    requires
        0 <= n <= f.len(),
        0 <= i < p.len(),
        0 <= k < p[i].mask.len(),
    ensures
        with_faces(p, f, w, n).len() == p.len(),
        with_faces(p, f, w, n)[i].xyxy == p[i].xyxy,
        with_faces(p, f, w, n)[i].mask.len() == p[i].mask.len(),
        p[i].mask[k] != 0 ==> with_faces(p, f, w, n)[i].mask[k] != 0,
    decreases n,
{
    if n > 0 {
        law_faces_only_cover(p, f, w, n - 1, i, k);
        lemma_host(with_faces(p, f, w, n - 1), f[n - 1].inside@, w, 0);
    }
}

/// Which boxes are kept: in their order, exactly those that two detectors hold, or whose common score is at least a tenth, or whose best
/// single score is at least `sure`.
pub proof fn law_believed(list: Seq<FusedKey>, sure: u32, n: int)
    requires
        0 <= n <= usize::MAX,
    ensures
        ({
            let kept = believed_upto(list, sure, n);
            &&& forall|a: int, b: int| 0 <= a < b < kept.len() ==> #[trigger] kept[a] < #[trigger] kept[b]
            &&& forall|a: int| 0 <= a < kept.len() ==> #[trigger] kept[a] < n
            &&& forall|k: int|
                0 <= k < n ==> kept.contains(k as usize) == ((#[trigger] list[k]).votes >= 2 || list[k].score >= 0x3DCC_CCCD || list[k].best
                    >= sure)
        }),
    decreases n,
{
    if n > 0 {
        law_believed(list, sure, n - 1);
        let was = believed_upto(list, sure, n - 1);
        let kept = believed_upto(list, sure, n);
        assert forall|k: int| 0 <= k < n implies kept.contains(k as usize) == ((#[trigger] list[k]).votes >= 2 || list[k].score >= 0x3DCC_CCCD
            || list[k].best >= sure) by {
            if was.contains(k as usize) {
                let i = choose|i: int| 0 <= i < was.len() && was[i] == k as usize;
                assert(kept[i] == k as usize);
            }
            if kept.contains(k as usize) {
                let i = choose|i: int| 0 <= i < kept.len() && kept[i] == k as usize;
                if i < was.len() {
                    assert(was[i] == k as usize);
                }
            }
            if k == n - 1 && believed(list[k], sure) {
                assert(kept[kept.len() - 1] == k as usize);
            }
        }
    }
}

proof fn lemma_row_hits_total(mask: Seq<u8>, at: int, n: int)
    requires
        0 <= n,
    ensures
        row_hits(mask, at, n) == total(
            |i: int|
                if mask[at + 4 * i] == 1 {
                    1int
                } else {
                    0
                },
            n,
        ),
    decreases n,
{
    if n > 0 {
        lemma_row_hits_total(mask, at, n - 1);
    }
}

proof fn lemma_hits_total(mask: Seq<u8>, w: int, x: int, y: int, columns: int, n: int)
    requires
        0 <= columns,
        0 <= n,
    ensures
        hits(mask, w, x, y, columns, n) == total(
            |j: int|
                total(
                    |i: int|
                        if mask[(y + 4 * j) * w + x + 4 * i] == 1 {
                            1int
                        } else {
                            0
                        },
                    columns,
                ),
            n,
        ),
    decreases n,
{
    let f = |j: int|
        total(
            |i: int|
                if mask[(y + 4 * j) * w + x + 4 * i] == 1 {
                    1int
                } else {
                    0
                },
            columns,
        );
    if n > 0 {
        lemma_hits_total(mask, w, x, y, columns, n - 1);
        lemma_row_hits_total(mask, (y + 4 * (n - 1)) * w + x, columns);
        let a = |i: int|
            if mask[(y + 4 * (n - 1)) * w + x + 4 * i] == 1 {
                1int
            } else {
                0
            };
        assert(f(n - 1) == total(a, columns));
    }
}

/// How much of a box a mask covers: of every fourth pixel of every fourth row of the box, how many there are, and how many of them are
/// one.
pub proof fn law_share_counts(xyxy: [usize; 4], mask: Seq<u8>, w: int)
    requires
        samples_fit(xyxy, mask.len() as int, w),
        mask.len() <= usize::MAX,
        xyxy[0] < xyxy[2] <= w <= usize::MAX,
        xyxy[1] < xyxy[3] <= mask.len() as int / w,
    ensures
        ({
            let columns = (xyxy[2] - xyxy[0] + 3) / 4;
            let rows = (xyxy[3] - xyxy[1] + 3) / 4;
            &&& share_of(xyxy, mask, w).total == columns * rows
            &&& share_of(xyxy, mask, w).hit == total(
                |j: int|
                    total(
                        |i: int|
                            if mask[(xyxy[1] + 4 * j) * w + xyxy[0] + 4 * i] == 1 {
                                1int
                            } else {
                                0
                            },
                        columns,
                    ),
                rows,
            )
        }),
{
    let g = measured(xyxy, w, mask.len() as int / w);
    assert(mask.len() as int / w <= mask.len()) by (nonlinear_arith)
        requires
            w > 0,
    ;
    let columns = samples(g.width());
    let lines = samples(g.height());
    lemma_hits_total(mask, w, g.x1 as int, g.y1 as int, columns, lines);
    lemma_hits(mask, w, g.x1 as int, g.y1 as int, columns, lines);
    lemma_shares_fit(columns, lines);
}

proof fn lemma_best_match(found: Seq<PersonInstance>, overlaps: Seq<u32>, n: int)
    requires
        0 <= n <= found.len() <= usize::MAX,
    ensures
        ({
            let b = best_match(found, overlaps, n);
            &&& b is Some ==> b->0 < n && overlaps[b->0 as int] > 0x3F0C_CCCD
            &&& b is Some ==> forall|i: int|
                0 <= i < n && #[trigger] overlaps[i] > 0x3F0C_CCCD ==> found[i].score <= found[b->0 as int].score && (i > b->0
                    ==> found[i].score < found[b->0 as int].score)
            &&& b is None ==> forall|i: int| 0 <= i < n ==> #[trigger] overlaps[i] <= 0x3F0C_CCCD
        }),
    decreases n,
{
    if n > 0 {
        lemma_best_match(found, overlaps, n - 1);
    }
}

/// Where the mask of a person comes from: the refined one, exactly if its quality is good enough; else that of a detection whose box
/// overlaps that of the person by more than 0.55, the one with the best score of these and the last of equals, exactly if there is one
/// and it covers more than three tenths of the box; else a rectangle.
pub proof fn law_source(quality: u32, least: u32, found: Seq<PersonInstance>, overlaps: Seq<u32>, xyxy: [usize; 4], w: int)
    requires
        found.len() <= usize::MAX,
    ensures
        ({
            let s = source_of(quality, least, found, overlaps, xyxy, w);
            &&& s is Refined <==> quality >= least
            &&& s is Detection ==> {
                let d = s->Detection_0 as int;
                &&& d < found.len()
                &&& overlaps[d] > 0x3F0C_CCCD
                &&& 10 * share_of(xyxy, found[d].mask@, w).hit > 3 * share_of(xyxy, found[d].mask@, w).total
                &&& forall|i: int|
                    0 <= i < found.len() && #[trigger] overlaps[i] > 0x3F0C_CCCD ==> found[i].score <= found[d].score && (i > d
                        ==> found[i].score < found[d].score)
            }
            &&& quality < least ==> forall|d: int|
                0 <= d < found.len() && overlaps[d] > 0x3F0C_CCCD && 10 * share_of(xyxy, (#[trigger] found[d]).mask@, w).hit > 3 * share_of(
                    xyxy,
                    found[d].mask@,
                    w,
                ).total && (forall|i: int|
                    0 <= i < found.len() && #[trigger] overlaps[i] > 0x3F0C_CCCD ==> found[i].score <= found[d].score && (i > d
                        ==> found[i].score < found[d].score)) ==> s == MaskSource::Detection(d as usize)
        }),
{
    lemma_best_match(found, overlaps, found.len() as int);
    let s = source_of(quality, least, found, overlaps, xyxy, w);
    let b = best_match(found, overlaps, found.len() as int);
    if quality < least {
        assert forall|d: int|
            0 <= d < found.len() && overlaps[d] > 0x3F0C_CCCD && 10 * share_of(xyxy, (#[trigger] found[d]).mask@, w).hit > 3 * share_of(
                xyxy,
                found[d].mask@,
                w,
            ).total && (forall|i: int|
                0 <= i < found.len() && #[trigger] overlaps[i] > 0x3F0C_CCCD ==> found[i].score <= found[d].score && (i > d
                    ==> found[i].score < found[d].score)) implies s == MaskSource::Detection(d as usize) by {
            assert(b is Some);
            let e = b->0 as int;
            assert(overlaps[e] > 0x3F0C_CCCD && overlaps[d] > 0x3F0C_CCCD);
            assert(e == d);
        }
    }
}

/// To whom a face belongs: to the first person in whose box its middle lies and of whose box more than a tenth is masked; to nobody, if
/// there is no such person.
pub proof fn law_host(p: Seq<PersonView>, inside: Seq<bool>, w: int, i: int)
    requires
        0 <= i < p.len(),
    ensures
        inside[i] && 10 * share_of(p[i].xyxy, p[i].mask, w).hit > share_of(p[i].xyxy, p[i].mask, w).total ==> host(p, inside, w, 0) is Some
            && host(p, inside, w, 0)->0 <= i,
        host(p, inside, w, 0) == Some(i) ==> inside[i] && 10 * share_of(p[i].xyxy, p[i].mask, w).hit > share_of(
            p[i].xyxy,
            p[i].mask,
            w,
        ).total,
        host(p, inside, w, 0) is Some ==> 0 <= host(p, inside, w, 0)->0 < p.len(),
{
    lemma_host(p, inside, w, 0);
    lemma_host_first(p, inside, w, 0, i);
}

proof fn lemma_host_first(p: Seq<PersonView>, inside: Seq<bool>, w: int, from: int, i: int)
    requires
        0 <= from <= i < p.len(),
    ensures
        inside[i] && exceeds(share_of(p[i].xyxy, p[i].mask, w), 1) ==> host(p, inside, w, from) is Some && host(p, inside, w, from)->0 <= i,
        host(p, inside, w, from) == Some(i) ==> inside[i] && exceeds(share_of(p[i].xyxy, p[i].mask, w), 1),
    decreases i - from,
{
    if from < i {
        lemma_host_first(p, inside, w, from + 1, i);
    } else {
        lemma_host(p, inside, w, from + 1);
    }
}

/// What becomes of a face: the mask of the person it belongs to is set where the face is to be covered and stays elsewhere, and nobody
/// else's changes. A face that belongs to nobody changes no mask and is left over; one that belongs to somebody is not.
pub proof fn law_face_is_placed(p: Seq<PersonView>, f: Seq<FaceSpot>, w: int, h: int, n: int, i: int, x: int, y: int)
    requires
        0 <= n < f.len() <= usize::MAX,
        0 <= i < p.len(),
        0 <= x < w,
        0 <= y < h,
        with_faces(p, f, w, n).len() == p.len(),
        with_faces(p, f, w, n)[i].mask.len() == w * h,
    ensures
        ({
            let was = with_faces(p, f, w, n);
            let now = with_faces(p, f, w, n + 1);
            let who = host(was, f[n].inside@, w, 0);
            let c = f[n].cover;
            &&& who == Some(i) && c.x1 <= x < c.x2 && c.y1 <= y < c.y2 ==> now[i].mask[y * w + x] == 1
            &&& who == Some(i) && !(c.x1 <= x < c.x2 && c.y1 <= y < c.y2) ==> now[i].mask[y * w + x] == was[i].mask[y * w + x]
            &&& who != Some(i) ==> now[i] == was[i]
            &&& who is None ==> orphans(p, f, w, n + 1) == orphans(p, f, w, n).push(n as usize)
            &&& who is Some ==> orphans(p, f, w, n + 1) == orphans(p, f, w, n)
        }),
        with_faces(p, f, w, 0) == p,
        orphans(p, f, w, 0) == Seq::<usize>::empty(),
{
    let was = with_faces(p, f, w, n);
    lemma_host(was, f[n].inside@, w, 0);
    if host(was, f[n].inside@, w, 0) == Some(i) {
        crate::compose::law_filled(was[i].mask, w, h, f[n].cover, 1, x, y);
    }
}

} // verus!
