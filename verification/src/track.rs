//! Following people from frame to frame.
//!
//! A tracker keeps one track per person: the box and the mask that were last seen, and for how many frames the
//! person has been missing. A track that is missing is held for a while, fades, and is then given up.
use crate::assign::{associate, grade, graded, lemma_graded, lemma_ranked_ok, matching, sound, table, table_ok, MatchView, Strictness};
use crate::detect::PersonInstance;
use crate::grid::{cell, lemma_cell};
use crate::morph::{beside, dilate3, grown, near_set, whole};
use crate::rank::{ints, rank, ranked};
use vstd::prelude::*;

verus! {

/// The least score of a poor detection: the bits of 0.1.
pub const BYTE_LOW_CONF: u32 = 0x3DCC_CCCD;

/// How a tracker works. The thresholds are the bits of single-precision numbers.
#[derive(Debug, Clone, Copy, PartialEq, Eq, Structural)]
pub struct TrackerOptions {
    /// The least overlap of a good detection with a track.
    pub iou_thr: u32,
    /// The least overlap of a poor detection with a track.
    pub low_iou_thr: u32,
    /// For how many frames a track is held while it is missing.
    pub max_lost: u32,
    /// Whether masks are averaged over time.
    pub ema: bool,
    /// Whether a missing track is also matched by where it was last seen.
    pub ocru: bool,
}

impl Default for TrackerOptions {
    /// Overlaps of 0.3 and 0.5, twelve frames, averaged masks, matching by where a track was last seen.
    fn default() -> (o: TrackerOptions)
        ensures
            o.iou_thr == 0x3E99_999Au32,
            o.low_iou_thr == 0x3F00_0000u32,
            o.max_lost == 12,
            o.ema,
            o.ocru,
    {
        TrackerOptions { iou_thr: 0x3E99_999A, low_iou_thr: 0x3F00_0000, max_lost: 12, ema: true, ocru: true }
    }
}

/// A fraction.
#[derive(Debug, Clone, Copy, PartialEq, Eq, Structural)]
pub struct Fade {
    pub num: u32,
    pub den: u32,
}

/// How far a track that has been missing for `lost` frames has faded: not at all during the first half of the
/// hold, then evenly, up to all the way in its last frame. Holds of less than four frames do not fade.
pub open spec fn faded(lost: int, max_lost: int) -> Fade {
    let start = max_lost / 2;
    if max_lost < 4 || lost <= start {
        Fade { num: 0, den: 1 }
    } else if lost >= max_lost {
        Fade { num: 1, den: 1 }
    } else {
        Fade { num: (lost - start) as u32, den: (max_lost - start) as u32 }
    }
}

/// How far a track that has been missing for `lost` frames has faded.
pub fn fade_progress(lost: u32, max_lost: u32) -> (f: Fade)
    ensures
        f == faded(lost as int, max_lost as int),
        f.num <= f.den,
        0 < f.den,
{
    let start: u32 = max_lost / 2;
    if max_lost < 4 || lost <= start {
        Fade { num: 0, den: 1 }
    } else if lost >= max_lost {
        Fade { num: 1, den: 1 }
    } else {
        Fade { num: lost - start, den: max_lost - start }
    }
}

/// A mask as zeros and ones.
pub open spec fn binary(s: Seq<u8>) -> Seq<u8> {
    s.map_values(
        |v: u8|
            if v == 0 {
                0u8
            } else {
                1u8
            },
    )
}

/// One step of the moving average of a pixel, in units of 1/255: about seven tenths of what is seen now and three
/// tenths of what was.
pub open spec fn blended(was: u8, now: u8) -> u8 {
    (((if now == 0 {
        0int
    } else {
        255
    }) * 179 + was * 77) / 256) as u8
}

/// The moving average of the mask `cur` and those before it.
pub open spec fn averaged(ema: Seq<u8>, cur: Seq<u8>, enabled: bool) -> Seq<u8> {
    if !enabled {
        ema
    } else if ema.len() != cur.len() {
        cur.map_values(
            |v: u8|
                if v == 0 {
                    0u8
                } else {
                    255u8
                },
        )
    } else {
        Seq::new(cur.len(), |k: int| blended(ema[k], cur[k]))
    }
}

/// The mask that an average (or, without averages, the mask seen last) stands for.
pub open spec fn shown(ema: Seq<u8>, cur: Seq<u8>, enabled: bool) -> Seq<u8> {
    if !enabled {
        binary(cur)
    } else {
        ema.map_values(
            |e: u8|
                if e >= 128 {
                    1u8
                } else {
                    0u8
                },
        )
    }
}

/// Takes the mask `cur` into the average, and returns the mask to show.
fn ema_blend(ema: &mut Vec<u8>, cur: &[u8], enabled: bool) -> (out: Vec<u8>)
    ensures
        final(ema)@ == averaged(old(ema)@, cur@, enabled),
        out@ == shown(final(ema)@, cur@, enabled),
{
    let mut out: Vec<u8> = Vec::new();
    if !enabled {
        for k in 0..cur.len()
            invariant
                out@.len() == k,
                forall|j: int| 0 <= j < k ==> out@[j] == binary(cur@)[j],
        {
            let v: u8 = cur[k];
            out.push(if v == 0 { 0 } else { 1 });
        }
        assert(out@ =~= binary(cur@));
        return out;
    }
    let ghost before = ema@;
    let ghost after = averaged(before, cur@, true);
    if ema.len() != cur.len() {
        ema.clear();
        for k in 0..cur.len()
            invariant
                ema@.len() == k,
                after == averaged(before, cur@, true),
                before.len() != cur@.len(),
                forall|j: int| 0 <= j < k ==> ema@[j] == after[j],
        {
            let v: u8 = cur[k];
            ema.push(if v == 0 { 0 } else { 255 });
        }
    } else {
        for k in 0..cur.len()
            invariant
                ema@.len() == cur@.len(),
                before.len() == cur@.len(),
                after == averaged(before, cur@, true),
                forall|j: int| 0 <= j < k ==> ema@[j] == after[j],
                forall|j: int| k <= j < ema@.len() ==> ema@[j] == before[j],
        {
            let now: u32 = if cur[k] == 0 { 0 } else { 255 };
            let was: u32 = ema[k] as u32;
            let next: u8 = ((now * 179 + was * 77) / 256) as u8;
            ema.set(k, next);
        }
    }
    assert(ema@ =~= after);
    for k in 0..ema.len()
        invariant
            ema@ == after,
            out@.len() == k,
            forall|j: int| 0 <= j < k ==> out@[j] == shown(after, cur@, true)[j],
    {
        let e: u8 = ema[k];
        out.push(if e >= 128 { 1 } else { 0 });
    }
    assert(out@ =~= shown(after, cur@, true));
    out
}

/// The mask shown is the mask seen last, as zeros and ones, averaged or not: seven tenths of one pixel decide
/// alone on which side of one half the average lies.
pub proof fn law_shown_is_last_seen(ema: Seq<u8>, cur: Seq<u8>, enabled: bool)
    ensures
        shown(averaged(ema, cur, enabled), cur, enabled) == binary(cur),
{
    assert(shown(averaged(ema, cur, enabled), cur, enabled) =~= binary(cur));
}

/// A person who is followed.
pub struct Track {
    pub id: u64,
    /// The bits of the corners of the box that was last seen.
    pub xyxy: [u32; 4],
    /// The key of the score with which the person was last seen.
    pub score: u32,
    pub mask: Vec<u8>,
    /// For how many frames the person has been missing.
    pub lost: u32,
    /// How far the mask has faded.
    pub fade: Fade,
    /// The moving average of the mask.
    pub ema: Vec<u8>,
}

/// What a track is: its fields as mathematical values.
#[verifier::ext_equal]
pub struct TrackView {
    pub id: int,
    pub xyxy: [u32; 4],
    pub score: u32,
    pub mask: Seq<u8>,
    pub lost: int,
    pub fade: Fade,
    pub ema: Seq<u8>,
}

impl View for Track {
    type V = TrackView;

    open spec fn view(&self) -> TrackView {
        TrackView {
            id: self.id as int,
            xyxy: self.xyxy,
            score: self.score,
            mask: self.mask@,
            lost: self.lost as int,
            fade: self.fade,
            ema: self.ema@,
        }
    }
}

/// The tracks of a list.
pub open spec fn views(s: Seq<Track>) -> Seq<TrackView> {
    s.map_values(|t: Track| t@)
}

impl Track {
    /// By how many pixels the mask of a missing track is grown, where the person may have strayed by `spread`
    /// pixels: at least 6 and at most 24.
    pub fn hold_dilate_px(&self, spread: usize) -> (n: usize)
        ensures
            n == (if spread < 6 {
                6
            } else if spread > 24 {
                24
            } else {
                spread
            }),
    {
        if spread < 6 {
            6
        } else if spread > 24 {
            24
        } else {
            spread
        }
    }
}

/// Whether a box reaches within `margin` pixels of the edge of a `w` by `h` frame. The first two corners are
/// rounded down, the others up.
pub fn near_frame_edge(xyxy: [i64; 4], w: usize, h: usize, margin: u32) -> (near: bool)
    ensures
        near == (xyxy[0] < margin || xyxy[1] < margin || xyxy[2] > w - margin || xyxy[3] > h - margin),
{
    let m: i128 = margin as i128;
    (xyxy[0] as i128) < m || (xyxy[1] as i128) < m || (xyxy[2] as i128) > (w as i128) - m || (xyxy[3] as i128) > (
    h as i128) - m
}

/// A track that was seen again, as `d`.
pub open spec fn seen(t: TrackView, d: PersonInstance, ema: bool) -> TrackView {
    let average = averaged(t.ema, d.mask@, ema);
    TrackView {
        id: t.id,
        xyxy: d.xyxy,
        score: d.score,
        mask: shown(average, d.mask@, ema),
        lost: 0,
        fade: Fade { num: 0, den: 1 },
        ema: average,
    }
}

/// A track that was missed once more.
pub open spec fn missed(t: TrackView, max_lost: int) -> TrackView {
    TrackView { lost: t.lost + 1, fade: faded(t.lost + 1, max_lost), ..t }
}

/// A track that begins with `d`.
pub open spec fn begun(id: int, d: PersonInstance, ema: bool) -> TrackView {
    let none = TrackView {
        id,
        xyxy: d.xyxy,
        score: d.score,
        mask: Seq::empty(),
        lost: 0,
        fade: Fade { num: 0, den: 1 },
        ema: Seq::empty(),
    };
    seen(none, d, ema)
}

/// The scores of detections.
pub open spec fn scores_of(dets: Seq<PersonInstance>) -> Seq<u32> {
    dets.map_values(|d: PersonInstance| d.score)
}

/// The first detection, from the `from`-th on, that has track `t`.
pub open spec fn holder(track_of: Seq<Option<usize>>, t: int, from: int) -> int
    decreases track_of.len() - from,
{
    if from >= track_of.len() || track_of[from] == Some(t as usize) {
        from
    } else {
        holder(track_of, t, from + 1)
    }
}

/// The detections of a list that have no track.
pub open spec fn loose(list: Seq<int>, track_of: Seq<Option<usize>>) -> Seq<int>
    decreases list.len(),
{
    if list.len() == 0 {
        Seq::empty()
    } else if track_of[list.last()] is None {
        loose(list.drop_last(), track_of).push(list.last())
    } else {
        loose(list.drop_last(), track_of)
    }
}

/// The tracks that have not been missing for more than `max_lost` frames.
pub open spec fn held(s: Seq<TrackView>, max_lost: int) -> Seq<TrackView>
    decreases s.len(),
{
    if s.len() == 0 {
        Seq::empty()
    } else if s.last().lost <= max_lost {
        held(s.drop_last(), max_lost).push(s.last())
    } else {
        held(s.drop_last(), max_lost)
    }
}

/// What a tracker holds.
#[verifier::ext_equal]
pub struct TrackerView {
    pub opts: TrackerOptions,
    pub tracks: Seq<TrackView>,
    pub next_id: int,
}

/// What becomes of a track in a frame.
#[derive(Debug, Clone, Copy, PartialEq, Eq, Structural)]
pub enum Fate {
    /// It was seen, as detection `det`, after `missing` frames in which it was not.
    Seen { det: usize, missing: u32 },
    /// It was missed, and is kept or given up.
    Missed { kept: bool },
}

/// What happened in a frame: the fate of each track that there was, and the detections with which new tracks began,
/// in the order of those tracks.
pub struct TrackReport {
    pub fates: Vec<Fate>,
    pub born: Vec<usize>,
}

/// The matching of the tracks of `v` and the detections.
pub open spec fn matched(
    v: TrackerView,
    dets: Seq<PersonInstance>,
    high: u32,
    expected: Seq<Seq<u32>>,
    last: Seq<Seq<u32>>,
) -> MatchView {
    matching(
        v.tracks.len() as int,
        scores_of(dets),
        high,
        expected,
        last,
        Strictness { high: v.opts.iou_thr, low: v.opts.low_iou_thr, rescue: v.opts.ocru },
    )
}

/// The tracks there were, each seen or missed.
pub open spec fn carried(v: TrackerView, dets: Seq<PersonInstance>, m: MatchView) -> Seq<TrackView> {
    Seq::new(
        v.tracks.len(),
        |t: int|
            if m.taken[t] {
                seen(v.tracks[t], dets[holder(m.track_of, t, 0)], v.opts.ema)
            } else {
                missed(v.tracks[t], v.opts.max_lost as int)
            },
    )
}

/// The detections with which new tracks begin: the good ones without a track, best first.
pub open spec fn newcomers(dets: Seq<PersonInstance>, high: u32, m: MatchView) -> Seq<int> {
    loose(graded(ranked(scores_of(dets)), scores_of(dets), high, true), m.track_of)
}

/// The tracks that begin.
pub open spec fn started(v: TrackerView, dets: Seq<PersonInstance>, who: Seq<int>) -> Seq<TrackView> {
    Seq::new(who.len(), |k: int| begun(v.next_id + k, dets[who[k]], v.opts.ema))
}

/// The tracker after a frame.
pub open spec fn advanced(v: TrackerView, dets: Seq<PersonInstance>, high: u32, m: MatchView) -> TrackerView {
    let who = newcomers(dets, high, m);
    TrackerView {
        opts: v.opts,
        tracks: held(carried(v, dets, m) + started(v, dets, who), v.opts.max_lost as int),
        next_id: v.next_id + who.len(),
    }
}

/// The fate of track `t`.
pub open spec fn fate_of(v: TrackerView, m: MatchView, t: int) -> Fate {
    if m.taken[t] {
        Fate::Seen { det: holder(m.track_of, t, 0) as usize, missing: v.tracks[t].lost as u32 }
    } else {
        Fate::Missed { kept: v.tracks[t].lost + 1 <= v.opts.max_lost }
    }
}

/// Follows people from frame to frame.
pub struct IouTracker {
    opts: TrackerOptions,
    tracks: Vec<Track>,
    next_id: u64,
}

impl View for IouTracker {
    type V = TrackerView;

    closed spec fn view(&self) -> TrackerView {
        TrackerView { opts: self.opts, tracks: views(self.tracks@), next_id: self.next_id as int }
    }
}

/// What always holds of a tracker: no track has been missing for too long, and no two tracks have the same number,
/// nor one that is still to be given.
pub open spec fn in_order(v: TrackerView) -> bool {
    &&& forall|t: int| 0 <= t < v.tracks.len() ==> 0 <= (#[trigger] v.tracks[t]).lost <= v.opts.max_lost
    &&& forall|t: int| 0 <= t < v.tracks.len() ==> (#[trigger] v.tracks[t]).id < v.next_id
    &&& forall|t: int, u: int|
        0 <= t < u < v.tracks.len() ==> (#[trigger] v.tracks[t]).id < (#[trigger] v.tracks[u]).id
}

impl Track {
    fn see(&mut self, d: &PersonInstance, ema: bool)
        ensures
            final(self)@ == seen(old(self)@, *d, ema),
    {
        self.mask = ema_blend(&mut self.ema, d.mask.as_slice(), ema);
        self.xyxy = d.xyxy;
        self.score = d.score;
        self.lost = 0;
        self.fade = Fade { num: 0, den: 1 };
    }

    fn miss(&mut self, max_lost: u32)
        requires
            old(self)@.lost < u32::MAX,
        ensures
            final(self)@ == missed(old(self)@, max_lost as int),
    {
        self.lost = self.lost + 1;
        self.fade = fade_progress(self.lost, max_lost);
    }
}

proof fn lemma_holder(track_of: Seq<Option<usize>>, t: int, from: int)
    requires
        0 <= from <= track_of.len(),
    ensures
        from <= holder(track_of, t, from) <= track_of.len(),
        forall|d: int| from <= d < holder(track_of, t, from) ==> track_of[d] != Some(t as usize),
        holder(track_of, t, from) < track_of.len() ==> track_of[holder(track_of, t, from)] == Some(t as usize),
    decreases track_of.len() - from,
{
    if from < track_of.len() && track_of[from] != Some(t as usize) {
        lemma_holder(track_of, t, from + 1);
    }
}

pub proof fn lemma_taken_has_holder(m: MatchView, tracks: int, dets: int, t: int)
    requires
        sound(m, tracks, dets),
        0 <= t < tracks,
        m.taken[t],
    ensures
        0 <= holder(m.track_of, t, 0) < dets,
        m.track_of[holder(m.track_of, t, 0)] == Some(t as usize),
{
    lemma_holder(m.track_of, t, 0);
    let d = choose|d: int| 0 <= d < dets && m.track_of[d] == Some(t as usize);
    assert(m.track_of[d] == Some(t as usize));
}

/// The detection that has track `t`.
fn find_holder(track_of: &Vec<Option<usize>>, t: usize) -> (d: usize)
    ensures
        d == holder(track_of@, t as int, 0),
{
    let mut d: usize = 0;
    while d < track_of.len() && track_of[d] != Some(t)
        invariant
            d <= track_of@.len(),
            holder(track_of@, t as int, 0) == holder(track_of@, t as int, d as int),
        decreases track_of@.len() - d,
    {
        d = d + 1;
    }
    d
}

/// The detections of a list that have no track.
fn find_loose(list: &Vec<usize>, track_of: &Vec<Option<usize>>) -> (out: Vec<usize>)
    requires
        forall|i: int| 0 <= i < list@.len() ==> (#[trigger] list@[i]) < track_of@.len(),
    ensures
        ints(out@) == loose(ints(list@), track_of@),
        forall|i: int| 0 <= i < out@.len() ==> (#[trigger] out@[i]) < track_of@.len(),
        out@.len() <= list@.len(),
{
    let mut out: Vec<usize> = Vec::new();
    let ghost all = ints(list@);
    assert(ints(out@) =~= loose(all.take(0), track_of@));
    for i in 0..list.len()
        invariant
            all == ints(list@),
            forall|i: int| 0 <= i < list@.len() ==> (#[trigger] list@[i]) < track_of@.len(),
            ints(out@) == loose(all.take(i as int), track_of@),
            forall|i: int| 0 <= i < out@.len() ==> (#[trigger] out@[i]) < track_of@.len(),
            out@.len() <= i,
    {
        let d: usize = list[i];
        let ghost before = out@;
        assert(all.take(i + 1).drop_last() =~= all.take(i as int));
        assert(all.take(i + 1).last() == d);
        if track_of[d].is_none() {
            out.push(d);
            assert(ints(out@) =~= ints(before).push(d as int));
        }
    }
    assert(all.take(list@.len() as int) =~= all);
    out
}

proof fn lemma_held_add(a: Seq<TrackView>, b: Seq<TrackView>, max_lost: int)
    ensures
        held(a + b, max_lost) == held(a, max_lost) + held(b, max_lost),
    decreases b.len(),
{
    if b.len() == 0 {
        assert(a + b =~= a);
        assert(held(a, max_lost) + held(b, max_lost) =~= held(a, max_lost));
    } else {
        lemma_held_add(a, b.drop_last(), max_lost);
        assert((a + b).drop_last() =~= a + b.drop_last());
        assert((a + b).last() == b.last());
        assert(held(a + b, max_lost) =~= held(a, max_lost) + held(b, max_lost));
    }
}

proof fn lemma_held_all(s: Seq<TrackView>, max_lost: int)
    requires
        forall|i: int| 0 <= i < s.len() ==> (#[trigger] s[i]).lost <= max_lost,
    ensures
        held(s, max_lost) == s,
    decreases s.len(),
{
    if s.len() > 0 {
        let rest = s.drop_last();
        assert forall|i: int| 0 <= i < rest.len() implies (#[trigger] rest[i]).lost <= max_lost by {
            assert(rest[i] == s[i]);
        }
        lemma_held_all(rest, max_lost);
        assert(s.last() == s[s.len() - 1]);
        assert(rest.push(s.last()) =~= s);
    }
}

proof fn lemma_held_without(s: Seq<TrackView>, i: int, max_lost: int)
    requires
        0 <= i < s.len(),
        s[i].lost > max_lost,
    ensures
        held(s.remove(i), max_lost) == held(s, max_lost),
{
    let a = s.take(i);
    let one = seq![s[i]];
    let b = s.skip(i + 1);
    lemma_held_add(a, one, max_lost);
    lemma_held_add(a + one, b, max_lost);
    lemma_held_add(a, b, max_lost);
    assert(one.last() == s[i]);
    assert(one.drop_last() =~= Seq::empty());
    reveal_with_fuel(held, 2);
    assert(held(one, max_lost) =~= Seq::empty());
    assert(a + one + b =~= s);
    assert(a + b =~= s.remove(i));
    assert(held(a, max_lost) + Seq::<TrackView>::empty() =~= held(a, max_lost));
}

proof fn lemma_held_in_order(s: Seq<TrackView>, max_lost: int)
    requires
        forall|t: int, u: int| 0 <= t < u < s.len() ==> (#[trigger] s[t]).id < (#[trigger] s[u]).id,
    ensures
        forall|t: int| 0 <= t < held(s, max_lost).len() ==> (#[trigger] held(s, max_lost)[t]).lost <= max_lost,
        forall|t: int| 0 <= t < held(s, max_lost).len() ==> s.contains(#[trigger] held(s, max_lost)[t]),
        forall|t: int, u: int|
            0 <= t < u < held(s, max_lost).len() ==> (#[trigger] held(s, max_lost)[t]).id < (#[trigger] held(
                s,
                max_lost,
            )[u]).id,
    decreases s.len(),
{
    let h = held(s, max_lost);
    if s.len() > 0 {
        let rest = s.drop_last();
        let g = held(rest, max_lost);
        assert forall|t: int, u: int| 0 <= t < u < rest.len() implies (#[trigger] rest[t]).id < (
        #[trigger] rest[u]).id by {
            assert(s[t].id < s[u].id);
        }
        lemma_held_in_order(rest, max_lost);
        let last = s.len() - 1;
        assert(s.contains(s[last]));
        assert forall|t: int| 0 <= t < g.len() implies s.contains(#[trigger] g[t]) && g[t].id < s[last].id by {
            assert(rest.contains(g[t]));
            let k = choose|k: int| 0 <= k < rest.len() && rest[k] == g[t];
            assert(s[k] == g[t]);
            assert(s[k].id < s[last].id);
        }
        assert forall|t: int| 0 <= t < h.len() implies (#[trigger] h[t]).lost <= max_lost && s.contains(h[t]) by {
            if t < g.len() {
                assert(h[t] == g[t]);
            }
        }
        assert forall|t: int, u: int| 0 <= t < u < h.len() implies (#[trigger] h[t]).id < (#[trigger] h[u]).id by {
            assert(h[t] == g[t]);
            if u < g.len() {
                assert(h[u] == g[u]);
            }
        }
    }
}

/// What holds of a tracker holds of it after a frame.
pub proof fn law_stays_in_order(v: TrackerView, dets: Seq<PersonInstance>, high: u32, m: MatchView)
    requires
        in_order(v),
    ensures
        in_order(advanced(v, dets, high, m)),
{
    let who = newcomers(dets, high, m);
    let all = carried(v, dets, m) + started(v, dets, who);
    let n = v.tracks.len() as int;
    assert forall|t: int| 0 <= t < all.len() implies 0 <= (#[trigger] all[t]).lost && all[t].id < v.next_id + who.len()
        && (t < n ==> all[t].id == v.tracks[t].id) && (t >= n ==> all[t].id == v.next_id + (t - n)) by {
        if t < n {
            assert(v.tracks[t].id < v.next_id);
        }
    }
    assert forall|t: int, u: int| 0 <= t < u < all.len() implies (#[trigger] all[t]).id < (#[trigger] all[u]).id by {
        if u < n {
            assert(v.tracks[t].id < v.tracks[u].id);
        } else if t < n {
            assert(v.tracks[t].id < v.next_id);
        }
    }
    lemma_held_in_order(all, v.opts.max_lost as int);
    let h = held(all, v.opts.max_lost as int);
    assert forall|t: int| 0 <= t < h.len() implies 0 <= (#[trigger] h[t]).lost && h[t].id < v.next_id + who.len() by {
        assert(all.contains(h[t]));
    }
}

proof fn lemma_loose(list: Seq<int>, track_of: Seq<Option<usize>>)
    ensures
        forall|i: int|
            0 <= i < loose(list, track_of).len() ==> list.contains(#[trigger] loose(list, track_of)[i])
                && track_of[loose(list, track_of)[i]] is None,
    decreases list.len(),
{
    let l = loose(list, track_of);
    if list.len() > 0 {
        let rest = list.drop_last();
        let r = loose(rest, track_of);
        lemma_loose(rest, track_of);
        assert forall|i: int| 0 <= i < l.len() implies list.contains(#[trigger] l[i]) && track_of[l[i]] is None by {
            if i < r.len() {
                assert(l[i] == r[i]);
                let k = choose|k: int| 0 <= k < rest.len() && rest[k] == r[i];
                assert(list[k] == r[i]);
            } else {
                assert(list[list.len() - 1] == l[i]);
            }
        }
    }
}

proof fn lemma_graded_good(list: Seq<int>, scores: Seq<u32>, high: u32)
    ensures
        forall|i: int|
            0 <= i < graded(list, scores, high, true).len() ==> scores[#[trigger] graded(list, scores, high, true)[i]]
                >= high,
    decreases list.len(),
{
    if list.len() > 0 {
        let g = graded(list, scores, high, true);
        let h = graded(list.drop_last(), scores, high, true);
        lemma_graded_good(list.drop_last(), scores, high);
        assert forall|i: int| 0 <= i < g.len() implies scores[#[trigger] g[i]] >= high by {
            if i < h.len() {
                assert(g[i] == h[i]);
            } else {
                assert(g[i] == list.last());
            }
        }
    }
}

/// New tracks begin with detections.
pub proof fn lemma_newcomers_bound(dets: Seq<PersonInstance>, high: u32, m: MatchView)
    ensures
        forall|k: int| 0 <= k < newcomers(dets, high, m).len() ==> 0 <= #[trigger] newcomers(dets, high, m)[k] < dets.len(),
{
    let scores = scores_of(dets);
    let good = graded(ranked(scores), scores, high, true);
    lemma_ranked_ok(scores);
    lemma_graded(ranked(scores), scores, high, true);
    lemma_loose(good, m.track_of);
    let who = newcomers(dets, high, m);
    assert forall|k: int| 0 <= k < who.len() implies 0 <= #[trigger] who[k] < dets.len() by {
        assert(good.contains(who[k]));
        let i = choose|i: int| 0 <= i < good.len() && good[i] == who[k];
        assert(0 <= good[i] < scores.len());
    }
}

/// No track begins with a poor detection.
pub proof fn law_poor_detection_begins_no_track(dets: Seq<PersonInstance>, high: u32, m: MatchView, k: int)
    requires
        0 <= k < newcomers(dets, high, m).len(),
    ensures
        scores_of(dets)[newcomers(dets, high, m)[k]] >= high,
        m.track_of[newcomers(dets, high, m)[k]] is None,
{
    let good = graded(ranked(scores_of(dets)), scores_of(dets), high, true);
    lemma_loose(good, m.track_of);
    lemma_graded_good(ranked(scores_of(dets)), scores_of(dets), high);
    let d = newcomers(dets, high, m)[k];
    let i = choose|i: int| 0 <= i < good.len() && good[i] == d;
    assert(good[i] == d);
}

/// A track that is seen again is as good as new: it has not been missing, and it has not faded.
pub proof fn law_seen_again(t: TrackView, d: PersonInstance, ema: bool)
    ensures
        seen(t, d, ema).lost == 0,
        seen(t, d, ema).fade.num == 0,
        seen(t, d, ema).id == t.id,
        seen(t, d, ema).mask == binary(d.mask@),
{
    law_shown_is_last_seen(t.ema, d.mask@, ema);
}

/// A track that is missed keeps its box and its mask, and is kept for exactly `max_lost` frames.
pub proof fn law_missed(v: TrackerView, t: int)
    requires
        in_order(v),
        0 <= t < v.tracks.len(),
    ensures
        missed(v.tracks[t], v.opts.max_lost as int).mask == v.tracks[t].mask,
        missed(v.tracks[t], v.opts.max_lost as int).xyxy == v.tracks[t].xyxy,
        missed(v.tracks[t], v.opts.max_lost as int).lost <= v.opts.max_lost <==> v.tracks[t].lost < v.opts.max_lost,
{
}

proof fn lemma_held_keeps(s: Seq<TrackView>, max_lost: int, t: int)
    requires
        0 <= t < s.len(),
        s[t].lost <= max_lost,
    ensures
        held(s, max_lost).contains(s[t]),
    decreases s.len(),
{
    let h = held(s, max_lost);
    if t < s.len() - 1 {
        let r = held(s.drop_last(), max_lost);
        lemma_held_keeps(s.drop_last(), max_lost, t);
        let k = choose|k: int| 0 <= k < r.len() && r[k] == s[t];
        assert(h[k] == s[t]);
    } else {
        assert(h.last() == s[t]);
    }
}

/// A track that is seen goes on as it is seen; one that is missed goes on as it was, until it has been missing for
/// `max_lost` frames, and then there is no track with its number any more.
pub proof fn law_track_goes_on(v: TrackerView, dets: Seq<PersonInstance>, high: u32, m: MatchView, t: int)
    requires
        in_order(v),
        0 <= t < v.tracks.len(),
    ensures
        m.taken[t] ==> advanced(v, dets, high, m).tracks.contains(
            seen(v.tracks[t], dets[holder(m.track_of, t, 0)], v.opts.ema),
        ),
        !m.taken[t] && v.tracks[t].lost < v.opts.max_lost ==> advanced(v, dets, high, m).tracks.contains(
            missed(v.tracks[t], v.opts.max_lost as int),
        ),
        !m.taken[t] && v.tracks[t].lost >= v.opts.max_lost ==> forall|u: int|
            0 <= u < advanced(v, dets, high, m).tracks.len() ==> (#[trigger] advanced(v, dets, high, m).tracks[u]).id
                != v.tracks[t].id,
{
    let who = newcomers(dets, high, m);
    let all = carried(v, dets, m) + started(v, dets, who);
    let n = v.tracks.len() as int;
    let max = v.opts.max_lost as int;
    let now = held(all, max);
    assert(all[t] == carried(v, dets, m)[t]);
    if all[t].lost <= max {
        lemma_held_keeps(all, max, t);
    } else {
        lemma_held_in_order(all, max);
        assert forall|u: int| 0 <= u < now.len() implies (#[trigger] now[u]).id != v.tracks[t].id by {
            assert(all.contains(now[u]));
            let k = choose|k: int| 0 <= k < all.len() && all[k] == now[u];
            if k < n {
                assert(all[k].id == v.tracks[k].id);
                if k < t {
                    assert(v.tracks[k].id < v.tracks[t].id);
                } else if t < k {
                    assert(v.tracks[t].id < v.tracks[k].id);
                }
            } else {
                assert(all[k].id == v.next_id + (k - n));
                assert(v.tracks[t].id < v.next_id);
            }
        }
    }
}

/// Whether `now` goes on from track `t` of `v`: it has its number, and it has been missing for no frame, if it was seen,
/// or else for one frame more.
pub open spec fn goes_on(v: TrackerView, m: MatchView, t: int, now: TrackView) -> bool {
    &&& 0 <= t < v.tracks.len()
    &&& now.id == v.tracks[t].id
    &&& now.lost == if m.taken[t] {
        0
    } else {
        v.tracks[t].lost + 1
    }
}

/// Whether `now` begins with detection `d`: a good one that no track has, under a number that no track has had.
pub open spec fn begins(v: TrackerView, dets: Seq<PersonInstance>, high: u32, m: MatchView, d: int, now: TrackView) -> bool {
    &&& 0 <= d < dets.len()
    &&& dets[d].score >= high
    &&& m.track_of[d] is None
    &&& now.id >= v.next_id
    &&& now == begun(now.id, dets[d], v.opts.ema)
}

/// Every track after a frame goes on from a track that there was, or begins with a good detection under a new number.
pub proof fn law_every_track_has_a_source(v: TrackerView, dets: Seq<PersonInstance>, high: u32, m: MatchView, u: int)
    requires
        in_order(v),
        0 <= u < advanced(v, dets, high, m).tracks.len(),
    ensures
        ({
            let now = advanced(v, dets, high, m).tracks[u];
            &&& (exists|t: int| goes_on(v, m, t, now)) || (exists|d: int| begins(v, dets, high, m, d, now))
            &&& (exists|t: int| goes_on(v, m, t, now)) <==> now.id < v.next_id
            &&& 0 <= now.lost <= v.opts.max_lost
            &&& now.id < advanced(v, dets, high, m).next_id
        }),
{
    let who = newcomers(dets, high, m);
    let all = carried(v, dets, m) + started(v, dets, who);
    let n = v.tracks.len() as int;
    let max = v.opts.max_lost as int;
    let now = held(all, max)[u];
    law_stays_in_order(v, dets, high, m);
    assert forall|a: int, b: int| 0 <= a < b < all.len() implies (#[trigger] all[a]).id < (#[trigger] all[b]).id by {
        if b < n {
            assert(v.tracks[a].id < v.tracks[b].id);
        } else if a < n {
            assert(v.tracks[a].id < v.next_id);
        }
    }
    lemma_held_in_order(all, max);
    assert(all.contains(now));
    let k = choose|k: int| 0 <= k < all.len() && all[k] == now;
    assert(advanced(v, dets, high, m).tracks[u].lost <= max);
    if k < n {
        assert(v.tracks[k].id < v.next_id);
        assert(v.tracks[k].lost >= 0);
        assert(goes_on(v, m, k, now));
    } else {
        lemma_newcomers_bound(dets, high, m);
        law_poor_detection_begins_no_track(dets, high, m, k - n);
        assert(now == begun(v.next_id + (k - n), dets[who[k - n]], v.opts.ema));
        assert(begins(v, dets, high, m, who[k - n], now));
        assert forall|t: int| !goes_on(v, m, t, now) by {
            if 0 <= t < n {
                assert(v.tracks[t].id < v.next_id);
            }
        }
    }
}

/// The fade of a track never goes back while it is missing, stays between nothing and all, and in the last frame of
/// a hold that fades it is all.
pub proof fn law_fade(lost: int, max_lost: int)
    requires
        0 <= lost < max_lost <= u32::MAX,
    ensures
        ({
            let now = faded(lost, max_lost);
            let next = faded(lost + 1, max_lost);
            &&& now.num <= now.den
            &&& now.num * next.den <= next.num * now.den
            &&& max_lost >= 4 && lost + 1 == max_lost ==> next.num == next.den
        }),
{
    let now = faded(lost, max_lost);
    let next = faded(lost + 1, max_lost);
    if max_lost >= 4 && lost > max_lost / 2 && lost + 1 < max_lost {
        assert(now.den == next.den && now.num + 1 == next.num);
        assert(now.num * next.den <= next.num * now.den) by (nonlinear_arith)
            requires
                now.den == next.den,
                now.num + 1 == next.num,
                now.den >= 0,
        ;
    } else if now.num == 0 {
        assert(now.num * next.den <= next.num * now.den) by (nonlinear_arith)
            requires
                now.num == 0,
                now.den >= 0,
                next.num >= 0,
        ;
    }
}

impl IouTracker {
    /// What always holds of a tracker.
    pub open spec fn wf(&self) -> bool {
        in_order(self@)
    }

    /// A tracker without tracks.
    pub fn new(opts: TrackerOptions) -> (r: IouTracker)
        ensures
            r@ == (TrackerView { opts, tracks: Seq::empty(), next_id: 0 }),
            r.wf(),
    {
        let r = IouTracker { opts, tracks: Vec::new(), next_id: 0 };
        assert(r@.tracks =~= Seq::<TrackView>::empty());
        r
    }

    /// The tracks can be counted.
    pub proof fn lemma_len(&self)
        ensures
            self@.tracks.len() <= usize::MAX,
    {
        assert(self.tracks.len() == self.tracks@.len());
    }

    /// How many tracks there are.
    pub fn len(&self) -> (n: usize)
        ensures
            n == self@.tracks.len(),
    {
        self.tracks.len()
    }

    /// Whether there are no tracks.
    pub fn is_empty(&self) -> (b: bool)
        ensures
            b == (self@.tracks.len() == 0),
    {
        self.tracks.len() == 0
    }

    /// The tracks, those that are missing and still held among them.
    pub fn tracks(&self) -> (t: &Vec<Track>)
        ensures
            views(t@) == self@.tracks,
    {
        &self.tracks
    }

    /// Gives up the tracks that have been missing for too long.
    fn give_up(&mut self)
        ensures
            final(self)@ == (TrackerView {
                tracks: held(old(self)@.tracks, old(self)@.opts.max_lost as int),
                ..old(self)@
            }),
    {
        let ghost start = self@;
        let ghost max = start.opts.max_lost as int;
        let mut i: usize = 0;
        while i < self.tracks.len()
            invariant
                i <= self.tracks@.len(),
                max == start.opts.max_lost,
                self.opts == start.opts,
                self.next_id == start.next_id,
                held(self@.tracks, max) == held(start.tracks, max),
                forall|j: int| 0 <= j < i ==> (#[trigger] self@.tracks[j]).lost <= max,
            decreases self.tracks@.len() - i,
        {
            assert(self@.tracks[i as int] == self.tracks@[i as int]@);
            if self.tracks[i].lost > self.opts.max_lost {
                let ghost before = self@.tracks;
                let _ = self.tracks.remove(i);
                proof {
                    assert(self@.tracks =~= before.remove(i as int));
                    lemma_held_without(before, i as int, max);
                }
            } else {
                i = i + 1;
            }
        }
        proof {
            lemma_held_all(self@.tracks, max);
        }
    }

    /// Takes in the detections of a frame. `high_conf` is the key of the least score of a good detection;
    /// `expected` holds the overlaps of each track, where it is expected in this frame, with each detection, and
    /// `last` those where the track was last seen.
    pub fn update_with_motion(
        &mut self,
        dets: &Vec<PersonInstance>,
        high_conf: u32,
        expected: &Vec<Vec<u32>>,
        last: &Vec<Vec<u32>>,
    ) -> (report: TrackReport)
        requires
            old(self).wf(),
            old(self)@.next_id + dets@.len() <= u64::MAX,
            forall|t: int| 0 <= t < old(self)@.tracks.len() ==> (#[trigger] old(self)@.tracks[t]).lost < u32::MAX,
            table_ok(expected@, old(self)@.tracks.len() as int, dets@.len() as int),
            old(self)@.opts.ocru ==> table_ok(last@, old(self)@.tracks.len() as int, dets@.len() as int),
        ensures
            final(self).wf(),
            ({
                let m = matched(old(self)@, dets@, high_conf, table(expected@), table(last@));
                &&& final(self)@ == advanced(old(self)@, dets@, high_conf, m)
                &&& report.fates@ == Seq::new(
                    old(self)@.tracks.len(),
                    |t: int| fate_of(old(self)@, m, t),
                )
                &&& ints(report.born@) == newcomers(dets@, high_conf, m)
            }),
    {
        let ghost v = self@;
        let n: usize = self.tracks.len();
        let mut scores: Vec<u32> = Vec::new();
        for d in 0..dets.len()
            invariant
                scores@ == scores_of(dets@).take(d as int),
        {
            scores.push(dets[d].score);
            assert(scores@ =~= scores_of(dets@).take(d + 1));
        }
        assert(scores@ =~= scores_of(dets@));
        let k = Strictness { high: self.opts.iou_thr, low: self.opts.low_iou_thr, rescue: self.opts.ocru };
        let m = associate(n, scores.as_slice(), high_conf, expected, last, k);
        let order = rank(scores.as_slice());
        let good = grade(&order, scores.as_slice(), high_conf, true);
        let born = find_loose(&good, &m.track_of);
        let ghost next = carried(v, dets@, m@);
        let mut fates: Vec<Fate> = Vec::new();
        for t in 0..n
            invariant
                n == v.tracks.len(),
                self.tracks@.len() == n,
                self.opts == v.opts,
                self.next_id == v.next_id,
                sound(m@, n as int, dets@.len() as int),
                next == carried(v, dets@, m@),
                forall|t: int| 0 <= t < v.tracks.len() ==> (#[trigger] v.tracks[t]).lost < u32::MAX,
                forall|j: int| 0 <= j < t ==> (#[trigger] self.tracks@[j])@ == next[j],
                forall|j: int| t <= j < n ==> (#[trigger] self.tracks@[j])@ == v.tracks[j],
                fates@ == Seq::new(t as nat, |t: int| fate_of(v, m@, t)),
        {
            assert(self.tracks@[t as int]@ == v.tracks[t as int]);
            if m.taken[t] {
                proof {
                    lemma_taken_has_holder(m@, n as int, dets@.len() as int, t as int);
                }
                let d: usize = find_holder(&m.track_of, t);
                let missing: u32 = self.tracks[t].lost;
                let ema: bool = self.opts.ema;
                self.tracks[t].see(&dets[d], ema);
                fates.push(Fate::Seen { det: d, missing });
            } else {
                let max_lost: u32 = self.opts.max_lost;
                self.tracks[t].miss(max_lost);
                fates.push(Fate::Missed { kept: self.tracks[t].lost <= max_lost });
            }
            assert(fates@ =~= Seq::new((t + 1) as nat, |t: int| fate_of(v, m@, t)));
        }
        assert(self@.tracks =~= next);
        let ghost who = newcomers(dets@, high_conf, m@);
        let ghost fresh = started(v, dets@, who);
        assert(self@.tracks =~= next + fresh.take(0));
        for i in 0..born.len()
            invariant
                ints(born@) == who,
                born@.len() <= dets@.len(),
                forall|i: int| 0 <= i < born@.len() ==> (#[trigger] born@[i]) < dets@.len(),
                fresh == started(v, dets@, who),
                self.opts == v.opts,
                v.next_id + dets@.len() <= u64::MAX,
                self.next_id == v.next_id + i,
                self@.tracks == next + fresh.take(i as int),
        {
            let d: usize = born[i];
            assert(who[i as int] == d);
            let mut t = Track {
                id: self.next_id,
                xyxy: dets[d].xyxy,
                score: dets[d].score,
                mask: Vec::new(),
                lost: 0,
                fade: Fade { num: 0, den: 1 },
                ema: Vec::new(),
            };
            assert(t@.mask =~= Seq::<u8>::empty());
            assert(t@.ema =~= Seq::<u8>::empty());
            t.see(&dets[d], self.opts.ema);
            assert(t@ == fresh[i as int]);
            let ghost before = self@.tracks;
            self.tracks.push(t);
            self.next_id = self.next_id + 1;
            assert(self@.tracks =~= before.push(fresh[i as int]));
            assert(fresh.take(i + 1) =~= fresh.take(i as int).push(fresh[i as int]));
            assert(self@.tracks =~= next + fresh.take(i + 1));
        }
        assert(fresh.take(born@.len() as int) =~= fresh);
        self.give_up();
        proof {
            law_stays_in_order(v, dets@, high_conf, m@);
        }
        TrackReport { fates, born }
    }

    /// Takes in the detections of a frame where the tracks are expected to be where they were last seen.
    pub fn update(&mut self, dets: &Vec<PersonInstance>, high_conf: u32, overlaps: &Vec<Vec<u32>>) -> (report: TrackReport)
        requires
            old(self).wf(),
            old(self)@.next_id + dets@.len() <= u64::MAX,
            forall|t: int| 0 <= t < old(self)@.tracks.len() ==> (#[trigger] old(self)@.tracks[t]).lost < u32::MAX,
            table_ok(overlaps@, old(self)@.tracks.len() as int, dets@.len() as int),
        ensures
            final(self).wf(),
            ({
                let m = matched(old(self)@, dets@, high_conf, table(overlaps@), table(overlaps@));
                &&& final(self)@ == advanced(old(self)@, dets@, high_conf, m)
                &&& report.fates@ == Seq::new(
                    old(self)@.tracks.len(),
                    |t: int| fate_of(old(self)@, m, t),
                )
                &&& ints(report.born@) == newcomers(dets@, high_conf, m)
            }),
    {
        self.update_with_motion(dets, high_conf, overlaps, overlaps)
    }
}

/// Two masks put together, as far as the second reaches.
pub open spec fn union(a: Seq<u8>, b: Seq<u8>) -> Seq<u8> {
    Seq::new(
        a.len(),
        |k: int|
            if k < b.len() {
                a[k] | b[k]
            } else {
                a[k]
            },
    )
}

/// Puts two masks together.
pub fn unite(a: &mut [u8], b: &[u8])
    ensures
        final(a)@ == union(old(a)@, b@),
{
    let ghost start = a@;
    let n: usize = if a.len() < b.len() { a.len() } else { b.len() };
    for k in 0..n
        invariant
            n <= a@.len(),
            n <= b@.len(),
            n == a@.len() || n == b@.len(),
            a@.len() == start.len(),
            forall|j: int| 0 <= j < k ==> a@[j] == union(start, b@)[j],
            forall|j: int| k <= j < a@.len() ==> a@[j] == start[j],
    {
        a[k] = a[k] | b[k];
    }
    assert(a@ =~= union(start, b@));
}

/// Keeps masks from flickering: each frame's mask is put together with that of the frame before, grown by a pixel.
pub struct MaskSmoother {
    prev: Option<Vec<u8>>,
}

impl View for MaskSmoother {
    type V = Option<Seq<u8>>;

    /// The mask of the frame before, as it came in.
    closed spec fn view(&self) -> Option<Seq<u8>> {
        match self.prev {
            Some(p) => Some(p@),
            None => None,
        }
    }
}

/// The mask of a frame, put together with that of the frame before.
pub open spec fn smoothed(prev: Option<Seq<u8>>, cur: Seq<u8>, w: int, h: int) -> Seq<u8> {
    match prev {
        Some(p) => union(cur, grown(p, w, h, whole(w, h))),
        None => cur,
    }
}

impl MaskSmoother {
    /// A smoother that has seen no frame.
    pub fn new() -> (s: MaskSmoother)
        ensures
            s@ is None,
    {
        MaskSmoother { prev: None }
    }

    /// Smooths the mask of a `w` by `h` frame in place, and keeps it as it came in for the next frame.
    pub fn apply(&mut self, cur: &mut [u8], w: usize, h: usize)
        requires
            old(self)@ is Some ==> w * h <= old(self)@->0.len(),
        ensures
            final(cur)@ == smoothed(old(self)@, old(cur)@, w as int, h as int),
            final(self)@ == Some(old(cur)@),
    {
        let raw = vstd::slice::slice_to_vec(cur);
        let prev = self.prev.take();
        match prev {
            Some(mut p) => {
                dilate3(p.as_mut_slice(), w, h);
                unite(cur, p.as_slice());
            },
            None => {},
        }
        self.prev = Some(raw);
    }
}

impl Default for MaskSmoother {
    fn default() -> (s: MaskSmoother)
        ensures
            s@ is None,
    {
        MaskSmoother::new()
    }
}

/// A pixel that is clear in a frame, and that neither was set in the frame before nor lay beside one that was, comes
/// out clear, whatever older frames held.
pub proof fn law_smoothing_forgets(prev: Seq<u8>, cur: Seq<u8>, w: int, h: int, x: int, y: int)
    requires
        0 <= x < w,
        0 <= y < h,
        w * h <= cur.len(),
        w * h <= prev.len(),
        cur[cell(w, x, y)] == 0,
        !near_set(prev, w, h, x, y),
    ensures
        smoothed(Some(prev), cur, w, h)[cell(w, x, y)] == 0,
{
    let k = cell(w, x, y);
    lemma_cell(w, h, x, y);
    assert(beside(w, h, x, y, x, y));
    assert(prev[cell(w, x, y)] == 0);
    let p = grown(prev, w, h, whole(w, h));
    assert(p[k] == 0);
    assert(0u8 | 0u8 == 0u8) by (bit_vector);
}

/// Smoothing never clears a pixel.
pub proof fn law_smoothing_keeps(prev: Option<Seq<u8>>, cur: Seq<u8>, w: int, h: int, k: int)
    requires
        0 <= k < cur.len(),
        cur[k] != 0,
    ensures
        smoothed(prev, cur, w, h)[k] != 0,
{
    if prev is Some {
        let p = grown(prev->0, w, h, whole(w, h));
        if k < p.len() {
            let (x, y) = (cur[k], p[k]);
            assert(x != 0 ==> x | y != 0) by (bit_vector);
        }
    }
}

proof fn lemma_binary(t: TrackView, d: PersonInstance, ema: bool)
    ensures
        seen(t, d, ema).mask.len() == d.mask@.len(),
        forall|k: int|
            0 <= k < d.mask@.len() ==> #[trigger] seen(t, d, ema).mask[k] == (if d.mask@[k] == 0 {
                0u8
            } else {
                1u8
            }),
{
    law_seen_again(t, d, ema);
}

/// A track that is matched to a detection takes over all that was seen: the four corners of the box, the score, and the mask as
/// zeros and ones; it keeps its number, and it is neither missing nor faded.
pub proof fn law_matched_track_is_what_was_seen(v: TrackerView, dets: Seq<PersonInstance>, high: u32, m: MatchView, d: int) -> (u: int)
    requires
        in_order(v),
        v.tracks.len() <= usize::MAX,
        sound(m, v.tracks.len() as int, dets.len() as int),
        0 <= d < dets.len(),
        m.track_of[d] is Some,
    ensures
        0 <= u < advanced(v, dets, high, m).tracks.len(),
        ({
            let was = v.tracks[m.track_of[d]->0 as int];
            let now = advanced(v, dets, high, m).tracks[u];
            &&& now.id == was.id
            &&& now.xyxy[0] == dets[d].xyxy[0]
            &&& now.xyxy[1] == dets[d].xyxy[1]
            &&& now.xyxy[2] == dets[d].xyxy[2]
            &&& now.xyxy[3] == dets[d].xyxy[3]
            &&& now.score == dets[d].score
            &&& now.lost == 0
            &&& now.fade.num == 0
            &&& now.fade.den > 0
            &&& now.mask.len() == dets[d].mask@.len()
            &&& forall|k: int|
                0 <= k < now.mask.len() ==> #[trigger] now.mask[k] == (if dets[d].mask@[k] == 0 {
                    0u8
                } else {
                    1u8
                })
        }),
{
    let t = m.track_of[d]->0 as int;
    assert(m.taken[t]);
    lemma_taken_has_holder(m, v.tracks.len() as int, dets.len() as int, t);
    let e = holder(m.track_of, t, 0);
    assert(e == d) by {
        if e < d {
            assert(m.track_of[e] != m.track_of[d]);
        } else if d < e {
            assert(m.track_of[d] != m.track_of[e]);
        }
    }
    law_track_goes_on(v, dets, high, m, t);
    let s = seen(v.tracks[t], dets[d], v.opts.ema);
    lemma_binary(v.tracks[t], dets[d], v.opts.ema);
    let now = advanced(v, dets, high, m).tracks;
    choose|u: int| 0 <= u < now.len() && now[u] == s
}

/// A track that no detection has is missing for one frame more, and is held as it was: the box, the score and the mask stay. It
/// fades not at all in the first half of the hold, and then in even steps, up to all in the last frame.
pub proof fn law_missing_track_is_held(v: TrackerView, dets: Seq<PersonInstance>, high: u32, m: MatchView, t: int) -> (u: int)
    requires
        in_order(v),
        0 <= t < v.tracks.len(),
        !m.taken[t],
        v.tracks[t].lost < v.opts.max_lost,
    ensures
        0 <= u < advanced(v, dets, high, m).tracks.len(),
        ({
            let was = v.tracks[t];
            let now = advanced(v, dets, high, m).tracks[u];
            let half = v.opts.max_lost as int / 2;
            &&& now.id == was.id
            &&& now.xyxy[0] == was.xyxy[0]
            &&& now.xyxy[1] == was.xyxy[1]
            &&& now.xyxy[2] == was.xyxy[2]
            &&& now.xyxy[3] == was.xyxy[3]
            &&& now.score == was.score
            &&& now.mask == was.mask
            &&& now.ema == was.ema
            &&& now.lost == was.lost + 1
            &&& now.fade.den > 0
            &&& v.opts.max_lost < 4 || now.lost <= half ==> now.fade.num == 0
            &&& v.opts.max_lost >= 4 && now.lost > half ==> now.fade.num * (v.opts.max_lost - half) == (now.lost - half) * now.fade.den
        }),
{
    law_track_goes_on(v, dets, high, m, t);
    let max = v.opts.max_lost as int;
    let s = missed(v.tracks[t], max);
    let half = max / 2;
    if max >= 4 && s.lost > half {
        if s.lost >= max {
            assert(s.fade.num == 1 && s.fade.den == 1);
            assert(1 * (max - half) == (s.lost - half) * 1);
        } else {
            assert(s.fade.num == s.lost - half && s.fade.den == max - half);
        }
    }
    let now = advanced(v, dets, high, m).tracks;
    choose|u: int| 0 <= u < now.len() && now[u] == s
}

proof fn lemma_loose_complete(list: Seq<int>, track_of: Seq<Option<usize>>, i: int)
    requires
        0 <= i < list.len(),
        track_of[list[i]] is None,
    ensures
        loose(list, track_of).contains(list[i]),
    decreases list.len(),
{
    let l = loose(list, track_of);
    if i < list.len() - 1 {
        let rest = list.drop_last();
        assert(rest[i] == list[i]);
        lemma_loose_complete(rest, track_of, i);
        let r = loose(rest, track_of);
        let k = choose|k: int| 0 <= k < r.len() && r[k] == rest[i];
        assert(l[k] == list[i]);
    } else {
        assert(l.last() == list[i]);
    }
}

/// A good detection that has no track begins one, under a new number, with all that was seen: the four corners of the box, the
/// score, and the mask as zeros and ones.
pub proof fn law_good_detection_begins_a_track(v: TrackerView, dets: Seq<PersonInstance>, high: u32, m: MatchView, d: int) -> (u: int)
    requires
        in_order(v),
        0 <= d < dets.len(),
        dets[d].score >= high,
        m.track_of[d] is None,
    ensures
        0 <= u < advanced(v, dets, high, m).tracks.len(),
        ({
            let now = advanced(v, dets, high, m).tracks[u];
            &&& v.next_id <= now.id < advanced(v, dets, high, m).next_id
            &&& now.xyxy[0] == dets[d].xyxy[0]
            &&& now.xyxy[1] == dets[d].xyxy[1]
            &&& now.xyxy[2] == dets[d].xyxy[2]
            &&& now.xyxy[3] == dets[d].xyxy[3]
            &&& now.score == dets[d].score
            &&& now.lost == 0
            &&& now.fade.num == 0
            &&& now.fade.den > 0
            &&& now.mask.len() == dets[d].mask@.len()
            &&& forall|k: int|
                0 <= k < now.mask.len() ==> #[trigger] now.mask[k] == (if dets[d].mask@[k] == 0 {
                    0u8
                } else {
                    1u8
                })
        }),
{
    let scores = scores_of(dets);
    let order = ranked(scores);
    let good = graded(order, scores, high, true);
    crate::rank::law_ranked_complete(scores, dets.len() as int, d);
    lemma_ranked_ok(scores);
    lemma_graded(order, scores, high, true);
    assert(order.contains(d));
    assert(scores[d] == dets[d].score);
    assert(good.contains(d));
    let i = choose|i: int| 0 <= i < good.len() && good[i] == d;
    lemma_loose_complete(good, m.track_of, i);
    let who = newcomers(dets, high, m);
    let k = choose|k: int| 0 <= k < who.len() && who[k] == d;
    let all = carried(v, dets, m) + started(v, dets, who);
    let at = v.tracks.len() + k;
    let s = begun(v.next_id + k, dets[d], v.opts.ema);
    assert(all[at] == s);
    let none = TrackView {
        id: v.next_id + k,
        xyxy: dets[d].xyxy,
        score: dets[d].score,
        mask: Seq::empty(),
        lost: 0,
        fade: Fade { num: 0, den: 1 },
        ema: Seq::empty(),
    };
    lemma_binary(none, dets[d], v.opts.ema);
    assert(s == seen(none, dets[d], v.opts.ema));
    lemma_held_keeps(all, v.opts.max_lost as int, at);
    let now = advanced(v, dets, high, m).tracks;
    choose|u: int| 0 <= u < now.len() && now[u] == s
}

/// A tracker goes by its options: good detections are matched by the overlap for good ones, poor ones by that for poor ones, and
/// where tracks were last seen counts only if that is wanted. Nothing that could be matched by them is left.
pub proof fn law_matched_by_the_options(v: TrackerView, dets: Seq<PersonInstance>, high: u32, expected: Seq<Seq<u32>>, last: Seq<Seq<u32>>)
    requires
        v.tracks.len() <= usize::MAX,
        dets.len() <= usize::MAX,
    ensures
        ({
            let m = matched(v, dets, high, expected, last);
            &&& sound(m, v.tracks.len() as int, dets.len() as int)
            &&& forall|d: int|
                0 <= d < dets.len() && (#[trigger] m.track_of[d]) is Some && dets[d].score < high ==> expected[m.track_of[d]->0 as int][d]
                    >= v.opts.low_iou_thr
            &&& forall|d: int|
                0 <= d < dets.len() && (#[trigger] m.track_of[d]) is Some && dets[d].score >= high ==> expected[m.track_of[d]->0 as int][d]
                    >= v.opts.iou_thr || (v.opts.ocru && last[m.track_of[d]->0 as int][d] >= v.opts.iou_thr)
            &&& forall|t: int, d: int|
                0 <= t < v.tracks.len() && 0 <= d < dets.len() && !(#[trigger] m.taken[t]) && (#[trigger] m.track_of[d]) is None
                    && dets[d].score >= high ==> (expected[t][d] < v.opts.iou_thr || expected[t][d] == 0) && (v.opts.ocru
                    ==> last[t][d] < v.opts.iou_thr)
            &&& forall|t: int, d: int|
                0 <= t < v.tracks.len() && 0 <= d < dets.len() && !(#[trigger] m.taken[t]) && (#[trigger] m.track_of[d]) is None
                    && dets[d].score < high ==> expected[t][d] < v.opts.low_iou_thr || expected[t][d] == 0
        }),
{
    let m = matched(v, dets, high, expected, last);
    let scores = scores_of(dets);
    let n = v.tracks.len() as int;
    let k = Strictness { high: v.opts.iou_thr, low: v.opts.low_iou_thr, rescue: v.opts.ocru };
    crate::assign::law_matching(n, scores, high, expected, last, k);
    assert forall|d: int| 0 <= d < dets.len() implies #[trigger] scores[d] == dets[d].score by {}
    assert forall|t: int, d: int|
        0 <= t < n && 0 <= d < dets.len() && !(#[trigger] m.taken[t]) && (#[trigger] m.track_of[d]) is None implies (dets[d].score >= high
        ==> (expected[t][d] < v.opts.iou_thr || expected[t][d] == 0) && (v.opts.ocru ==> last[t][d] < v.opts.iou_thr)) && (dets[d].score < high
        ==> expected[t][d] < v.opts.low_iou_thr || expected[t][d] == 0) by {
        crate::assign::law_nothing_left(n, scores, high, expected, last, k, t, d);
    }
}

/// What is said of each track: which detection it has, and for how long it had been missing; or that it was missed, and whether it
/// is held.
pub proof fn law_fates(v: TrackerView, dets: Seq<PersonInstance>, m: MatchView, t: int)
    requires
        0 <= t < v.tracks.len() <= usize::MAX,
        dets.len() <= usize::MAX,
        0 <= v.tracks[t].lost < u32::MAX,
        sound(m, v.tracks.len() as int, dets.len() as int),
    ensures
        forall|d: int|
            0 <= d < dets.len() && #[trigger] m.track_of[d] == Some(t as usize) ==> fate_of(v, m, t) is Seen && fate_of(v, m, t)->det
                == d && fate_of(v, m, t)->missing == v.tracks[t].lost,
        (forall|d: int| 0 <= d < dets.len() ==> #[trigger] m.track_of[d] != Some(t as usize)) ==> fate_of(v, m, t) is Missed
            && fate_of(v, m, t)->kept == (v.tracks[t].lost < v.opts.max_lost),
{
    let n = v.tracks.len() as int;
    assert forall|d: int| 0 <= d < dets.len() && #[trigger] m.track_of[d] == Some(t as usize) implies fate_of(v, m, t) is Seen
        && fate_of(v, m, t)->det == d && fate_of(v, m, t)->missing == v.tracks[t].lost by {
        assert(m.taken[t]);
        lemma_taken_has_holder(m, n, dets.len() as int, t);
        let e = holder(m.track_of, t, 0);
        if e < d {
            assert(m.track_of[e] != m.track_of[d]);
        } else if d < e {
            assert(m.track_of[d] != m.track_of[e]);
        }
    }
}

proof fn lemma_loose_order(list: Seq<int>, track_of: Seq<Option<usize>>, scores: Seq<u32>)
    requires
        forall|a: int, b: int|
            0 <= a < b < list.len() ==> scores[#[trigger] list[a]] > scores[#[trigger] list[b]] || (scores[list[a]]
                == scores[list[b]] && list[a] < list[b]),
    ensures
        ({
            let l = loose(list, track_of);
            forall|a: int, b: int|
                0 <= a < b < l.len() ==> scores[#[trigger] l[a]] > scores[#[trigger] l[b]] || (scores[l[a]] == scores[l[b]]
                    && l[a] < l[b])
        }),
    decreases list.len(),
{
    if list.len() > 0 {
        let rest = list.drop_last();
        let l = loose(list, track_of);
        let r = loose(rest, track_of);
        assert forall|a: int, b: int| 0 <= a < b < rest.len() implies scores[#[trigger] rest[a]] > scores[#[trigger] rest[b]] || (
        scores[rest[a]] == scores[rest[b]] && rest[a] < rest[b]) by {
            assert(rest[a] == list[a] && rest[b] == list[b]);
        }
        lemma_loose_order(rest, track_of, scores);
        lemma_loose(rest, track_of);
        assert forall|a: int, b: int| 0 <= a < b < l.len() implies scores[#[trigger] l[a]] > scores[#[trigger] l[b]] || (
        scores[l[a]] == scores[l[b]] && l[a] < l[b]) by {
            assert(l[a] == r[a]);
            if b < r.len() {
                assert(l[b] == r[b]);
            } else {
                assert(rest.contains(r[a]));
                let i = choose|i: int| 0 <= i < rest.len() && rest[i] == r[a];
                assert(list[i] == l[a] && list[list.len() - 1] == l[b]);
            }
        }
    }
}

/// The detections that begin tracks are exactly the good ones without a track. They get the next numbers, the best first, and of
/// equally good ones the first.
pub proof fn law_newcomers(v: TrackerView, dets: Seq<PersonInstance>, high: u32, m: MatchView)
    ensures
        ({
            let who = newcomers(dets, high, m);
            &&& forall|d: int|
                #[trigger] who.contains(d) <==> 0 <= d < dets.len() && dets[d].score >= high && m.track_of[d] is None
            &&& forall|a: int, b: int|
                0 <= a < b < who.len() ==> dets[#[trigger] who[a]].score > dets[#[trigger] who[b]].score || (dets[who[a]].score
                    == dets[who[b]].score && who[a] < who[b])
            &&& advanced(v, dets, high, m).next_id == v.next_id + who.len()
            &&& advanced(v, dets, high, m).opts == v.opts
        }),
{
    let scores = scores_of(dets);
    let n = dets.len() as int;
    let order = ranked(scores);
    let good = graded(order, scores, high, true);
    let who = newcomers(dets, high, m);
    lemma_ranked_ok(scores);
    lemma_graded(order, scores, high, true);
    lemma_loose(good, m.track_of);
    lemma_newcomers_bound(dets, high, m);
    assert forall|d: int| #[trigger] who.contains(d) <==> 0 <= d < n && dets[d].score >= high && m.track_of[d] is None by {
        if who.contains(d) {
            let k = choose|k: int| 0 <= k < who.len() && who[k] == d;
            law_poor_detection_begins_no_track(dets, high, m, k);
        }
        if 0 <= d < n && dets[d].score >= high && m.track_of[d] is None {
            crate::rank::law_ranked_complete(scores, n, d);
            assert(order.contains(d));
            assert(scores[d] == dets[d].score);
            assert(good.contains(d));
            let i = choose|i: int| 0 <= i < good.len() && good[i] == d;
            lemma_loose_complete(good, m.track_of, i);
        }
    }
    crate::rank::law_ranked_upto(scores, n);
    crate::assign::lemma_order_kept(order, scores, high, true);
    lemma_loose_order(good, m.track_of, scores);
    assert forall|a: int, b: int| 0 <= a < b < who.len() implies dets[#[trigger] who[a]].score > dets[#[trigger] who[b]].score || (
    dets[who[a]].score == dets[who[b]].score && who[a] < who[b]) by {
        assert(0 <= who[a] < n && 0 <= who[b] < n);
        assert(scores[who[a]] == dets[who[a]].score && scores[who[b]] == dets[who[b]].score);
    }
}

/// The detections that begin tracks get the next numbers, one after the other.
pub proof fn law_next_numbers(v: TrackerView, dets: Seq<PersonInstance>, high: u32, m: MatchView, a: int) -> (u: int)
    requires
        0 <= a < newcomers(dets, high, m).len(),
    ensures
        0 <= u < advanced(v, dets, high, m).tracks.len(),
        advanced(v, dets, high, m).tracks[u].id == v.next_id + a,
        advanced(v, dets, high, m).tracks[u].xyxy == dets[newcomers(dets, high, m)[a]].xyxy,
        advanced(v, dets, high, m).tracks[u].score == dets[newcomers(dets, high, m)[a]].score,
{
    let who = newcomers(dets, high, m);
    let all = carried(v, dets, m) + started(v, dets, who);
    let now = advanced(v, dets, high, m).tracks;
    let at = v.tracks.len() + a;
    assert(all[at] == begun(v.next_id + a, dets[who[a]], v.opts.ema));
    lemma_held_keeps(all, v.opts.max_lost as int, at);
    choose|u: int| 0 <= u < now.len() && now[u] == all[at]
}

/// The moving average of a pixel moves by about seven tenths of the way to what is seen, never past it, and begins with what is
/// seen first. Without averages it stays as it is.
pub proof fn law_average(ema: Seq<u8>, cur: Seq<u8>, k: int)
    requires
        0 <= k < cur.len(),
    ensures
        averaged(ema, cur, true).len() == cur.len(),
        ema.len() != cur.len() ==> averaged(ema, cur, true)[k] == (if cur[k] == 0 {
            0u8
        } else {
            255u8
        }),
        ema.len() == cur.len() && cur[k] == 0 ==> 256 * averaged(ema, cur, true)[k] <= 77 * ema[k] < 256 * averaged(ema, cur, true)[k]
            + 256,
        ema.len() == cur.len() && cur[k] != 0 ==> 256 * averaged(ema, cur, true)[k] <= 45645 + 77 * ema[k] < 256 * averaged(
            ema,
            cur,
            true,
        )[k] + 256,
        averaged(ema, cur, false) == ema,
{
}

/// Two masks put together are set where either is; a mask of zeros and ones stays one.
pub proof fn law_union(a: Seq<u8>, b: Seq<u8>, k: int)
    requires
        0 <= k < a.len(),
    ensures
        union(a, b).len() == a.len(),
        union(a, b)[k] != 0 <==> a[k] != 0 || (k < b.len() && b[k] != 0),
        a[k] <= 1 && (k < b.len() ==> b[k] <= 1) ==> union(a, b)[k] <= 1,
        k >= b.len() || b[k] == 0 ==> union(a, b)[k] == a[k],
{
    if k < b.len() {
        let (x, y) = (a[k], b[k]);
        assert(x | y != 0 <==> x != 0 || y != 0) by (bit_vector);
        assert(x <= 1 && y <= 1 ==> x | y <= 1) by (bit_vector);
        assert(x | 0u8 == x) by (bit_vector);
    }
}

/// A smoothed pixel is set if and only if it is set in its frame, or one of the nine pixels around and at it was set in the frame
/// before.
pub proof fn law_smoothed(prev: Seq<u8>, cur: Seq<u8>, w: int, h: int, x: int, y: int)
    requires
        0 <= x < w <= usize::MAX,
        0 <= y < h <= usize::MAX,
        cur.len() == w * h,
        prev.len() == w * h,
    ensures
        smoothed(None, cur, w, h) == cur,
        smoothed(Some(prev), cur, w, h).len() == cur.len(),
        smoothed(Some(prev), cur, w, h)[y * w + x] != 0 <==> cur[y * w + x] != 0 || exists|a: int, b: int|
            x - 1 <= a <= x + 1 && y - 1 <= b <= y + 1 && 0 <= a < w && 0 <= b < h && #[trigger] prev[b * w + a] != 0,
{
    let k = cell(w, x, y);
    lemma_cell(w, h, x, y);
    let p = grown(prev, w, h, whole(w, h));
    law_union(cur, p, k);
    assert(p[k] == (if prev[k] == 0 && near_set(prev, w, h, x, y) {
        1u8
    } else {
        prev[k]
    }));
    if prev[k] != 0 {
        assert(prev[y * w + x] != 0);
    }
    if near_set(prev, w, h, x, y) {
        let (a, b) = choose|a: int, b: int| beside(w, h, x, y, a, b) && #[trigger] prev[cell(w, a, b)] != 0;
        assert(prev[b * w + a] != 0);
    }
    if exists|a: int, b: int|
        x - 1 <= a <= x + 1 && y - 1 <= b <= y + 1 && 0 <= a < w && 0 <= b < h && #[trigger] prev[b * w + a] != 0 {
        let (a, b) = choose|a: int, b: int|
            x - 1 <= a <= x + 1 && y - 1 <= b <= y + 1 && 0 <= a < w && 0 <= b < h && #[trigger] prev[b * w + a] != 0;
        assert(beside(w, h, x, y, a, b) && prev[cell(w, a, b)] != 0);
    }
}

} // verus!
