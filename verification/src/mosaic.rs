//! Putting together the mask of each frame: what was found, what is followed, what is held, and the faces.
use crate::color::{does_hold_frame, holds_frame, nv12_to_rgba_scaled, picture};
use crate::compose::{
    composable, composed, fill_rect, filled, law_solid_blacks_luma, ComposeBackend, MaskStyle, Region,
};
use crate::detect::PersonInstance;
use crate::grid::{cell, lemma_cell};
use crate::morph::{
    around, dilate_region, dilated, erode_region, eroded, law_binary_kept, law_grown_keeps, shift_mask_region, shift_reach,
    shifted, whole,
};
use crate::assign::{law_matching, sound, table, table_ok, MatchView, Strictness};
use crate::rank::ints;
use crate::track::{
    advanced, carried, fate_of, held, holder, in_order, law_seen_again, law_smoothing_keeps, lemma_newcomers_bound, lemma_taken_has_holder,
    matched, near_frame_edge, newcomers, scores_of, smoothed, started, union, unite, views, Fade, IouTracker,
    MaskSmoother, Track, TrackReport, TrackView, TrackerOptions, TrackerView,
};
use vstd::prelude::*;

verus! {

/// For how many frames a track that was lost at the edge of the picture is still shown.
pub const EDGE_HOLD_FRAMES: u32 = 3;

/// How near to the edge of the picture a box has to be, in pixels.
pub const EDGE_MARGIN: u32 = 12;

/// One frame in so many is shown while a video is processed.
pub const PREVIEW_EVERY: u64 = 8;

/// The width of the pictures that are shown.
pub const PREVIEW_WIDTH: usize = 480;

/// Takes the pictures that are shown while a video is processed.
pub trait PreviewSink: Send {
    /// Whether pictures of this frame are wanted.
    fn wants(&mut self, frame_idx: u64) -> bool;

    /// Takes the picture of a frame as it was and as it is now.
    fn emit(&mut self, frame_idx: u64, original: Vec<u8>, processed: Vec<u8>, w: u32, h: u32);
}

/// How masks are made. The score is the bits of a single-precision number.
#[derive(Debug, Clone, Copy)]
pub struct MosaicOptions {
    pub conf: u32,
    /// Whether faces are looked for.
    pub face: bool,
    /// By how many pixels the box of a face is widened.
    pub face_expand: u32,
    /// Whether faces are looked for once more in the upper part of each person.
    pub face_roi: bool,
    /// Whether people are followed.
    pub track: bool,
    /// Whether masks are smoothed over time.
    pub smooth: bool,
    /// Whether the box of a face is widened more when the head is turned.
    pub landmark_expand: bool,
    /// Whether masks are averaged over time.
    pub mask_ema: bool,
    /// Whether a missing track is also matched by where it was last seen.
    pub ocru: bool,
    /// Whether the motion of the camera is taken into account.
    pub gmc: bool,
    /// One frame in so many is looked into.
    pub detect_every: u32,
    /// Frames per second, in millionths.
    pub fps_micro: u32,
    /// The most that `detect_every` may become when the machine is too slow; not more than `detect_every` is never.
    pub adaptive_skip_max: u32,
    pub style: MaskStyle,
}

// Adapting to a machine that is too slow.
/// What is to be done about a machine that is too slow.
#[derive(Debug, Clone, Copy, PartialEq, Eq, Structural)]
pub enum TuneAction {
    Nothing,
    /// Look into one frame at a time.
    ReduceBatch,
    /// Look into fewer frames.
    SkipIncreased,
}

/// Decides, every two seconds, whether the machine is too slow, and what is to be done about it.
#[derive(Debug, Clone, Copy, PartialEq, Eq, Structural)]
pub struct AdaptiveTuner {
    /// One frame in so many is looked into.
    pub every: u32,
    pub max_every: u32,
    pub enabled: bool,
    /// Frames per second that are wanted, in millionths.
    pub target_micro: u32,
    /// When the window began, in nanoseconds.
    pub window_start: Option<u64>,
    /// Frames in the window.
    pub frames: u64,
    /// For how long the machine was looking into frames in the window, in nanoseconds.
    pub busy_ns: u64,
    /// In how many windows on end the machine was too slow.
    pub starved: u32,
    pub batch_reduced: bool,
}

/// How long a window is, in nanoseconds.
pub const ADAPTIVE_WINDOW_NS: u64 = 2_000_000_000;

/// Whether looking into frames is what makes the run too slow: it took more than seven tenths of the time, and there
/// were fewer than 85 hundredths of the frames that are wanted.
pub open spec fn too_slow(t: AdaptiveTuner, elapsed: int) -> bool {
    let e = if elapsed == 0 {
        1
    } else {
        elapsed
    };
    &&& 10 * t.busy_ns > 7 * e
    &&& t.frames * 100_000_000_000_000_000 < 85 * t.target_micro * e
}

/// The tuner after a window, and what is to be done.
pub open spec fn decided(t: AdaptiveTuner, elapsed: int) -> (AdaptiveTuner, TuneAction) {
    if !t.enabled {
        (t, TuneAction::Nothing)
    } else if !too_slow(t, elapsed) {
        (AdaptiveTuner { starved: 0, ..t }, TuneAction::Nothing)
    } else if t.starved + 1 < 2 {
        (AdaptiveTuner { starved: (t.starved + 1) as u32, ..t }, TuneAction::Nothing)
    } else if !t.batch_reduced {
        (AdaptiveTuner { starved: 0, batch_reduced: true, ..t }, TuneAction::ReduceBatch)
    } else if t.every < t.max_every {
        (AdaptiveTuner { starved: 0, every: (t.every + 1) as u32, ..t }, TuneAction::SkipIncreased)
    } else {
        (AdaptiveTuner { starved: 0, ..t }, TuneAction::Nothing)
    }
}

/// The tuner after a batch of frames, and what is to be done.
pub open spec fn noted(t: AdaptiveTuner, frames: int, busy: int, now: int) -> (AdaptiveTuner, TuneAction) {
    let start = match t.window_start {
        Some(s) => s as int,
        None => now,
    };
    let u = AdaptiveTuner {
        frames: (t.frames + frames) as u64,
        busy_ns: (t.busy_ns + busy) as u64,
        window_start: Some(start as u64),
        ..t
    };
    if now - start < ADAPTIVE_WINDOW_NS {
        (u, TuneAction::Nothing)
    } else {
        let (v, a) = decided(u, now - start);
        (AdaptiveTuner { frames: 0, busy_ns: 0, window_start: Some(now as u64), ..v }, a)
    }
}

/// A tuner before the first frame.
pub open spec fn first_tuner(fps_micro: u32, base_every: u32, max_every: u32) -> AdaptiveTuner {
    let base = if base_every == 0 {
        1
    } else {
        base_every
    };
    AdaptiveTuner {
        every: base,
        max_every: if max_every < base {
            base
        } else {
            max_every
        },
        enabled: max_every > base,
        target_micro: if fps_micro > 0 {
            fps_micro
        } else {
            30_000_000
        },
        window_start: None,
        frames: 0,
        busy_ns: 0,
        starved: 0,
        batch_reduced: false,
    }
}

impl AdaptiveTuner {
    /// What always holds of a tuner.
    pub open spec fn wf(self) -> bool {
        1 <= self.every <= self.max_every && self.starved < 2
    }

    /// A tuner for a video with `fps_micro` millionths of a frame per second (none: 30 frames). It looks into one frame in
    /// `base_every`, and later, if need be, into one in `max_every`; if that is not more, it never changes anything.
    pub fn new(fps_micro: u32, base_every: u32, max_every: u32) -> (t: AdaptiveTuner)
        ensures
            t.wf(),
            t == first_tuner(fps_micro, base_every, max_every),
    {
        let base: u32 = if base_every == 0 { 1 } else { base_every };
        AdaptiveTuner {
            every: base,
            max_every: if max_every < base { base } else { max_every },
            enabled: max_every > base,
            target_micro: if fps_micro > 0 { fps_micro } else { 30_000_000 },
            window_start: None,
            frames: 0,
            busy_ns: 0,
            starved: 0,
            batch_reduced: false,
        }
    }

    /// One frame in so many is looked into.
    pub fn effective_every(&self) -> (n: u64)
        ensures
            n == (if self.every == 0 {
                1
            } else {
                self.every
            }),
    {
        if self.every == 0 {
            1
        } else {
            self.every as u64
        }
    }

    /// Decides what is to be done after a window of `elapsed` nanoseconds.
    pub fn decide(&mut self, elapsed: u64) -> (a: TuneAction)
        requires
            old(self).wf(),
        ensures
            final(self).wf(),
            (*final(self), a) == decided(*old(self), elapsed as int),
    {
        if !self.enabled {
            return TuneAction::Nothing;
        }
        let e: u128 = if elapsed == 0 { 1 } else { elapsed as u128 };
        let busy: bool = 10 * (self.busy_ns as u128) > 7 * e;
        assert(85 * self.target_micro * e <= 85 * 0xFFFF_FFFF * 0xFFFF_FFFF_FFFF_FFFF) by (nonlinear_arith)
            requires
                0 <= self.target_micro <= 0xFFFF_FFFF,
                0 <= e <= 0xFFFF_FFFF_FFFF_FFFF,
        ;
        let few: bool = (self.frames as u128) * 100_000_000_000_000_000 < 85 * (self.target_micro as u128) * e;
        if !(busy && few) {
            self.starved = 0;
            return TuneAction::Nothing;
        }
        self.starved = self.starved + 1;
        if self.starved < 2 {
            return TuneAction::Nothing;
        }
        self.starved = 0;
        if !self.batch_reduced {
            self.batch_reduced = true;
            return TuneAction::ReduceBatch;
        }
        if self.every < self.max_every {
            self.every = self.every + 1;
            return TuneAction::SkipIncreased;
        }
        TuneAction::Nothing
    }

    /// Takes note of a batch of frames that took `busy_ns` nanoseconds to look into; it is `now` (in nanoseconds).
    pub fn note(&mut self, frames: u64, busy_ns: u64, now: u64) -> (a: TuneAction)
        requires
            old(self).wf(),
            old(self).frames + frames <= u64::MAX,
            old(self).busy_ns + busy_ns <= u64::MAX,
            old(self).window_start is Some ==> old(self).window_start->0 <= now,
        ensures
            final(self).wf(),
            (*final(self), a) == noted(*old(self), frames as int, busy_ns as int, now as int),
    {
        self.frames = self.frames + frames;
        self.busy_ns = self.busy_ns + busy_ns;
        let start: u64 = match self.window_start {
            Some(s) => s,
            None => now,
        };
        self.window_start = Some(start);
        let elapsed: u64 = now - start;
        if elapsed < ADAPTIVE_WINDOW_NS {
            return TuneAction::Nothing;
        }
        let a = self.decide(elapsed);
        self.frames = 0;
        self.busy_ns = 0;
        self.window_start = Some(now);
        a
    }
}

/// A tuner only ever looks into fewer frames, never into fewer than one in `max_every`, and never into fewer before it has
/// gone over to one frame at a time.
pub proof fn law_tuner_ladder(t: AdaptiveTuner, elapsed: int)
    requires
        t.wf(),
    ensures
        ({
            let (u, a) = decided(t, elapsed);
            &&& t.every <= u.every <= t.max_every
            &&& u.max_every == t.max_every
            &&& t.batch_reduced ==> u.batch_reduced
            &&& a == TuneAction::SkipIncreased <==> u.every == t.every + 1
            &&& u.every > t.every ==> t.batch_reduced
            &&& a == TuneAction::ReduceBatch ==> !t.batch_reduced
        }),
{
}

/// Nothing is done after a single window in which the machine was too slow, nor after one in which it was not, nor ever if
/// the tuner is not enabled.
pub proof fn law_tuner_patience(t: AdaptiveTuner, elapsed: int)
    requires
        t.wf(),
        !t.enabled || t.starved == 0 || !too_slow(t, elapsed),
    ensures
        decided(t, elapsed).1 == TuneAction::Nothing,
{
}

// Which frames are looked into.
/// Which of the first `n` frames of a batch that begins with frame `first` are looked into: one in `every`.
pub open spec fn looked_into(first: int, every: int, n: int) -> Seq<usize>
    decreases n,
{
    if n <= 0 {
        Seq::empty()
    } else if (first + (n - 1)) % every == 0 {
        looked_into(first, every, n - 1).push((n - 1) as usize)
    } else {
        looked_into(first, every, n - 1)
    }
}

/// Which frames of a batch are looked into.
pub fn need(first: u64, every: u64, n: usize) -> (r: Vec<usize>)
    requires
        0 < every,
        first + n <= u64::MAX,
    ensures
        r@ == looked_into(first as int, every as int, n as int),
        forall|i: int| 0 <= i < r@.len() ==> (#[trigger] r@[i]) < n,
{
    let mut r: Vec<usize> = Vec::new();
    for i in 0..n
        invariant
            0 < every,
            first + n <= u64::MAX,
            r@ == looked_into(first as int, every as int, i as int),
            forall|k: int| 0 <= k < r@.len() ==> (#[trigger] r@[k]) < i,
    {
        if (first + i as u64) % every == 0 {
            r.push(i);
        }
    }
    r
}

proof fn lemma_looked_into(first: int, every: int, n: int, i: int)
    requires
        0 < every,
        0 <= i < n <= usize::MAX,
    ensures
        looked_into(first, every, n).contains(i as usize) <==> (first + i) % every == 0,
    decreases n,
{
    let now = looked_into(first, every, n);
    let before = looked_into(first, every, n - 1);
    lemma_looked_bound(first, every, n - 1);
    if i == n - 1 {
        if (first + i) % every == 0 {
            assert(now[now.len() - 1] == i);
        } else if before.contains(i as usize) {
            let k = choose|k: int| 0 <= k < before.len() && before[k] == i as usize;
            assert(before[k] < n - 1);
        }
    } else {
        lemma_looked_into(first, every, n - 1, i);
        if before.contains(i as usize) {
            let k = choose|k: int| 0 <= k < before.len() && before[k] == i as usize;
            assert(now[k] == i as usize);
        }
        if now.contains(i as usize) {
            let k = choose|k: int| 0 <= k < now.len() && now[k] == i as usize;
            assert(k < before.len());
            assert(before[k] == i as usize);
        }
    }
}

proof fn lemma_looked_bound(first: int, every: int, n: int)
    requires
        0 <= n <= usize::MAX,
    ensures
        forall|k: int| 0 <= k < looked_into(first, every, n).len() ==> (#[trigger] looked_into(first, every, n)[k]) < n,
    decreases n,
{
    if n > 0 {
        lemma_looked_bound(first, every, n - 1);
        let now = looked_into(first, every, n);
        let before = looked_into(first, every, n - 1);
        assert forall|k: int| 0 <= k < now.len() implies (#[trigger] now[k]) < n by {
            if k < before.len() {
                assert(now[k] == before[k]);
            }
        }
    }
}

/// Whether a frame is looked into depends on its number in the video alone, not on the batches.
pub proof fn law_need_is_by_number(first: int, every: int, n: int, i: int)
    requires
        0 < every,
        0 <= i < n <= usize::MAX,
    ensures
        looked_into(first, every, n).contains(i as usize) <==> (first + i) % every == 0,
{
    lemma_looked_into(first, every, n, i);
}

// The mask of a frame.
/// Where a track is in a frame, rounded to pixels.
#[derive(Debug, Clone, Copy)]
pub struct Spot {
    /// The box that was last seen; the first two corners are rounded down, the others up.
    pub edge: [i64; 4],
    /// The box that was last seen; all corners are rounded down.
    pub at: [usize; 4],
    /// The box where the track is expected now.
    pub shifted: [usize; 4],
    /// By how much the mask is moved.
    pub dx: isize,
    pub dy: isize,
    /// By how many pixels the person may have strayed.
    pub spread: usize,
    /// By how many pixels the mask is shrunk as it fades.
    pub fade_px: usize,
}

/// Whether a track is no longer shown: it was lost at the edge of the picture, some frames ago.
pub open spec fn left_picture(lost: int, p: Spot, w: int, h: int) -> bool {
    lost > EDGE_HOLD_FRAMES && (p.edge[0] < EDGE_MARGIN || p.edge[1] < EDGE_MARGIN || p.edge[2] > w - EDGE_MARGIN
        || p.edge[3] > h - EDGE_MARGIN)
}

/// Whether a track that has been missing for `lost` frames is taken to have left the picture.
pub fn has_left(lost: u32, p: Spot, w: usize, h: usize) -> (r: bool)
    ensures
        r == left_picture(lost as int, p, w as int, h as int),
{
    lost > EDGE_HOLD_FRAMES && near_frame_edge(p.edge, w, h, EDGE_MARGIN)
}

/// By how many pixels the mask of a track is grown in a frame that is not looked into.
pub open spec fn growth(spread: int) -> int {
    if spread < 6 {
        6
    } else if spread > 24 {
        24
    } else {
        spread
    }
}

/// The mask of a track as it is shown: moved with the track; grown, in a frame that is not looked into (`hold`); shrunk,
/// as it fades.
pub open spec fn shaped(m: Seq<u8>, p: Spot, hold: bool, w: int, h: int) -> Seq<u8> {
    let a = shifted(m, w, h, p.at, p.dx as int, p.dy as int);
    let b = if hold {
        dilated(a, w, h, p.shifted, growth(p.spread as int))
    } else {
        a
    };
    if p.fade_px > 0 {
        eroded(b, w, h, p.shifted, p.fade_px as int)
    } else {
        b
    }
}

/// The masks of the first `n` tracks put together.
pub open spec fn tracks_mask(t: Seq<TrackView>, p: Seq<Spot>, hold: bool, w: int, h: int, n: int) -> Seq<u8>
    decreases n,
{
    if n <= 0 {
        Seq::new((w * h) as nat, |k: int| 0u8)
    } else {
        let m = tracks_mask(t, p, hold, w, h, n - 1);
        if left_picture(t[n - 1].lost, p[n - 1], w, h) {
            m
        } else {
            union(m, shaped(t[n - 1].mask, p[n - 1], hold, w, h))
        }
    }
}

/// The masks of the first `n` people found whose score is at least `conf` put together.
pub open spec fn found_mask(d: Seq<PersonInstance>, conf: u32, len: int, n: int) -> Seq<u8>
    decreases n,
{
    if n <= 0 {
        Seq::new(len as nat, |k: int| 0u8)
    } else if d[n - 1].score >= conf {
        union(found_mask(d, conf, len, n - 1), d[n - 1].mask@)
    } else {
        found_mask(d, conf, len, n - 1)
    }
}

/// A mask after the first `n` faces have been covered.
pub open spec fn covered(m: Seq<u8>, faces: Seq<Region>, w: int, n: int) -> Seq<u8>
    decreases n,
{
    if n <= 0 {
        m
    } else {
        filled(covered(m, faces, w, n - 1), w, faces[n - 1], 1)
    }
}

/// Whether a spot can be worked with in a `w` by `h` frame.
pub open spec fn spot_ok(p: Spot, w: int, h: int) -> bool {
    w + shift_reach(p.dx as int, p.dy as int) <= usize::MAX && h + shift_reach(p.dx as int, p.dy as int) <= usize::MAX
}

proof fn lemma_shaped_len(m: Seq<u8>, p: Spot, hold: bool, w: int, h: int)
    ensures
        shifted(m, w, h, p.at, p.dx as int, p.dy as int).len() == m.len(),
        shaped(m, p, hold, w, h).len() == m.len(),
        ({
            let a = shifted(m, w, h, p.at, p.dx as int, p.dy as int);
            dilated(a, w, h, p.shifted, growth(p.spread as int)).len() == m.len()
        }),
{
    let a = shifted(m, w, h, p.at, p.dx as int, p.dy as int);
    let n = growth(p.spread as int);
    lemma_grown_len(a, w, h, around(p.shifted, w, h, n + 2), n);
    let b = if hold {
        dilated(a, w, h, p.shifted, n)
    } else {
        a
    };
    lemma_shrunk_len(b, w, h, around(p.shifted, w, h, 3), p.fade_px as int);
}

pub proof fn lemma_grown_len(s: Seq<u8>, w: int, h: int, g: Region, n: int)
    ensures
        crate::morph::grown_times(s, w, h, g, n).len() == s.len(),
    decreases n,
{
    if n > 0 {
        lemma_grown_len(s, w, h, g, n - 1);
    }
}

proof fn lemma_shrunk_len(s: Seq<u8>, w: int, h: int, g: Region, n: int)
    ensures
        crate::morph::shrunk_times(s, w, h, g, n).len() == s.len(),
    decreases n,
{
    if n > 0 {
        lemma_shrunk_len(s, w, h, g, n - 1);
    }
}

/// The masks of tracks put together, for a frame that is looked into or not (`hold`).
pub fn mask_of_tracks(t: &Vec<Track>, p: &Vec<Spot>, hold: bool, w: usize, h: usize) -> (m: Vec<u8>)
    requires
        0 < w,
        0 < h,
        w + 26 <= usize::MAX,
        h + 26 <= usize::MAX,
        w * h <= usize::MAX,
        t@.len() == p@.len(),
        forall|i: int| 0 <= i < t@.len() ==> (#[trigger] t@[i]).mask@.len() == w * h,
        forall|i: int| 0 <= i < p@.len() ==> spot_ok(#[trigger] p@[i], w as int, h as int),
    ensures
        m@ == tracks_mask(views(t@), p@, hold, w as int, h as int, t@.len() as int),
        m@.len() == w * h,
{
    let mut m: Vec<u8> = vec![0u8; w * h];
    let ghost v = views(t@);
    assert(m@ =~= tracks_mask(v, p@, hold, w as int, h as int, 0));
    for i in 0..t.len()
        invariant
            0 < w,
            0 < h,
            w + 26 <= usize::MAX,
            h + 26 <= usize::MAX,
            t@.len() == p@.len(),
            v == views(t@),
            forall|i: int| 0 <= i < t@.len() ==> (#[trigger] t@[i]).mask@.len() == w * h,
            forall|i: int| 0 <= i < p@.len() ==> spot_ok(#[trigger] p@[i], w as int, h as int),
            m@.len() == w * h,
            m@ == tracks_mask(v, p@, hold, w as int, h as int, i as int),
    {
        let spot: Spot = p[i];
        assert(v[i as int] == t@[i as int]@);
        assert(spot_ok(p@[i as int], w as int, h as int));
        if !has_left(t[i].lost, spot, w, h) {
            proof {
                lemma_shaped_len(t@[i as int].mask@, spot, hold, w as int, h as int);
            }
            let mut s: Vec<u8> = vstd::slice::slice_to_vec(t[i].mask.as_slice());
            shift_mask_region(s.as_mut_slice(), w, h, spot.at, spot.dx, spot.dy);
            if hold {
                let n: usize = t[i].hold_dilate_px(spot.spread);
                dilate_region(s.as_mut_slice(), w, h, spot.shifted, n);
            }
            if spot.fade_px > 0 {
                erode_region(s.as_mut_slice(), w, h, spot.shifted, spot.fade_px);
            }
            unite(m.as_mut_slice(), s.as_slice());
        }
    }
    m
}

/// The boxes of the first `n` people found whose score is at least `conf`.
pub open spec fn boxes_upto(d: Seq<PersonInstance>, conf: u32, n: int) -> Seq<[u32; 4]>
    decreases n,
{
    if n <= 0 {
        Seq::empty()
    } else if d[n - 1].score >= conf {
        boxes_upto(d, conf, n - 1).push(d[n - 1].xyxy)
    } else {
        boxes_upto(d, conf, n - 1)
    }
}

/// The boxes of the people found whose score is at least `conf`.
pub fn boxes_of_found(d: &Vec<PersonInstance>, conf: u32) -> (b: Vec<[u32; 4]>)
    ensures
        b@ == boxes_upto(d@, conf, d@.len() as int),
{
    let mut b: Vec<[u32; 4]> = Vec::new();
    for i in 0..d.len()
        invariant
            b@ == boxes_upto(d@, conf, i as int),
    {
        if d[i].score >= conf {
            b.push(d[i].xyxy);
        }
    }
    b
}

/// The masks of the people found put together, of those whose score is at least `conf`.
pub fn mask_of_found(d: &Vec<PersonInstance>, conf: u32, len: usize) -> (m: Vec<u8>)
    ensures
        m@ == found_mask(d@, conf, len as int, d@.len() as int),
        m@.len() == len,
{
    let mut m: Vec<u8> = vec![0u8; len];
    assert(m@ =~= found_mask(d@, conf, len as int, 0));
    for i in 0..d.len()
        invariant
            m@.len() == len,
            m@ == found_mask(d@, conf, len as int, i as int),
    {
        if d[i].score >= conf {
            unite(m.as_mut_slice(), d[i].mask.as_slice());
        }
    }
    m
}

/// Covers faces.
pub fn cover_faces(m: &mut [u8], faces: &Vec<Region>, w: usize, h: usize)
    requires
        old(m)@.len() == w * h,
        forall|i: int| 0 <= i < faces@.len() ==> (#[trigger] faces@[i]).x2 <= w && faces@[i].y2 <= h,
    ensures
        final(m)@ == covered(old(m)@, faces@, w as int, faces@.len() as int),
{
    let ghost start = m@;
    for i in 0..faces.len()
        invariant
            m@.len() == w * h,
            start.len() == w * h,
            forall|i: int| 0 <= i < faces@.len() ==> (#[trigger] faces@[i]).x2 <= w && faces@[i].y2 <= h,
            m@ == covered(start, faces@, w as int, i as int),
    {
        let g: Region = faces[i];
        fill_rect(m, w, h, g, 1);
    }
}

/// Every pixel of a face is covered, and no pixel that was masked is uncovered.
pub proof fn law_faces_covered(m: Seq<u8>, faces: Seq<Region>, w: int, n: int, k: int)
    requires
        0 <= n <= faces.len(),
        0 <= k < m.len(),
        m[k] != 0 || exists|i: int| 0 <= i < n && (#[trigger] faces[i]).has(k % w, k / w),
    ensures
        covered(m, faces, w, n).len() == m.len(),
        covered(m, faces, w, n)[k] != 0,
    decreases n,
{
    if n > 0 {
        lemma_covered_len(m, faces, w, n - 1);
        if m[k] != 0 || exists|i: int| 0 <= i < n - 1 && (#[trigger] faces[i]).has(k % w, k / w) {
            law_faces_covered(m, faces, w, n - 1, k);
        }
    }
}

proof fn lemma_covered_len(m: Seq<u8>, faces: Seq<Region>, w: int, n: int)
    ensures
        covered(m, faces, w, n).len() == m.len(),
    decreases n,
{
    if n > 0 {
        lemma_covered_len(m, faces, w, n - 1);
    }
}

/// A track that is where it was last seen, does not fade and has not left the picture is masked as it was seen, whether
/// the frame is looked into or not (`hold`).
pub proof fn law_track_is_masked(t: Seq<TrackView>, p: Seq<Spot>, hold: bool, w: int, h: int, n: int, i: int, k: int)
    requires
        0 <= i < n <= t.len(),
        t.len() == p.len(),
        !left_picture(t[i].lost, p[i], w, h),
        p[i].dx == 0,
        p[i].dy == 0,
        p[i].fade_px == 0,
        t[i].mask.len() == w * h,
        0 <= k < w * h,
        t[i].mask[k] != 0,
    ensures
        tracks_mask(t, p, hold, w, h, n).len() == w * h,
        tracks_mask(t, p, hold, w, h, n)[k] != 0,
    decreases n,
{
    lemma_tracks_len(t, p, hold, w, h, n - 1);
    let before = tracks_mask(t, p, hold, w, h, n - 1);
    if i == n - 1 {
        let s = shaped(t[i].mask, p[i], hold, w, h);
        let m = growth(p[i].spread as int);
        law_grown_keeps(t[i].mask, w, h, around(p[i].shifted, w, h, m + 2), m, k);
        assert(s.len() == w * h && s[k] != 0);
        let (a, b) = (before[k], s[k]);
        assert(b != 0 ==> a | b != 0) by (bit_vector);
    } else {
        law_track_is_masked(t, p, hold, w, h, n - 1, i, k);
        if !left_picture(t[n - 1].lost, p[n - 1], w, h) {
            let s = shaped(t[n - 1].mask, p[n - 1], hold, w, h);
            if k < s.len() {
                let (a, b) = (before[k], s[k]);
                assert(a != 0 ==> a | b != 0) by (bit_vector);
            }
        }
    }
}

proof fn lemma_tracks_len(t: Seq<TrackView>, p: Seq<Spot>, hold: bool, w: int, h: int, n: int)
    requires
        0 <= w * h,
    ensures
        tracks_mask(t, p, hold, w, h, n).len() == w * h,
    decreases n,
{
    if n > 0 {
        lemma_tracks_len(t, p, hold, w, h, n - 1);
    }
}

/// Smooths the mask of a frame, if that is wanted.
pub fn smooth_mask(m: &mut [u8], s: &mut MaskSmoother, wanted: bool, w: usize, h: usize)
    requires
        wanted && old(s)@ is Some ==> w * h <= old(s)@->0.len(),
    ensures
        final(m)@ == (if wanted {
            smoothed(old(s)@, old(m)@, w as int, h as int)
        } else {
            old(m)@
        }),
        final(s)@ == (if wanted {
            Some(old(m)@)
        } else {
            old(s)@
        }),
{
    if wanted {
        s.apply(m, w, h);
    }
}

/// What is known from frame to frame while masks are made.
pub struct MosaicPipeline {
    opts: MosaicOptions,
    w: usize,
    h: usize,
    tracker: IouTracker,
    smoother: MaskSmoother,
    frame_idx: u64,
    adaptive: AdaptiveTuner,
}

/// What a pipeline knows.
#[verifier::ext_equal]
pub struct PipelineView {
    pub opts: MosaicOptions,
    pub w: int,
    pub h: int,
    pub tracker: TrackerView,
    /// The mask of the frame before.
    pub last: Option<Seq<u8>>,
    /// The number of the next frame.
    pub frame_idx: int,
    pub adaptive: AdaptiveTuner,
}

impl View for MosaicPipeline {
    type V = PipelineView;

    closed spec fn view(&self) -> PipelineView {
        PipelineView {
            opts: self.opts,
            w: self.w as int,
            h: self.h as int,
            tracker: self.tracker@,
            last: self.smoother@,
            frame_idx: self.frame_idx as int,
            adaptive: self.adaptive,
        }
    }
}

/// Whether the masks of tracks are those of frames with `len` pixels.
pub open spec fn masks_fit(t: Seq<TrackView>, len: int) -> bool {
    forall|i: int| 0 <= i < t.len() ==> (#[trigger] t[i]).mask.len() == len
}

/// What always holds of a pipeline.
pub open spec fn pipeline_ok(v: PipelineView) -> bool {
    &&& 0 < v.w
    &&& 0 < v.h
    &&& v.w * v.h <= usize::MAX
    &&& v.w + 26 <= usize::MAX
    &&& v.h + 26 <= usize::MAX
    &&& in_order(v.tracker)
    &&& masks_fit(v.tracker.tracks, v.w * v.h)
    &&& v.last is Some ==> v.last->0.len() == v.w * v.h
    &&& v.adaptive.wf()
    &&& v.frame_idx >= 0
}

/// The mask of a frame before it is smoothed: without following people, that of the people found; otherwise that of the
/// tracks, each at its spot; and the faces.
pub open spec fn raw_mask(
    v: PipelineView,
    found: Seq<PersonInstance>,
    spots: Seq<Spot>,
    hold: bool,
    faces: Seq<Region>,
) -> Seq<u8> {
    let people = if v.opts.track {
        tracks_mask(v.tracker.tracks, spots, hold, v.w, v.h, v.tracker.tracks.len() as int)
    } else {
        found_mask(found, v.opts.conf, v.w * v.h, found.len() as int)
    };
    covered(people, faces, v.w, faces.len() as int)
}

/// The mask of a frame.
pub open spec fn final_mask(
    v: PipelineView,
    found: Seq<PersonInstance>,
    spots: Seq<Spot>,
    hold: bool,
    faces: Seq<Region>,
) -> Seq<u8> {
    let raw = raw_mask(v, found, spots, hold, faces);
    if v.opts.smooth {
        smoothed(v.last, raw, v.w, v.h)
    } else {
        raw
    }
}

proof fn lemma_raw_is_masked(
    v: PipelineView,
    found: Seq<PersonInstance>,
    spots: Seq<Spot>,
    hold: bool,
    faces: Seq<Region>,
    k: int,
)
    requires
        0 <= k < raw_mask(v, found, spots, hold, faces).len(),
        raw_mask(v, found, spots, hold, faces)[k] != 0,
    ensures
        final_mask(v, found, spots, hold, faces)[k] != 0,
{
    law_smoothing_keeps(v.last, raw_mask(v, found, spots, hold, faces), v.w, v.h, k);
}

/// A person who is followed is hidden: the mask holds every pixel of every track that is where it was last seen, does not
/// fade and has not left the picture, with faces or without, smoothed or not; and a plain colour makes such a pixel black.
pub proof fn law_person_is_hidden(
    v: PipelineView,
    found: Seq<PersonInstance>,
    spots: Seq<Spot>,
    hold: bool,
    faces: Seq<Region>,
    frame: Seq<u8>,
    i: int,
    x: int,
    y: int,
)
    requires
        pipeline_ok(v),
        v.w * v.h < usize::MAX,
        v.opts.track,
        spots.len() == v.tracker.tracks.len(),
        0 <= i < spots.len(),
        !left_picture(v.tracker.tracks[i].lost, spots[i], v.w, v.h),
        spots[i].dx == 0,
        spots[i].dy == 0,
        spots[i].fade_px == 0,
        0 <= x < v.w,
        0 <= y < v.h,
        v.tracker.tracks[i].mask[cell(v.w, x, y)] != 0,
    ensures
        final_mask(v, found, spots, hold, faces)[cell(v.w, x, y)] != 0,
        composable(frame.len() as int, v.w, v.h, final_mask(v, found, spots, hold, faces), MaskStyle::Solid)
            ==> composed(frame, v.w, v.h, final_mask(v, found, spots, hold, faces), MaskStyle::Solid)[cell(v.w, x, y)]
            == 16,
{
    let n = spots.len() as int;
    let k = cell(v.w, x, y);
    lemma_cell(v.w, v.h, x, y);
    let people = tracks_mask(v.tracker.tracks, spots, hold, v.w, v.h, n);
    law_track_is_masked(v.tracker.tracks, spots, hold, v.w, v.h, n, i, k);
    law_faces_covered(people, faces, v.w, faces.len() as int, k);
    lemma_raw_is_masked(v, found, spots, hold, faces, k);
    let m = final_mask(v, found, spots, hold, faces);
    if composable(frame.len() as int, v.w, v.h, m, MaskStyle::Solid) {
        law_solid_blacks_luma(frame, v.w, v.h, m, x, y);
    }
}

/// Without following people, whoever is found with a good enough score is hidden.
pub proof fn law_found_is_masked(
    v: PipelineView,
    found: Seq<PersonInstance>,
    spots: Seq<Spot>,
    hold: bool,
    faces: Seq<Region>,
    i: int,
    k: int,
)
    requires
        pipeline_ok(v),
        !v.opts.track,
        0 <= i < found.len(),
        found[i].score >= v.opts.conf,
        0 <= k < v.w * v.h,
        k < found[i].mask@.len(),
        found[i].mask@[k] != 0,
    ensures
        final_mask(v, found, spots, hold, faces)[k] != 0,
{
    let n = found.len() as int;
    let people = found_mask(found, v.opts.conf, v.w * v.h, n);
    lemma_found_masked(found, v.opts.conf, v.w * v.h, n, i, k);
    law_faces_covered(people, faces, v.w, faces.len() as int, k);
    lemma_raw_is_masked(v, found, spots, hold, faces, k);
}

proof fn lemma_found_len(d: Seq<PersonInstance>, conf: u32, len: int, n: int)
    requires
        0 <= len,
    ensures
        found_mask(d, conf, len, n).len() == len,
    decreases n,
{
    if n > 0 {
        lemma_found_len(d, conf, len, n - 1);
    }
}

proof fn lemma_found_masked(d: Seq<PersonInstance>, conf: u32, len: int, n: int, i: int, k: int)
    requires
        0 <= i < n <= d.len(),
        d[i].score >= conf,
        0 <= k < len,
        k < d[i].mask@.len(),
        d[i].mask@[k] != 0,
    ensures
        found_mask(d, conf, len, n).len() == len,
        found_mask(d, conf, len, n)[k] != 0,
    decreases n,
{
    lemma_found_len(d, conf, len, n - 1);
    let before = found_mask(d, conf, len, n - 1);
    let m = d[n - 1].mask@;
    if i == n - 1 {
        let (a, b) = (before[k], m[k]);
        assert(b != 0 ==> a | b != 0) by (bit_vector);
    } else {
        lemma_found_masked(d, conf, len, n - 1, i, k);
        if d[n - 1].score >= conf && k < m.len() {
            let (a, b) = (before[k], m[k]);
            assert(a != 0 ==> a | b != 0) by (bit_vector);
        }
    }
}

/// Every face is hidden, in every frame.
pub proof fn law_face_is_masked(
    v: PipelineView,
    found: Seq<PersonInstance>,
    spots: Seq<Spot>,
    hold: bool,
    faces: Seq<Region>,
    i: int,
    x: int,
    y: int,
)
    requires
        pipeline_ok(v),
        v.opts.track ==> spots.len() == v.tracker.tracks.len(),
        0 <= i < faces.len(),
        faces[i].has(x, y),
        0 <= x < v.w,
        0 <= y < v.h,
    ensures
        final_mask(v, found, spots, hold, faces)[cell(v.w, x, y)] != 0,
{
    let k = cell(v.w, x, y);
    lemma_cell(v.w, v.h, x, y);
    lemma_tracks_len(v.tracker.tracks, spots, hold, v.w, v.h, v.tracker.tracks.len() as int);
    lemma_found_len(found, v.opts.conf, v.w * v.h, found.len() as int);
    let people = if v.opts.track {
        tracks_mask(v.tracker.tracks, spots, hold, v.w, v.h, v.tracker.tracks.len() as int)
    } else {
        found_mask(found, v.opts.conf, v.w * v.h, found.len() as int)
    };
    assert(faces[i].has(k % v.w, k / v.w));
    law_faces_covered(people, faces, v.w, faces.len() as int, k);
    lemma_raw_is_masked(v, found, spots, hold, faces, k);
}

/// Whether a mask holds nothing but zeros and ones.
pub open spec fn is_binary(m: Seq<u8>) -> bool {
    forall|k: int| 0 <= k < m.len() ==> #[trigger] m[k] <= 1
}

proof fn lemma_union_binary(a: Seq<u8>, b: Seq<u8>)
    requires
        is_binary(a),
        is_binary(b),
    ensures
        is_binary(union(a, b)),
{
    let u = union(a, b);
    assert forall|k: int| 0 <= k < u.len() implies #[trigger] u[k] <= 1 by {
        if k < b.len() {
            let (x, y) = (a[k], b[k]);
            assert(x <= 1);
            assert(y <= 1);
            assert(x <= 1 && y <= 1 ==> x | y <= 1) by (bit_vector);
        } else {
            assert(a[k] <= 1);
        }
    }
}

proof fn lemma_shaped_binary(m: Seq<u8>, p: Spot, hold: bool, w: int, h: int)
    requires
        0 < w,
        m.len() == w * h,
        is_binary(m),
    ensures
        is_binary(shaped(m, p, hold, w, h)),
{
    lemma_shaped_len(m, p, hold, w, h);
    let (dx, dy) = (p.dx as int, p.dy as int);
    law_binary_kept(m, w, h, around(p.at, w, h, shift_reach(dx, dy)), 0, dx, dy);
    let a = shifted(m, w, h, p.at, dx, dy);
    assert(is_binary(a));
    let n = growth(p.spread as int);
    law_binary_kept(a, w, h, around(p.shifted, w, h, n + 2), n, 0, 0);
    let b = if hold {
        dilated(a, w, h, p.shifted, n)
    } else {
        a
    };
    assert(is_binary(b));
    assert(b.len() == m.len());
    law_binary_kept(b, w, h, around(p.shifted, w, h, 3), p.fade_px as int, 0, 0);
}

proof fn lemma_tracks_binary(t: Seq<TrackView>, p: Seq<Spot>, hold: bool, w: int, h: int, n: int)
    requires
        0 < w,
        0 <= w * h,
        0 <= n <= t.len(),
        masks_fit(t, w * h),
        forall|i: int| 0 <= i < t.len() ==> is_binary((#[trigger] t[i]).mask),
    ensures
        is_binary(tracks_mask(t, p, hold, w, h, n)),
    decreases n,
{
    if n > 0 {
        lemma_tracks_binary(t, p, hold, w, h, n - 1);
        assert(t[n - 1].mask.len() == w * h);
        assert(is_binary(t[n - 1].mask));
        lemma_shaped_binary(t[n - 1].mask, p[n - 1], hold, w, h);
        lemma_union_binary(tracks_mask(t, p, hold, w, h, n - 1), shaped(t[n - 1].mask, p[n - 1], hold, w, h));
    }
}

proof fn lemma_found_binary(d: Seq<PersonInstance>, conf: u32, len: int, n: int)
    requires
        0 <= n <= d.len(),
        forall|i: int| 0 <= i < d.len() ==> is_binary((#[trigger] d[i]).mask@),
    ensures
        is_binary(found_mask(d, conf, len, n)),
    decreases n,
{
    if n > 0 {
        lemma_found_binary(d, conf, len, n - 1);
        assert(is_binary(d[n - 1].mask@));
        lemma_union_binary(found_mask(d, conf, len, n - 1), d[n - 1].mask@);
    }
}

proof fn lemma_covered_binary(m: Seq<u8>, faces: Seq<Region>, w: int, n: int)
    requires
        is_binary(m),
    ensures
        is_binary(covered(m, faces, w, n)),
    decreases n,
{
    if n > 0 {
        lemma_covered_binary(m, faces, w, n - 1);
        lemma_covered_len(m, faces, w, n - 1);
        let was = covered(m, faces, w, n - 1);
        let now = covered(m, faces, w, n);
        assert forall|k: int| 0 <= k < now.len() implies #[trigger] now[k] <= 1 by {
            assert(was[k] <= 1);
        }
    }
}

/// The mask of a frame holds nothing but zeros and ones, if the masks that it is made of do; so it can be stored.
pub proof fn law_mask_is_binary(
    v: PipelineView,
    found: Seq<PersonInstance>,
    spots: Seq<Spot>,
    hold: bool,
    faces: Seq<Region>,
)
    requires
        pipeline_ok(v),
        forall|i: int| 0 <= i < v.tracker.tracks.len() ==> is_binary((#[trigger] v.tracker.tracks[i]).mask),
        forall|i: int| 0 <= i < found.len() ==> is_binary((#[trigger] found[i]).mask@),
        v.last is Some ==> is_binary(v.last->0),
    ensures
        is_binary(raw_mask(v, found, spots, hold, faces)),
        is_binary(final_mask(v, found, spots, hold, faces)),
{
    let t = v.tracker.tracks;
    lemma_tracks_binary(t, spots, hold, v.w, v.h, t.len() as int);
    lemma_found_binary(found, v.opts.conf, v.w * v.h, found.len() as int);
    let people = if v.opts.track {
        tracks_mask(t, spots, hold, v.w, v.h, t.len() as int)
    } else {
        found_mask(found, v.opts.conf, v.w * v.h, found.len() as int)
    };
    lemma_covered_binary(people, faces, v.w, faces.len() as int);
    let raw = raw_mask(v, found, spots, hold, faces);
    if v.last is Some {
        let p = v.last->0;
        let g = whole(v.w, v.h);
        law_binary_kept(p, v.w, v.h, g, 1, 0, 0);
        reveal_with_fuel(crate::morph::grown_times, 2);
        assert(crate::morph::grown_times(p, v.w, v.h, g, 1) == crate::morph::grown(p, v.w, v.h, g));
        lemma_union_binary(raw, crate::morph::grown(p, v.w, v.h, g));
    }
}

/// The masks of tracks hold nothing but zeros and ones, whatever is found.
pub proof fn law_tracks_stay_binary(v: TrackerView, dets: Seq<PersonInstance>, high: u32, m: MatchView)
    requires
        forall|i: int| 0 <= i < v.tracks.len() ==> is_binary((#[trigger] v.tracks[i]).mask),
    ensures
        forall|i: int|
            0 <= i < advanced(v, dets, high, m).tracks.len() ==> is_binary(
                (#[trigger] advanced(v, dets, high, m).tracks[i]).mask,
            ),
{
    let who = newcomers(dets, high, m);
    let all = carried(v, dets, m) + started(v, dets, who);
    let n = v.tracks.len() as int;
    assert forall|t: int| 0 <= t < all.len() implies is_binary((#[trigger] all[t]).mask) by {
        if t < n {
            if m.taken[t] {
                law_seen_again(v.tracks[t], dets[holder(m.track_of, t, 0)], v.opts.ema);
            } else {
                assert(is_binary(v.tracks[t].mask));
            }
        } else {
            let d = dets[who[t - n]];
            let none = TrackView {
                id: v.next_id + (t - n),
                xyxy: d.xyxy,
                score: d.score,
                mask: Seq::empty(),
                lost: 0,
                fade: Fade { num: 0, den: 1 },
                ema: Seq::empty(),
            };
            law_seen_again(none, d, v.opts.ema);
        }
    }
    lemma_held_binary(all, v.opts.max_lost as int);
}

proof fn lemma_held_binary(s: Seq<TrackView>, max_lost: int)
    requires
        forall|i: int| 0 <= i < s.len() ==> is_binary((#[trigger] s[i]).mask),
    ensures
        forall|i: int| 0 <= i < held(s, max_lost).len() ==> is_binary((#[trigger] held(s, max_lost)[i]).mask),
    decreases s.len(),
{
    if s.len() > 0 {
        let r = s.drop_last();
        assert forall|i: int| 0 <= i < r.len() implies is_binary((#[trigger] r[i]).mask) by {
            assert(is_binary(s[i].mask));
        }
        lemma_held_binary(r, max_lost);
        let h = held(s, max_lost);
        assert forall|i: int| 0 <= i < h.len() implies is_binary((#[trigger] h[i]).mask) by {
            if i < held(r, max_lost).len() {
                assert(h[i] == held(r, max_lost)[i]);
            } else {
                assert(is_binary(s[s.len() - 1].mask));
            }
        }
    }
}

proof fn lemma_held_masks(s: Seq<TrackView>, max_lost: int, len: int)
    requires
        masks_fit(s, len),
    ensures
        masks_fit(held(s, max_lost), len),
    decreases s.len(),
{
    if s.len() > 0 {
        let rest = s.drop_last();
        assert forall|i: int| 0 <= i < rest.len() implies (#[trigger] rest[i]).mask.len() == len by {
            assert(rest[i] == s[i]);
        }
        lemma_held_masks(rest, max_lost, len);
        let h = held(s, max_lost);
        let g = held(rest, max_lost);
        assert forall|i: int| 0 <= i < h.len() implies (#[trigger] h[i]).mask.len() == len by {
            if i < g.len() {
                assert(h[i] == g[i]);
            } else {
                assert(h[i] == s[s.len() - 1]);
            }
        }
    }
}

proof fn lemma_masks_stay(v: TrackerView, dets: Seq<PersonInstance>, high: u32, m: MatchView, len: int)
    requires
        masks_fit(v.tracks, len),
        sound(m, v.tracks.len() as int, dets.len() as int),
        v.tracks.len() <= usize::MAX,
        forall|d: int| 0 <= d < dets.len() ==> (#[trigger] dets[d]).mask@.len() == len,
        forall|k: int| 0 <= k < newcomers(dets, high, m).len() ==> 0 <= #[trigger] newcomers(dets, high, m)[k] < dets.len(),
    ensures
        masks_fit(advanced(v, dets, high, m).tracks, len),
{
    let who = newcomers(dets, high, m);
    let all = carried(v, dets, m) + started(v, dets, who);
    let n = v.tracks.len() as int;
    assert forall|t: int| 0 <= t < all.len() implies (#[trigger] all[t]).mask.len() == len by {
        if t < n {
            if m.taken[t] {
                lemma_taken_has_holder(m, n, dets.len() as int, t);
                let d = holder(m.track_of, t, 0);
                law_seen_again(v.tracks[t], dets[d], v.opts.ema);
                assert(dets[d].mask@.len() == len);
            } else {
                assert(v.tracks[t].mask.len() == len);
            }
        } else {
            let k = t - n;
            assert(0 <= who[k] < dets.len());
            let none = TrackView {
                id: v.next_id + k,
                xyxy: dets[who[k]].xyxy,
                score: dets[who[k]].score,
                mask: Seq::empty(),
                lost: 0,
                fade: Fade { num: 0, den: 1 },
                ema: Seq::empty(),
            };
            law_seen_again(none, dets[who[k]], v.opts.ema);
            assert(dets[who[k]].mask@.len() == len);
        }
    }
    lemma_held_masks(all, v.opts.max_lost as int, len);
}

impl MosaicPipeline {
    /// What always holds of a pipeline.
    pub open spec fn wf(&self) -> bool {
        pipeline_ok(self@)
    }

    /// A pipeline at the beginning of a video with `w` by `h` pixels.
    pub fn new(opts: MosaicOptions, w: usize, h: usize) -> (r: MosaicPipeline)
        requires
            0 < w,
            0 < h,
            w * h <= usize::MAX,
            w + 26 <= usize::MAX,
            h + 26 <= usize::MAX,
        ensures
            r.wf(),
            r@ == (PipelineView {
                opts,
                w: w as int,
                h: h as int,
                tracker: TrackerView {
                    opts: TrackerOptions {
                        iou_thr: 0x3E99_999A,
                        low_iou_thr: 0x3F00_0000,
                        max_lost: 12,
                        ema: opts.mask_ema,
                        ocru: opts.ocru,
                    },
                    tracks: Seq::empty(),
                    next_id: 0,
                },
                last: None,
                frame_idx: 0,
                adaptive: first_tuner(opts.fps_micro, opts.detect_every, opts.adaptive_skip_max),
            }),
    {
        let mut t = TrackerOptions::default();
        t.ema = opts.mask_ema;
        t.ocru = opts.ocru;
        MosaicPipeline {
            opts,
            w,
            h,
            tracker: IouTracker::new(t),
            smoother: MaskSmoother::new(),
            frame_idx: 0,
            adaptive: AdaptiveTuner::new(opts.fps_micro, opts.detect_every, opts.adaptive_skip_max),
        }
    }

    /// The number of the next frame.
    pub fn frame_idx(&self) -> (n: u64)
        ensures
            n == self@.frame_idx,
    {
        self.frame_idx
    }

    /// Goes on from another frame.
    pub fn set_frame_idx(&mut self, idx: u64)
        requires
            old(self).wf(),
        ensures
            final(self).wf(),
            final(self)@ == (PipelineView { frame_idx: idx as int, ..old(self)@ }),
    {
        self.frame_idx = idx;
    }

    /// Which of the next `n` frames are looked into.
    pub fn need(&self, n: usize) -> (r: Vec<usize>)
        requires
            self.wf(),
            self@.frame_idx + n <= u64::MAX,
        ensures
            r@ == looked_into(self@.frame_idx, self@.adaptive.every as int, n as int),
    {
        need(self.frame_idx, self.adaptive.effective_every(), n)
    }

    /// The tracks.
    pub fn tracks(&self) -> (t: &Vec<Track>)
        ensures
            views(t@) == self@.tracker.tracks,
    {
        self.tracker.tracks()
    }

    /// Follows people into the next frame: those found in it, or nobody, if it is not looked into.
    pub fn follow(&mut self, found: &Vec<PersonInstance>, expected: &Vec<Vec<u32>>, last: &Vec<Vec<u32>>) -> (report: TrackReport)
        requires
            old(self).wf(),
            old(self)@.tracker.next_id + found@.len() <= u64::MAX,
            old(self)@.tracker.opts.max_lost < u32::MAX,
            forall|d: int| 0 <= d < found@.len() ==> (#[trigger] found@[d]).mask@.len() == old(self)@.w * old(self)@.h,
            table_ok(expected@, old(self)@.tracker.tracks.len() as int, found@.len() as int),
            old(self)@.tracker.opts.ocru ==> table_ok(last@, old(self)@.tracker.tracks.len() as int, found@.len() as int),
        ensures
            final(self).wf(),
            ({
                let m = matched(old(self)@.tracker, found@, old(self)@.opts.conf, table(expected@), table(last@));
                &&& final(self)@ == (PipelineView {
                    tracker: advanced(old(self)@.tracker, found@, old(self)@.opts.conf, m),
                    ..old(self)@
                })
                &&& report.fates@ == Seq::new(
                    old(self)@.tracker.tracks.len(),
                    |t: int| fate_of(old(self)@.tracker, m, t),
                )
                &&& ints(report.born@) == newcomers(found@, old(self)@.opts.conf, m)
            }),
    {
        let ghost v = self@;
        let conf: u32 = self.opts.conf;
        assert forall|t: int| 0 <= t < v.tracker.tracks.len() implies (#[trigger] v.tracker.tracks[t]).lost < u32::MAX by {}
        proof {
            self.tracker.lemma_len();
        }
        let report = self.tracker.update_with_motion(found, conf, expected, last);
        proof {
            let m = matched(v.tracker, found@, conf, table(expected@), table(last@));
            assert(found.len() == found@.len());
            law_matching(
                v.tracker.tracks.len() as int,
                scores_of(found@),
                conf,
                table(expected@),
                table(last@),
                Strictness {
                    high: v.tracker.opts.iou_thr,
                    low: v.tracker.opts.low_iou_thr,
                    rescue: v.tracker.opts.ocru,
                },
            );
            lemma_newcomers_bound(found@, conf, m);
            lemma_masks_stay(v.tracker, found@, conf, m, v.w * v.h);
        }
        report
    }

    /// The mask of the next frame. `found` are the people found, which count if people are not followed; `spots` is where
    /// the tracks are; `hold` is whether the frame was not looked into; `faces` are the parts to cover for faces.
    pub fn mask(&mut self, found: &Vec<PersonInstance>, spots: &Vec<Spot>, hold: bool, faces: &Vec<Region>) -> (m: Vec<u8>)
        requires
            old(self).wf(),
            old(self)@.opts.track ==> spots@.len() == old(self)@.tracker.tracks.len(),
            forall|i: int| 0 <= i < spots@.len() ==> spot_ok(#[trigger] spots@[i], old(self)@.w, old(self)@.h),
            forall|i: int|
                0 <= i < faces@.len() ==> (#[trigger] faces@[i]).x2 <= old(self)@.w && faces@[i].y2 <= old(self)@.h,
        ensures
            final(self).wf(),
            m@.len() == old(self)@.w * old(self)@.h,
            ({
                let raw = raw_mask(old(self)@, found@, spots@, hold, faces@);
                &&& m@ == final_mask(old(self)@, found@, spots@, hold, faces@)
                &&& final(self)@ == (PipelineView {
                    last: if old(self)@.opts.smooth {
                        Some(raw)
                    } else {
                        old(self)@.last
                    },
                    ..old(self)@
                })
            }),
    {
        let (w, h) = (self.w, self.h);
        let mut m: Vec<u8> = if self.opts.track {
            let t = self.tracker.tracks();
            assert forall|i: int| 0 <= i < t@.len() implies (#[trigger] t@[i]).mask@.len() == w * h by {
                assert(views(t@)[i].mask.len() == w * h);
            }
            mask_of_tracks(t, spots, hold, w, h)
        } else {
            mask_of_found(found, self.opts.conf, w * h)
        };
        cover_faces(m.as_mut_slice(), faces, w, h);
        let ghost raw = m@;
        proof {
            if self.opts.track {
                lemma_tracks_len(self@.tracker.tracks, spots@, hold, w as int, h as int, spots@.len() as int);
            }
            lemma_covered_len(
                if self.opts.track {
                    tracks_mask(self@.tracker.tracks, spots@, hold, w as int, h as int, spots@.len() as int)
                } else {
                    found_mask(found@, self.opts.conf, w * h, found@.len() as int)
                },
                faces@,
                w as int,
                faces@.len() as int,
            );
        }
        let smooth: bool = self.opts.smooth;
        smooth_mask(m.as_mut_slice(), &mut self.smoother, smooth, w, h);
        m
    }

    /// Goes on behind the next `n` frames, which took `busy_ns` nanoseconds to look into; it is `now` (in nanoseconds).
    /// Returns what is to be done if the machine is too slow.
    pub fn advance(&mut self, n: usize, busy_ns: u64, now: u64) -> (a: TuneAction)
        requires
            old(self).wf(),
            old(self)@.frame_idx + n <= u64::MAX,
            old(self)@.adaptive.frames + n <= u64::MAX,
            old(self)@.adaptive.busy_ns + busy_ns <= u64::MAX,
            old(self)@.adaptive.window_start is Some ==> old(self)@.adaptive.window_start->0 <= now,
        ensures
            final(self).wf(),
            (final(self)@.adaptive, a) == noted(old(self)@.adaptive, n as int, busy_ns as int, now as int),
            final(self)@ == (PipelineView {
                frame_idx: old(self)@.frame_idx + n,
                adaptive: final(self)@.adaptive,
                ..old(self)@
            }),
    {
        let a = self.adaptive.note(n as u64, busy_ns, now);
        self.frame_idx = self.frame_idx + n as u64;
        a
    }
}

// Pictures to show.
/// The size of the pictures that are shown of a `w` by `h` video.
pub open spec fn shown_size(w: int, h: int) -> (int, int) {
    let dw = if w < PREVIEW_WIDTH {
        w
    } else {
        PREVIEW_WIDTH as int
    };
    let dh = dw * h / w;
    (dw, if dh < 2 {
        2
    } else {
        dh - dh % 2
    })
}

/// The size of the pictures that are shown of a `w` by `h` video: at most 480 pixels wide, and an even number of pixels
/// high.
pub fn preview_size(w: usize, h: usize) -> (r: (usize, usize))
    requires
        0 < w,
        480 * h <= usize::MAX,
    ensures
        r.0 == shown_size(w as int, h as int).0,
        r.1 == shown_size(w as int, h as int).1,
{
    let dw: usize = if w < PREVIEW_WIDTH { w } else { PREVIEW_WIDTH };
    assert(dw * h <= 480 * h) by (nonlinear_arith)
        requires
            dw <= 480,
            0 <= h,
    ;
    let dh: usize = dw * h / w;
    (dw, if dh < 2 { 2 } else { dh - dh % 2 })
}

/// Whether a frame of `len` bytes can be shown: it holds all its pixels, and the sizes of its pictures can be counted.
pub open spec fn showable(len: int, w: int, h: int) -> bool {
    let s = shown_size(w, h);
    &&& 0 < w
    &&& 0 < h
    &&& 480 * w <= usize::MAX
    &&& 480 * h <= usize::MAX
    &&& holds_frame(len, w, h)
    &&& s.0 * s.1 * 4 <= usize::MAX
    &&& s.1 * h <= usize::MAX
}

/// Whether a frame of `len` bytes can be shown.
pub fn can_show(len: usize, w: usize, h: usize) -> (r: bool)
    ensures
        r == showable(len as int, w as int, h as int),
{
    if w == 0 || h == 0 || w > usize::MAX / 480 || h > usize::MAX / 480 {
        return false;
    }
    let (dw, dh) = preview_size(w, h);
    proof {
        let m: int = u64::MAX as int;
        assert(m * m <= u128::MAX);
        assert(0 <= dw * dh <= 480 * m) by (nonlinear_arith)
            requires
                0 <= dw <= 480,
                0 <= dh <= m,
        ;
        assert(0 <= dh * h <= m * m) by (nonlinear_arith)
            requires
                0 <= dh <= m,
                0 <= h <= m,
        ;
    }
    let max: u128 = usize::MAX as u128;
    does_hold_frame(len, w, h) && dw as u128 * dh as u128 * 4 <= max && dh as u128 * h as u128 <= max
}

/// The picture that is shown of a frame.
pub fn scale_preview(frame: &[u8], w: usize, h: usize) -> (r: Vec<u8>)
    requires
        showable(frame@.len() as int, w as int, h as int),
    ensures
        r@ == picture(
            frame@,
            w as int,
            h as int,
            shown_size(w as int, h as int).0,
            shown_size(w as int, h as int).1,
        ),
{
    let (dw, dh) = preview_size(w, h);
    assert(dw * w <= 480 * w) by (nonlinear_arith)
        requires
            dw <= 480,
            0 <= w,
    ;
    nv12_to_rgba_scaled(frame, w, h, dw, dh)
}

/// The pictures of a frame before and after it was changed.
pub struct Before {
    pub original: Vec<u8>,
    pub processed: Vec<u8>,
}

/// Applies a mask to a frame with a compositor, and returns the pictures of the frame before and after, if they are wanted.
pub fn compose_frame<C: ComposeBackend>(
    composer: &mut C,
    frame: &mut [u8],
    w: usize,
    h: usize,
    mask: &[u8],
    style: &MaskStyle,
    wants: bool,
) -> (r: Option<Before>)
    requires
        composable(old(frame)@.len() as int, w as int, h as int, mask@, *style),
        wants ==> showable(old(frame)@.len() as int, w as int, h as int),
    ensures
        final(frame)@.len() == old(frame)@.len(),
        old(composer).makes(old(frame)@, w as int, h as int, mask@, *style, final(frame)@),
        r is Some <==> wants,
        r is Some ==> ({
            let s = shown_size(w as int, h as int);
            &&& r->0.original@ == picture(old(frame)@, w as int, h as int, s.0, s.1)
            &&& r->0.processed@ == picture(final(frame)@, w as int, h as int, s.0, s.1)
        }),
{
    if wants {
        let original = scale_preview(frame, w, h);
        composer.apply(frame, w, h, mask, style);
        let processed = scale_preview(frame, w, h);
        Some(Before { original, processed })
    } else {
        composer.apply(frame, w, h, mask, style);
        None
    }
}

/// Which frames of a batch are looked into: in their order, exactly those whose number in the video is a multiple of `every`.
pub proof fn law_looked_into(first: int, every: int, n: int)
    requires
        0 <= n <= usize::MAX,
    ensures
        ({
            let l = looked_into(first, every, n);
            &&& forall|a: int, b: int| 0 <= a < b < l.len() ==> #[trigger] l[a] < #[trigger] l[b]
            &&& forall|a: int| 0 <= a < l.len() ==> #[trigger] l[a] < n
            &&& forall|k: int| 0 <= k < n ==> (#[trigger] l.contains(k as usize) <==> (first + k) % every == 0)
        }),
    decreases n,
{
    if n > 0 {
        law_looked_into(first, every, n - 1);
        let was = looked_into(first, every, n - 1);
        let l = looked_into(first, every, n);
        assert forall|k: int| 0 <= k < n implies (#[trigger] l.contains(k as usize) <==> (first + k) % every == 0) by {
            if was.contains(k as usize) {
                let i = choose|i: int| 0 <= i < was.len() && was[i] == k as usize;
                assert(l[i] == k as usize);
            }
            if l.contains(k as usize) {
                let i = choose|i: int| 0 <= i < l.len() && l[i] == k as usize;
                if i < was.len() {
                    assert(was[i] == k as usize);
                }
            }
            if k == n - 1 && (first + k) % every == 0 {
                assert(l[l.len() - 1] == k as usize);
            }
        }
    }
}

/// What a tuner does: nothing before two seconds have gone by, and nothing ever if there is no room. A window is too slow if looking into
/// frames took more than seven tenths of its time and there were fewer than 85 hundredths of the frames wanted. After two such windows in
/// a row batches are given up, if they have not been; then one more frame is skipped, up to the most. A window that is not too slow starts
/// the count anew.
pub proof fn law_tuner(t: AdaptiveTuner, frames: u64, busy: u64, now: u64)
    requires
        t.wf(),
        t.frames + frames <= u64::MAX,
        t.busy_ns + busy <= u64::MAX,
        t.window_start is Some ==> t.window_start->0 <= now,
    ensures
        ({
            let (u, a) = noted(t, frames as int, busy as int, now as int);
            let start = if t.window_start is Some { t.window_start->0 } else { now };
            let e = now - start;
            let over = e >= 2_000_000_000;
            let slow = 10 * (t.busy_ns + busy) > 7 * e && (t.frames + frames) * 100_000_000_000_000_000 < 85 * t.target_micro * e;
            &&& u.max_every == t.max_every && u.enabled == t.enabled && u.target_micro == t.target_micro
            &&& !over ==> a is Nothing && u.every == t.every && u.starved == t.starved && u.batch_reduced == t.batch_reduced && u.window_start
                == Some(start) && u.frames == t.frames + frames && u.busy_ns == t.busy_ns + busy
            &&& over ==> u.window_start == Some(now) && u.frames == 0 && u.busy_ns == 0
            &&& over && !t.enabled ==> a is Nothing && u.every == t.every && u.batch_reduced == t.batch_reduced
            &&& over && t.enabled && !slow ==> a is Nothing && u.starved == 0 && u.every == t.every && u.batch_reduced == t.batch_reduced
            &&& over && t.enabled && slow && t.starved == 0 ==> a is Nothing && u.starved == 1 && u.every == t.every && u.batch_reduced
                == t.batch_reduced
            &&& over && t.enabled && slow && t.starved == 1 && !t.batch_reduced ==> a is ReduceBatch && u.batch_reduced && u.every == t.every
                && u.starved == 0
            &&& over && t.enabled && slow && t.starved == 1 && t.batch_reduced && t.every < t.max_every ==> a is SkipIncreased && u.every
                == t.every + 1 && u.batch_reduced && u.starved == 0
            &&& over && t.enabled && slow && t.starved == 1 && t.batch_reduced && t.every == t.max_every ==> a is Nothing && u.every == t.every
                && u.batch_reduced && u.starved == 0
        }),
{
}

/// A tuner at the beginning: it looks into one frame in so many, at least into every one, and has room if the most is more than that; a
/// video that does not say its rate has 30 frames per second.
pub proof fn law_first_tuner(fps_micro: u32, base: u32, max: u32)
    ensures
        ({
            let t = first_tuner(fps_micro, base, max);
            &&& base > 0 ==> t.every == base
            &&& base == 0 ==> t.every == 1
            &&& t.enabled <==> max > t.every
            &&& t.enabled ==> t.max_every == max
            &&& fps_micro > 0 ==> t.target_micro == fps_micro
            &&& fps_micro == 0 ==> t.target_micro == 30_000_000
            &&& t.starved == 0 && !t.batch_reduced && t.window_start is None && t.frames == 0 && t.busy_ns == 0
        }),
{
}

/// A track has left the picture if it has been missing for more than three frames and its box was within twelve pixels of the edge.
pub proof fn law_left_picture(lost: int, p: Spot, w: int, h: int)
    ensures
        left_picture(lost, p, w, h) <==> lost > 3 && (p.edge[0] < 12 || p.edge[1] < 12 || p.edge[2] > w - 12 || p.edge[3] > h - 12),
{
}

/// The mask of a track is first moved with the track, then grown near where it is now, by 6 to 24 pixels, in a frame that is not looked into,
/// and then shrunk there as far as it has faded.
pub proof fn law_shaped(m: Seq<u8>, p: Spot, hold: bool, w: int, h: int)
    ensures
        ({
            let moved = shifted(m, w, h, p.at, p.dx as int, p.dy as int);
            let by = if p.spread < 6 { 6 } else if p.spread > 24 { 24 } else { p.spread as int };
            let grown = dilated(moved, w, h, p.shifted, by);
            &&& !hold && p.fade_px == 0 ==> shaped(m, p, hold, w, h) == moved
            &&& hold && p.fade_px == 0 ==> shaped(m, p, hold, w, h) == grown
            &&& !hold && p.fade_px > 0 ==> shaped(m, p, hold, w, h) == eroded(moved, w, h, p.shifted, p.fade_px as int)
            &&& hold && p.fade_px > 0 ==> shaped(m, p, hold, w, h) == eroded(grown, w, h, p.shifted, p.fade_px as int)
        }),
{
}

/// The mask of tracks is set exactly where the mask of a track that has not left the picture is, as it is shown.
pub proof fn law_tracks_mask(t: Seq<TrackView>, p: Seq<Spot>, hold: bool, w: int, h: int, n: int, k: int)
    requires
        0 <= n <= t.len(),
        0 <= k < w * h,
        forall|i: int| 0 <= i < n ==> (#[trigger] t[i]).mask.len() == w * h,
    ensures
        tracks_mask(t, p, hold, w, h, n).len() == w * h,
        tracks_mask(t, p, hold, w, h, n)[k] != 0 <==> exists|i: int|
            0 <= i < n && !left_picture((#[trigger] t[i]).lost, p[i], w, h) && shaped(t[i].mask, p[i], hold, w, h)[k] != 0,
    decreases n,
{
    if n > 0 {
        law_tracks_mask(t, p, hold, w, h, n - 1, k);
        let was = tracks_mask(t, p, hold, w, h, n - 1);
        let m = shaped(t[n - 1].mask, p[n - 1], hold, w, h);
        lemma_shaped_len(t[n - 1].mask, p[n - 1], hold, w, h);
        crate::track::law_union(was, m, k);
        if was[k] != 0 {
            let i = choose|i: int|
                0 <= i < n - 1 && !left_picture((#[trigger] t[i]).lost, p[i], w, h) && shaped(t[i].mask, p[i], hold, w, h)[k] != 0;
            assert(!left_picture(t[i].lost, p[i], w, h) && shaped(t[i].mask, p[i], hold, w, h)[k] != 0);
        }
        if !left_picture(t[n - 1].lost, p[n - 1], w, h) && m[k] != 0 {
            assert(shaped(t[n - 1].mask, p[n - 1], hold, w, h)[k] != 0);
        }
    }
}

/// The mask of people found is set exactly where the mask of one with a score of at least `conf` is.
pub proof fn law_found_mask(d: Seq<PersonInstance>, conf: u32, len: int, n: int, k: int)
    requires
        0 <= n <= d.len(),
        0 <= k < len,
    ensures
        found_mask(d, conf, len, n).len() == len,
        found_mask(d, conf, len, n)[k] != 0 <==> exists|i: int|
            0 <= i < n && (#[trigger] d[i]).score >= conf && k < d[i].mask@.len() && d[i].mask@[k] != 0,
    decreases n,
{
    if n > 0 {
        law_found_mask(d, conf, len, n - 1, k);
        let was = found_mask(d, conf, len, n - 1);
        crate::track::law_union(was, d[n - 1].mask@, k);
        if was[k] != 0 {
            let i = choose|i: int| 0 <= i < n - 1 && (#[trigger] d[i]).score >= conf && k < d[i].mask@.len() && d[i].mask@[k] != 0;
            assert(d[i].score >= conf);
        }
        if d[n - 1].score >= conf && k < d[n - 1].mask@.len() && d[n - 1].mask@[k] != 0 {
            assert(d[n - 1].score >= conf);
        }
    }
}

/// A mask after faces have been covered is set exactly where it was set before or a face is covered.
pub proof fn law_covered(m: Seq<u8>, faces: Seq<Region>, w: int, h: int, n: int, x: int, y: int)
    requires
        0 <= n <= faces.len(),
        m.len() == w * h,
        0 <= x < w,
        0 <= y < h,
    ensures
        covered(m, faces, w, n).len() == m.len(),
        covered(m, faces, w, n)[y * w + x] != 0 <==> m[y * w + x] != 0 || exists|i: int|
            0 <= i < n && (#[trigger] faces[i]).x1 <= x < faces[i].x2 && faces[i].y1 <= y < faces[i].y2,
    decreases n,
{
    if n > 0 {
        law_covered(m, faces, w, h, n - 1, x, y);
        crate::compose::law_filled(covered(m, faces, w, n - 1), w, h, faces[n - 1], 1, x, y);
        if exists|i: int| 0 <= i < n - 1 && (#[trigger] faces[i]).x1 <= x < faces[i].x2 && faces[i].y1 <= y < faces[i].y2 {
            let i = choose|i: int| 0 <= i < n - 1 && (#[trigger] faces[i]).x1 <= x < faces[i].x2 && faces[i].y1 <= y < faces[i].y2;
            assert(faces[i].x1 <= x < faces[i].x2);
        }
        if faces[n - 1].x1 <= x < faces[n - 1].x2 && faces[n - 1].y1 <= y < faces[n - 1].y2 {
            assert(faces[n - 1].x1 <= x);
        }
    }
}

/// The boxes of people found are, in their order, those of the people with a score of at least `conf`. `at` are their places.
pub proof fn law_boxes_of_found(d: Seq<PersonInstance>, conf: u32, n: int) -> (at: Seq<int>)
    requires
        0 <= n <= d.len(),
    ensures
        at.len() == boxes_upto(d, conf, n).len(),
        forall|i: int| 0 <= i < at.len() ==> 0 <= #[trigger] at[i] < n && boxes_upto(d, conf, n)[i] == d[at[i]].xyxy && d[at[i]].score >= conf,
        forall|i: int, j: int| 0 <= i < j < at.len() ==> #[trigger] at[i] < #[trigger] at[j],
        forall|k: int| 0 <= k < n && (#[trigger] d[k]).score >= conf ==> at.contains(k),
    decreases n,
{
    if n <= 0 {
        Seq::empty()
    } else {
        let was = law_boxes_of_found(d, conf, n - 1);
        let at = if d[n - 1].score >= conf {
            was.push(n - 1)
        } else {
            was
        };
        assert forall|k: int| 0 <= k < n && (#[trigger] d[k]).score >= conf implies at.contains(k) by {
            if k < n - 1 {
                assert(was.contains(k));
                let i = choose|i: int| 0 <= i < was.len() && was[i] == k;
                assert(at[i] == k);
            } else {
                assert(at[at.len() - 1] == k);
            }
        }
        at
    }
}

/// The mask of a frame, before it is smoothed, is set exactly where that of the people is or a face is covered: that of the tracks, if people
/// are followed, and else that of the people found. It is smoothed if that is wanted.
pub proof fn law_frame_mask(v: PipelineView, found: Seq<PersonInstance>, spots: Seq<Spot>, hold: bool, faces: Seq<Region>, x: int, y: int)
    requires
        pipeline_ok(v),
        0 <= x < v.w,
        0 <= y < v.h,
    ensures
        ({
            let raw = raw_mask(v, found, spots, hold, faces);
            let k = y * v.w + x;
            let people = if v.opts.track {
                tracks_mask(v.tracker.tracks, spots, hold, v.w, v.h, v.tracker.tracks.len() as int)
            } else {
                found_mask(found, v.opts.conf, v.w * v.h, found.len() as int)
            };
            &&& raw.len() == v.w * v.h
            &&& raw[k] != 0 <==> people[k] != 0 || exists|i: int|
                0 <= i < faces.len() && (#[trigger] faces[i]).x1 <= x < faces[i].x2 && faces[i].y1 <= y < faces[i].y2
            &&& v.opts.smooth ==> final_mask(v, found, spots, hold, faces) == smoothed(v.last, raw, v.w, v.h)
            &&& !v.opts.smooth ==> final_mask(v, found, spots, hold, faces) == raw
        }),
{
    crate::grid::lemma_cell(v.w, v.h, x, y);
    let k = y * v.w + x;
    let people = if v.opts.track {
        tracks_mask(v.tracker.tracks, spots, hold, v.w, v.h, v.tracker.tracks.len() as int)
    } else {
        found_mask(found, v.opts.conf, v.w * v.h, found.len() as int)
    };
    law_found_mask(found, v.opts.conf, v.w * v.h, found.len() as int, k);
    law_tracks_mask(v.tracker.tracks, spots, hold, v.w, v.h, v.tracker.tracks.len() as int, k);
    law_covered(people, faces, v.w, v.h, faces.len() as int, x, y);
}

/// The size of the pictures that are shown: as wide as the video, but at most 480 pixels; as high as keeps the shape, rounded down to an even
/// number, but at least 2.
pub proof fn law_shown_size(w: int, h: int)
    requires
        0 < w,
        0 <= h,
    ensures
        w <= 480 ==> shown_size(w, h).0 == w,
        w >= 480 ==> shown_size(w, h).0 == 480,
        shown_size(w, h).1 % 2 == 0,
        shown_size(w, h).1 >= 2,
        shown_size(w, h).1 > 2 ==> shown_size(w, h).1 <= shown_size(w, h).0 * h / w < shown_size(w, h).1 + 2,
        shown_size(w, h).1 == 2 ==> shown_size(w, h).0 * h / w < 4,
{
}

} // verus!
