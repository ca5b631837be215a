//! Which detection belongs to which track.
//!
//! Overlaps are given by their keys (see [`crate::rank`]): `m[t][d]` is the overlap of track `t` and detection
//! `d`. Good detections are matched first, best first, each to the free track that it overlaps most; then the
//! poor ones, to what is left; at last, if wanted, each track that is still free is matched by where it was
//! last seen.
use crate::rank::{ints, law_ranked_upto, rank, ranked};
use vstd::prelude::*;

verus! {

/// The overlaps of a table.
pub open spec fn table(m: Seq<Vec<u32>>) -> Seq<Seq<u32>> {
    m.map_values(|r: Vec<u32>| r@)
}

/// Whether a table has a row for each of `tracks` tracks, and each row an overlap for each of `dets` detections.
pub open spec fn table_ok(m: Seq<Vec<u32>>, tracks: int, dets: int) -> bool {
    m.len() == tracks && forall|t: int| 0 <= t < tracks ==> (#[trigger] m[t])@.len() == dets
}

/// What has been matched: which tracks are taken, and the track of each detection.
#[verifier::ext_equal]
pub struct MatchView {
    pub taken: Seq<bool>,
    pub track_of: Seq<Option<usize>>,
}

/// What has been matched.
pub struct Matching {
    pub taken: Vec<bool>,
    pub track_of: Vec<Option<usize>>,
}

impl View for Matching {
    type V = MatchView;

    open spec fn view(&self) -> MatchView {
        MatchView { taken: self.taken@, track_of: self.track_of@ }
    }
}

/// Nothing has been matched yet.
pub open spec fn unmatched(tracks: int, dets: int) -> MatchView {
    MatchView {
        taken: Seq::new(tracks as nat, |t: int| false),
        track_of: Seq::new(dets as nat, |d: int| None),
    }
}

/// Among the first `n` tracks, the free one that detection `d` overlaps most, the first of equals; the overlap
/// is at least `thr` and more than none.
pub open spec fn best_track(m: Seq<Seq<u32>>, taken: Seq<bool>, d: int, thr: u32, n: int) -> Option<usize>
    decreases n,
{
    if n <= 0 {
        None
    } else {
        let t = n - 1;
        let b = best_track(m, taken, d, thr, t);
        let bar = if b is Some {
            m[b->0 as int][d]
        } else {
            0
        };
        if !taken[t] && m[t][d] > bar && m[t][d] >= thr {
            Some(t as usize)
        } else {
            b
        }
    }
}

/// The matching with detection `d` given to the track that suits it best, if there is one.
pub open spec fn matched_one(v: MatchView, m: Seq<Seq<u32>>, d: int, thr: u32) -> MatchView {
    match best_track(m, v.taken, d, thr, v.taken.len() as int) {
        Some(t) => MatchView {
            taken: v.taken.update(t as int, true),
            track_of: v.track_of.update(d, Some(t)),
        },
        None => v,
    }
}

/// The matching after the detections of a list have been given to tracks, one after the other.
pub open spec fn matched_all(v: MatchView, m: Seq<Seq<u32>>, list: Seq<int>, thr: u32) -> MatchView
    decreases list.len(),
{
    if list.len() == 0 {
        v
    } else {
        matched_one(matched_all(v, m, list.drop_last(), thr), m, list.last(), thr)
    }
}

/// Among the first `n` detections of a list, the one without a track that track `t` overlaps most, the first of
/// equals; the overlap is at least `thr`.
pub open spec fn best_det(
    o: Seq<Seq<u32>>,
    track_of: Seq<Option<usize>>,
    t: int,
    list: Seq<int>,
    thr: u32,
    n: int,
) -> Option<usize>
    decreases n,
{
    if n <= 0 {
        None
    } else {
        let d = list[n - 1];
        let b = best_det(o, track_of, t, list, thr, n - 1);
        if track_of[d] is None && o[t][d] >= thr && (b is None || o[t][d] > o[t][b->0 as int]) {
            Some(d as usize)
        } else {
            b
        }
    }
}

/// The matching with track `t`, if it is free, given to the detection that suits it best.
pub open spec fn rescued_one(v: MatchView, o: Seq<Seq<u32>>, t: int, list: Seq<int>, thr: u32) -> MatchView {
    if v.taken[t] {
        v
    } else {
        match best_det(o, v.track_of, t, list, thr, list.len() as int) {
            Some(d) => MatchView {
                taken: v.taken.update(t, true),
                track_of: v.track_of.update(d as int, Some(t as usize)),
            },
            None => v,
        }
    }
}

/// The matching after the first `n` tracks have been given to detections, one after the other.
pub open spec fn rescued_all(v: MatchView, o: Seq<Seq<u32>>, n: int, list: Seq<int>, thr: u32) -> MatchView
    decreases n,
{
    if n <= 0 {
        v
    } else {
        rescued_one(rescued_all(v, o, n - 1, list, thr), o, n - 1, list, thr)
    }
}

/// The detections of a list whose score is at least `high` (`good`), or below it (`!good`).
pub open spec fn graded(list: Seq<int>, scores: Seq<u32>, high: u32, good: bool) -> Seq<int>
    decreases list.len(),
{
    if list.len() == 0 {
        Seq::empty()
    } else if (scores[list.last()] >= high) == good {
        graded(list.drop_last(), scores, high, good).push(list.last())
    } else {
        graded(list.drop_last(), scores, high, good)
    }
}

/// How strict the matching is.
#[derive(Debug, Clone, Copy, PartialEq, Eq, Structural)]
pub struct Strictness {
    /// The least overlap of a good detection, and of a track with where it was last seen.
    pub high: u32,
    /// The least overlap of a poor detection.
    pub low: u32,
    /// Whether tracks are matched by where they were last seen.
    pub rescue: bool,
}

/// The matching of `n` tracks and the detections with the given scores: `m` are the overlaps with where the
/// tracks are expected, `o` those with where they were last seen.
pub open spec fn matching(
    n: int,
    scores: Seq<u32>,
    high: u32,
    m: Seq<Seq<u32>>,
    o: Seq<Seq<u32>>,
    k: Strictness,
) -> MatchView {
    let good = graded(ranked(scores), scores, high, true);
    let poor = graded(ranked(scores), scores, high, false);
    let v0 = unmatched(n, scores.len() as int);
    let v1 = matched_all(v0, m, good, k.high);
    let v2 = matched_all(v1, m, poor, k.low);
    if k.rescue {
        rescued_all(v2, o, n, good, k.high)
    } else {
        v2
    }
}

/// Whether a matching is sound: it has the right sizes, a track is taken if and only if a detection has it, and no
/// two detections have the same track.
pub open spec fn sound(v: MatchView, tracks: int, dets: int) -> bool {
    &&& v.taken.len() == tracks
    &&& v.track_of.len() == dets
    &&& forall|d: int| 0 <= d < dets && (#[trigger] v.track_of[d]) is Some ==> v.track_of[d]->0 < tracks
        && v.taken[v.track_of[d]->0 as int]
    &&& forall|d: int, e: int|
        0 <= d < e < dets && (#[trigger] v.track_of[d]) is Some ==> v.track_of[d] != (#[trigger] v.track_of[e])
    &&& forall|t: int|
        0 <= t < tracks && #[trigger] v.taken[t] ==> exists|d: int|
            0 <= d < dets && v.track_of[d] == Some(t as usize)
}

proof fn lemma_best_track(m: Seq<Seq<u32>>, taken: Seq<bool>, d: int, thr: u32, n: int)
    requires
        0 <= n <= taken.len() <= usize::MAX,
    ensures
        ({
            let b = best_track(m, taken, d, thr, n);
            &&& b is Some ==> b->0 < n && !taken[b->0 as int] && m[b->0 as int][d] >= thr && m[b->0 as int][d] > 0
            &&& b is Some ==> forall|t: int|
                0 <= t < n && !(#[trigger] taken[t]) ==> m[t][d] <= m[b->0 as int][d] && (t < b->0 ==> m[t][d]
                    < m[b->0 as int][d])
            &&& b is None ==> forall|t: int|
                0 <= t < n && !(#[trigger] taken[t]) ==> m[t][d] < thr || m[t][d] == 0
        }),
    decreases n,
{
    if n > 0 {
        lemma_best_track(m, taken, d, thr, n - 1);
    }
}

proof fn lemma_best_det(o: Seq<Seq<u32>>, track_of: Seq<Option<usize>>, t: int, list: Seq<int>, thr: u32, n: int)
    requires
        0 <= n <= list.len(),
        track_of.len() <= usize::MAX,
        forall|i: int| 0 <= i < list.len() ==> 0 <= #[trigger] list[i] < track_of.len(),
    ensures
        ({
            let b = best_det(o, track_of, t, list, thr, n);
            &&& b is Some ==> b->0 < track_of.len() && track_of[b->0 as int] is None && o[t][b->0 as int] >= thr
                && list.contains(b->0 as int)
            &&& b is None ==> forall|i: int|
                0 <= i < n && track_of[#[trigger] list[i]] is None ==> o[t][list[i]] < thr
            &&& b is Some ==> forall|i: int|
                0 <= i < n && track_of[#[trigger] list[i]] is None ==> o[t][list[i]] <= o[t][b->0 as int]
        }),
    decreases n,
{
    if n > 0 {
        lemma_best_det(o, track_of, t, list, thr, n - 1);
        assert(list.contains(list[n - 1]));
    }
}

proof fn lemma_give(v: MatchView, tracks: int, dets: int, t: int, d: int)
    requires
        sound(v, tracks, dets),
        0 <= t < tracks <= usize::MAX,
        0 <= d < dets,
        !v.taken[t],
        v.track_of[d] is None,
    ensures
        sound(
            MatchView { taken: v.taken.update(t, true), track_of: v.track_of.update(d, Some(t as usize)) },
            tracks,
            dets,
        ),
{
    let w = MatchView { taken: v.taken.update(t, true), track_of: v.track_of.update(d, Some(t as usize)) };
    assert forall|u: int| 0 <= u < tracks && #[trigger] w.taken[u] implies exists|e: int|
        0 <= e < dets && w.track_of[e] == Some(u as usize) by {
        if u == t {
            assert(w.track_of[d] == Some(u as usize));
        } else {
            assert(v.taken[u]);
            let e = choose|e: int| 0 <= e < dets && v.track_of[e] == Some(u as usize);
            assert(w.track_of[e] == Some(u as usize));
        }
    }
    assert forall|a: int, e: int|
        0 <= a < e < dets && (#[trigger] w.track_of[a]) is Some implies w.track_of[a] != (#[trigger] w.track_of[e]) by {
        if a == d {
            if v.track_of[e] is Some {
                assert(v.taken[v.track_of[e]->0 as int]);
            }
        } else if e == d {
            assert(v.taken[v.track_of[a]->0 as int]);
        }
    }
}

proof fn lemma_unmatched(tracks: int, dets: int)
    requires
        0 <= tracks,
        0 <= dets,
    ensures
        sound(unmatched(tracks, dets), tracks, dets),
{
}

/// A list of detections that are in range and of which none occurs twice.
pub open spec fn list_ok(list: Seq<int>, dets: int) -> bool {
    &&& forall|i: int| 0 <= i < list.len() ==> 0 <= #[trigger] list[i] < dets
    &&& list.no_duplicates()
}

/// Whether a detection overlaps track `t` more than track `u`, or as much and `t` comes first.
spec fn prefers(m: Seq<Seq<u32>>, d: int, t: int, u: int) -> bool {
    m[t][d] > m[u][d] || (m[t][d] == m[u][d] && t < u)
}

/// Whether a detection of a list before the `i`-th has track `t`.
spec fn took_before(v: MatchView, list: Seq<int>, t: int, i: int) -> bool {
    exists|j: int| 0 <= j < i && v.track_of[#[trigger] list[j]] == Some(t as usize)
}

proof fn lemma_matched_all(v: MatchView, m: Seq<Seq<u32>>, list: Seq<int>, thr: u32, tracks: int, dets: int)
    requires
        sound(v, tracks, dets),
        0 <= tracks <= usize::MAX,
        list_ok(list, dets),
        forall|i: int| 0 <= i < list.len() ==> v.track_of[#[trigger] list[i]] is None,
    ensures
        ({
            let w = matched_all(v, m, list, thr);
            &&& sound(w, tracks, dets)
            &&& forall|d: int| 0 <= d < dets && !list.contains(d) ==> #[trigger] w.track_of[d] == v.track_of[d]
            &&& forall|d: int|
                0 <= d < dets && list.contains(d) && (#[trigger] w.track_of[d]) is Some
                    ==> m[w.track_of[d]->0 as int][d] >= thr && m[w.track_of[d]->0 as int][d] > 0
            &&& forall|t: int| 0 <= t < tracks && v.taken[t] ==> #[trigger] w.taken[t]
            &&& forall|t: int, i: int|
                0 <= t < tracks && !(#[trigger] w.taken[t]) && 0 <= i < list.len() && w.track_of[#[trigger] list[i]] is None
                    ==> m[t][list[i]] < thr || m[t][list[i]] == 0
            &&& forall|t: int, i: int|
                0 <= t < tracks && 0 <= i < list.len() && w.track_of[#[trigger] list[i]] is Some && !(#[trigger] v.taken[t])
                    && prefers(m, list[i], t, w.track_of[list[i]]->0 as int) ==> took_before(w, list, t, i)
        }),
    decreases list.len(),
{
    if list.len() > 0 {
        let rest = list.drop_last();
        let d = list.last();
        assert forall|i: int| 0 <= i < rest.len() implies 0 <= #[trigger] rest[i] < dets by {
            assert(rest[i] == list[i]);
        }
        lemma_matched_all(v, m, rest, thr, tracks, dets);
        let w = matched_all(v, m, rest, thr);
        assert(list[list.len() - 1] == d);
        assert(!rest.contains(d)) by {
            if rest.contains(d) {
                let i = choose|i: int| 0 <= i < rest.len() && rest[i] == d;
                assert(list[i] == list[list.len() - 1]);
            }
        }
        assert(w.track_of[d] is None);
        lemma_best_track(m, w.taken, d, thr, tracks);
        match best_track(m, w.taken, d, thr, tracks) {
            Some(t) => {
                lemma_give(w, tracks, dets, t as int, d);
            },
            None => {},
        }
        let x = matched_all(v, m, list, thr);
        assert forall|e: int| 0 <= e < dets && !list.contains(e) implies #[trigger] x.track_of[e] == v.track_of[e] by {
            assert(!rest.contains(e)) by {
                if rest.contains(e) {
                    let i = choose|i: int| 0 <= i < rest.len() && rest[i] == e;
                    assert(list[i] == e);
                }
            }
            assert(e != d) by {
                assert(list.contains(d));
            }
        }
        assert forall|e: int| 0 <= e < dets && list.contains(e) && (#[trigger] x.track_of[e]) is Some implies m[
        x.track_of[e]->0 as int][e] >= thr && m[x.track_of[e]->0 as int][e] > 0 by {
            if e != d {
                let i = choose|i: int| 0 <= i < list.len() && list[i] == e;
                assert(rest[i] == e);
                assert(x.track_of[e] == w.track_of[e]);
            }
        }
        let last = list.len() - 1;
        assert forall|t: int, i: int|
            0 <= t < tracks && !(#[trigger] x.taken[t]) && 0 <= i < list.len() && x.track_of[#[trigger] list[i]] is None implies m[t][list[i]]
            < thr || m[t][list[i]] == 0 by {
            assert(!w.taken[t]);
            if i < last {
                assert(rest[i] == list[i]);
                assert(rest[i] != d);
                assert(w.track_of[rest[i]] is None);
            }
        }
        assert forall|t: int, i: int|
            0 <= t < tracks && 0 <= i < list.len() && x.track_of[#[trigger] list[i]] is Some && !(#[trigger] v.taken[t])
                && prefers(m, list[i], t, x.track_of[list[i]]->0 as int) implies took_before(x, list, t, i) by {
            if i < last {
                assert(rest[i] == list[i]);
                assert(rest[i] != d);
                assert(w.track_of[rest[i]] == x.track_of[list[i]]);
                assert(took_before(w, rest, t, i));
                let j = choose|j: int| 0 <= j < i && w.track_of[#[trigger] rest[j]] == Some(t as usize);
                assert(rest[j] == list[j]);
                assert(rest[j] != d);
                assert(x.track_of[list[j]] == Some(t as usize));
            } else {
                assert(w.taken[t]);
                let e = choose|e: int| 0 <= e < dets && w.track_of[e] == Some(t as usize);
                assert(w.track_of[e] == Some(t as usize));
                if !rest.contains(e) {
                    assert(w.track_of[e] == v.track_of[e]);
                    assert(v.taken[t]);
                }
                let j = choose|j: int| 0 <= j < rest.len() && rest[j] == e;
                assert(list[j] == e);
                assert(e != d);
                assert(x.track_of[list[j]] == Some(t as usize));
            }
        }
    }
}

proof fn lemma_rescued_all(v: MatchView, o: Seq<Seq<u32>>, n: int, list: Seq<int>, thr: u32, tracks: int, dets: int)
    requires
        sound(v, tracks, dets),
        0 <= n <= tracks <= usize::MAX,
        dets <= usize::MAX,
        list_ok(list, dets),
    ensures
        ({
            let w = rescued_all(v, o, n, list, thr);
            &&& sound(w, tracks, dets)
            &&& forall|d: int| 0 <= d < dets && v.track_of[d] is Some ==> #[trigger] w.track_of[d] == v.track_of[d]
            &&& forall|d: int|
                0 <= d < dets && v.track_of[d] is None && (#[trigger] w.track_of[d]) is Some ==> list.contains(d)
                    && o[w.track_of[d]->0 as int][d] >= thr
            &&& forall|t: int| 0 <= t < tracks && v.taken[t] ==> #[trigger] w.taken[t]
            &&& forall|t: int, i: int|
                0 <= t < n && !(#[trigger] w.taken[t]) && 0 <= i < list.len() && w.track_of[#[trigger] list[i]] is None
                    ==> o[t][list[i]] < thr
            &&& forall|d: int, i: int|
                0 <= d < dets && v.track_of[d] is None && (#[trigger] w.track_of[d]) is Some && 0 <= i < list.len()
                    && o[w.track_of[d]->0 as int][#[trigger] list[i]] > o[w.track_of[d]->0 as int][d]
                    ==> w.track_of[list[i]] is Some && (v.track_of[list[i]] is Some || w.track_of[list[i]]->0
                    < w.track_of[d]->0)
            &&& forall|d: int| 0 <= d < dets && v.track_of[d] is None && (#[trigger] w.track_of[d]) is Some ==> w.track_of[d]->0 < n
        }),
    decreases n,
{
    if n > 0 {
        lemma_rescued_all(v, o, n - 1, list, thr, tracks, dets);
        let w = rescued_all(v, o, n - 1, list, thr);
        let t = n - 1;
        if !w.taken[t] {
            lemma_best_det(o, w.track_of, t, list, thr, list.len() as int);
            match best_det(o, w.track_of, t, list, thr, list.len() as int) {
                Some(d) => {
                    lemma_give(w, tracks, dets, t, d as int);
                },
                None => {},
            }
        }
    }
}

pub proof fn lemma_graded(list: Seq<int>, scores: Seq<u32>, high: u32, good: bool)
    requires
        list_ok(list, scores.len() as int),
    ensures
        list_ok(graded(list, scores, high, good), scores.len() as int),
        forall|d: int|
            #[trigger] graded(list, scores, high, good).contains(d) <==> list.contains(d) && (scores[d] >= high) == good,
    decreases list.len(),
{
    let g = graded(list, scores, high, good);
    if list.len() > 0 {
        let rest = list.drop_last();
        let last = list.last();
        let h = graded(rest, scores, high, good);
        assert forall|i: int| 0 <= i < rest.len() implies 0 <= #[trigger] rest[i] < scores.len() by {
            assert(rest[i] == list[i]);
        }
        lemma_graded(rest, scores, high, good);
        assert(list[list.len() - 1] == last);
        assert(!rest.contains(last)) by {
            if rest.contains(last) {
                let i = choose|i: int| 0 <= i < rest.len() && rest[i] == last;
                assert(list[i] == list[list.len() - 1]);
            }
        }
        assert(!h.contains(last));
        assert forall|d: int| #[trigger] g.contains(d) <==> list.contains(d) && (scores[d] >= high) == good by {
            assert(list.contains(d) <==> rest.contains(d) || d == last) by {
                if list.contains(d) {
                    let i = choose|i: int| 0 <= i < list.len() && list[i] == d;
                    if i < rest.len() {
                        assert(rest[i] == d);
                    }
                }
                if rest.contains(d) {
                    let i = choose|i: int| 0 <= i < rest.len() && rest[i] == d;
                    assert(list[i] == d);
                }
                assert(list.contains(last));
            }
            assert(g.contains(d) <==> h.contains(d) || (d == last && (scores[last] >= high) == good)) by {
                if g.contains(d) {
                    let i = choose|i: int| 0 <= i < g.len() && g[i] == d;
                    if i < h.len() {
                        assert(h[i] == d);
                    }
                }
                if h.contains(d) {
                    let i = choose|i: int| 0 <= i < h.len() && h[i] == d;
                    assert(g[i] == d);
                }
                if (scores[last] >= high) == good {
                    assert(g[g.len() - 1] == last);
                }
            }
        }
        assert forall|i: int| 0 <= i < g.len() implies 0 <= #[trigger] g[i] < scores.len() by {
            assert(g.contains(g[i]));
            let k = choose|k: int| 0 <= k < list.len() && list[k] == g[i];
            assert(list[k] == g[i]);
        }
        assert(g.no_duplicates()) by {
            assert forall|i: int, j: int| 0 <= i < g.len() && 0 <= j < g.len() && i != j implies g[i] != g[j] by {
                if i < h.len() && j < h.len() {
                    assert(h[i] != h[j]);
                } else if i < h.len() {
                    assert(h.contains(h[i]));
                } else if j < h.len() {
                    assert(h.contains(h[j]));
                }
            }
        }
    }
}

pub proof fn lemma_ranked_ok(scores: Seq<u32>)
    ensures
        list_ok(ranked(scores), scores.len() as int),
{
    law_ranked_upto(scores, scores.len() as int);
    let r = ranked(scores);
    assert forall|i: int, j: int| 0 <= i < r.len() && 0 <= j < r.len() && i != j implies r[i] != r[j] by {
        if i < j {
            assert(scores[r[i]] > scores[r[j]] || r[i] < r[j]);
        } else {
            assert(scores[r[j]] > scores[r[i]] || r[j] < r[i]);
        }
    }
}

/// What always holds of a matching: it is sound; a poor detection is matched only to a track that it overlaps by
/// at least the lower bound where the track is expected; a good one only to a track that it overlaps by at least
/// the higher bound there, or, if that is wanted, where the track was last seen.
pub proof fn law_matching(
    n: int,
    scores: Seq<u32>,
    high: u32,
    m: Seq<Seq<u32>>,
    o: Seq<Seq<u32>>,
    k: Strictness,
)
    requires
        0 <= n <= usize::MAX,
        scores.len() <= usize::MAX,
    ensures
        ({
            let v = matching(n, scores, high, m, o, k);
            &&& sound(v, n, scores.len() as int)
            &&& forall|d: int|
                0 <= d < scores.len() && (#[trigger] v.track_of[d]) is Some && scores[d] < high ==> m[v.track_of[d]->0
                    as int][d] >= k.low
            &&& forall|d: int|
                0 <= d < scores.len() && (#[trigger] v.track_of[d]) is Some && scores[d] >= high ==> m[v.track_of[d]->0
                    as int][d] >= k.high || (k.rescue && o[v.track_of[d]->0 as int][d] >= k.high)
        }),
{
    let dets = scores.len() as int;
    lemma_ranked_ok(scores);
    lemma_graded(ranked(scores), scores, high, true);
    lemma_graded(ranked(scores), scores, high, false);
    let good = graded(ranked(scores), scores, high, true);
    let poor = graded(ranked(scores), scores, high, false);
    let v0 = unmatched(n, dets);
    lemma_unmatched(n, dets);
    lemma_matched_all(v0, m, good, k.high, n, dets);
    let v1 = matched_all(v0, m, good, k.high);
    assert forall|i: int| 0 <= i < poor.len() implies v1.track_of[#[trigger] poor[i]] is None by {
        assert(poor.contains(poor[i]));
        assert(!good.contains(poor[i]));
    }
    lemma_matched_all(v1, m, poor, k.low, n, dets);
    let v2 = matched_all(v1, m, poor, k.low);
    lemma_rescued_all(v2, o, n, good, k.high, n, dets);
    let v = matching(n, scores, high, m, o, k);
    assert forall|d: int| 0 <= d < dets && (#[trigger] v.track_of[d]) is Some && scores[d] < high implies m[
    v.track_of[d]->0 as int][d] >= k.low by {
        assert(!good.contains(d));
        assert(v2.track_of[d] is Some);
        assert(v1.track_of[d] == v0.track_of[d]);
        assert(poor.contains(d)) by {
            if !poor.contains(d) {
                assert(v2.track_of[d] == v1.track_of[d]);
            }
        }
    }
    assert forall|d: int| 0 <= d < dets && (#[trigger] v.track_of[d]) is Some && scores[d] >= high implies m[
    v.track_of[d]->0 as int][d] >= k.high || (k.rescue && o[v.track_of[d]->0 as int][d] >= k.high) by {
        assert(!poor.contains(d));
        assert(v2.track_of[d] == v1.track_of[d]);
        if v2.track_of[d] is Some {
            assert(good.contains(d)) by {
                if !good.contains(d) {
                    assert(v1.track_of[d] == v0.track_of[d]);
                }
            }
        }
    }
}

/// The free track that a detection overlaps most.
fn find_track(m: &Vec<Vec<u32>>, taken: &Vec<bool>, d: usize, thr: u32) -> (best: Option<usize>)
    requires
        table_ok(m@, taken@.len() as int, m@[0]@.len() as int),
        taken@.len() > 0 ==> d < m@[0]@.len(),
    ensures
        best == best_track(table(m@), taken@, d as int, thr, taken@.len() as int),
{
    let mut best: Option<usize> = None;
    let mut bar: u32 = 0;
    for t in 0..taken.len()
        invariant
            table_ok(m@, taken@.len() as int, m@[0]@.len() as int),
            taken@.len() > 0 ==> d < m@[0]@.len(),
            best == best_track(table(m@), taken@, d as int, thr, t as int),
            best is Some ==> best->0 < t,
            bar == (if best is Some {
                table(m@)[best->0 as int][d as int]
            } else {
                0
            }),
    {
        let overlap: u32 = m[t][d];
        assert(table(m@)[t as int][d as int] == overlap);
        if !taken[t] && overlap > bar && overlap >= thr {
            best = Some(t);
            bar = overlap;
        }
    }
    best
}

/// The detection of a list without a track that a track overlaps most.
fn find_det(o: &Vec<Vec<u32>>, track_of: &Vec<Option<usize>>, t: usize, list: &Vec<usize>, thr: u32) -> (best: Option<
    usize,
>)
    requires
        t < o@.len(),
        o@[t as int]@.len() == track_of@.len(),
        forall|i: int| 0 <= i < list@.len() ==> (#[trigger] list@[i]) < track_of@.len(),
    ensures
        best == best_det(table(o@), track_of@, t as int, ints(list@), thr, list@.len() as int),
        best is Some ==> best->0 < track_of@.len(),
{
    let mut best: Option<usize> = None;
    let mut bar: u32 = 0;
    for i in 0..list.len()
        invariant
            t < o@.len(),
            o@[t as int]@.len() == track_of@.len(),
            forall|i: int| 0 <= i < list@.len() ==> (#[trigger] list@[i]) < track_of@.len(),
            best == best_det(table(o@), track_of@, t as int, ints(list@), thr, i as int),
            best is Some ==> best->0 < track_of@.len() && bar == table(o@)[t as int][best->0 as int],
    {
        let d: usize = list[i];
        let overlap: u32 = o[t][d];
        assert(table(o@)[t as int][d as int] == overlap);
        assert(ints(list@)[i as int] == d);
        if track_of[d].is_none() && overlap >= thr && (best.is_none() || overlap > bar) {
            best = Some(d);
            bar = overlap;
        }
    }
    best
}

/// The detections of a list by grade.
pub fn grade(list: &Vec<usize>, scores: &[u32], high: u32, good: bool) -> (out: Vec<usize>)
    requires
        forall|i: int| 0 <= i < list@.len() ==> (#[trigger] list@[i]) < scores@.len(),
    ensures
        ints(out@) == graded(ints(list@), scores@, high, good),
        forall|i: int| 0 <= i < out@.len() ==> (#[trigger] out@[i]) < scores@.len(),
        out@.len() <= list@.len(),
{
    let mut out: Vec<usize> = Vec::new();
    let ghost all = ints(list@);
    assert(ints(out@) =~= graded(all.take(0), scores@, high, good));
    for i in 0..list.len()
        invariant
            all == ints(list@),
            forall|i: int| 0 <= i < list@.len() ==> (#[trigger] list@[i]) < scores@.len(),
            ints(out@) == graded(all.take(i as int), scores@, high, good),
            forall|i: int| 0 <= i < out@.len() ==> (#[trigger] out@[i]) < scores@.len(),
            out@.len() <= i,
    {
        let d: usize = list[i];
        let ghost before = out@;
        assert(all.take(i + 1).drop_last() =~= all.take(i as int));
        assert(all.take(i + 1).last() == d);
        if (scores[d] >= high) == good {
            out.push(d);
            assert(ints(out@) =~= ints(before).push(d as int));
        }
    }
    assert(all.take(list@.len() as int) =~= all);
    out
}

impl Matching {
    /// Gives the detections of a list to tracks, one after the other.
    fn match_list(&mut self, m: &Vec<Vec<u32>>, list: &Vec<usize>, thr: u32)
        requires
            table_ok(m@, old(self)@.taken.len() as int, old(self)@.track_of.len() as int),
            forall|i: int| 0 <= i < list@.len() ==> (#[trigger] list@[i]) < old(self)@.track_of.len(),
        ensures
            final(self)@ == matched_all(old(self)@, table(m@), ints(list@), thr),
            final(self)@.taken.len() == old(self)@.taken.len(),
            final(self)@.track_of.len() == old(self)@.track_of.len(),
    {
        let ghost start = self@;
        let ghost all = ints(list@);
        assert(self@ == matched_all(start, table(m@), all.take(0), thr));
        for i in 0..list.len()
            invariant
                all == ints(list@),
                table_ok(m@, start.taken.len() as int, start.track_of.len() as int),
                forall|i: int| 0 <= i < list@.len() ==> (#[trigger] list@[i]) < start.track_of.len(),
                self@.taken.len() == start.taken.len(),
                self@.track_of.len() == start.track_of.len(),
                self@ == matched_all(start, table(m@), all.take(i as int), thr),
        {
            let d: usize = list[i];
            let ghost before = self@;
            assert(self.taken.len() == self.taken@.len());
            proof {
                assert(all.take(i + 1).drop_last() =~= all.take(i as int));
                assert(all.take(i + 1).last() == d);
                lemma_best_track(table(m@), self.taken@, d as int, thr, self.taken@.len() as int);
            }
            match find_track(m, &self.taken, d, thr) {
                Some(t) => {
                    self.taken.set(t, true);
                    self.track_of.set(d, Some(t));
                },
                None => {},
            }
            assert(self@ =~= matched_one(before, table(m@), d as int, thr));
        }
        assert(all.take(list@.len() as int) =~= all);
    }

    /// Gives each free track to a detection of a list, one after the other.
    fn rescue(&mut self, o: &Vec<Vec<u32>>, list: &Vec<usize>, thr: u32)
        requires
            table_ok(o@, old(self)@.taken.len() as int, old(self)@.track_of.len() as int),
            forall|i: int| 0 <= i < list@.len() ==> (#[trigger] list@[i]) < old(self)@.track_of.len(),
        ensures
            final(self)@ == rescued_all(old(self)@, table(o@), old(self)@.taken.len() as int, ints(list@), thr),
            final(self)@.taken.len() == old(self)@.taken.len(),
            final(self)@.track_of.len() == old(self)@.track_of.len(),
    {
        let ghost start = self@;
        let n: usize = self.taken.len();
        for t in 0..n
            invariant
                n == start.taken.len(),
                table_ok(o@, start.taken.len() as int, start.track_of.len() as int),
                forall|i: int| 0 <= i < list@.len() ==> (#[trigger] list@[i]) < start.track_of.len(),
                self@.taken.len() == start.taken.len(),
                self@.track_of.len() == start.track_of.len(),
                self@ == rescued_all(start, table(o@), t as int, ints(list@), thr),
        {
            let ghost before = self@;
            if !self.taken[t] {
                assert(o@[t as int]@.len() == start.track_of.len());
                match find_det(o, &self.track_of, t, list, thr) {
                    Some(d) => {
                        self.taken.set(t, true);
                        self.track_of.set(d, Some(t));
                    },
                    None => {},
                }
            }
            assert(self@ =~= rescued_one(before, table(o@), t as int, ints(list@), thr));
        }
    }
}

/// Matches `n` tracks and the detections with the given scores; those of at least `high` are good.
pub fn associate(
    n: usize,
    scores: &[u32],
    high: u32,
    m: &Vec<Vec<u32>>,
    o: &Vec<Vec<u32>>,
    k: Strictness,
) -> (r: Matching)
    requires
        table_ok(m@, n as int, scores@.len() as int),
        k.rescue ==> table_ok(o@, n as int, scores@.len() as int),
    ensures
        r@ == matching(n as int, scores@, high, table(m@), table(o@), k),
        sound(r@, n as int, scores@.len() as int),
{
    let order = rank(scores);
    let good = grade(&order, scores, high, true);
    let poor = grade(&order, scores, high, false);
    let mut r = Matching { taken: vec![false; n], track_of: vec![None; scores.len()] };
    assert(r@ =~= unmatched(n as int, scores@.len() as int));
    r.match_list(m, &good, k.high);
    r.match_list(m, &poor, k.low);
    if k.rescue {
        r.rescue(o, &good, k.high);
    }
    proof {
        assert(scores.len() == scores@.len());
        law_matching(n as int, scores@, high, table(m@), table(o@), k);
    }
    r
}

pub proof fn lemma_order_kept(list: Seq<int>, scores: Seq<u32>, high: u32, good: bool)
    requires
        forall|a: int, b: int|
            0 <= a < b < list.len() ==> scores[#[trigger] list[a]] > scores[#[trigger] list[b]] || (scores[list[a]]
                == scores[list[b]] && list[a] < list[b]),
    ensures
        ({
            let g = graded(list, scores, high, good);
            &&& forall|a: int| 0 <= a < g.len() ==> list.contains(#[trigger] g[a])
            &&& forall|a: int, b: int|
                0 <= a < b < g.len() ==> scores[#[trigger] g[a]] > scores[#[trigger] g[b]] || (scores[g[a]] == scores[g[b]]
                    && g[a] < g[b])
        }),
    decreases list.len(),
{
    if list.len() > 0 {
        let rest = list.drop_last();
        let g = graded(list, scores, high, good);
        let h = graded(rest, scores, high, good);
        assert forall|a: int, b: int| 0 <= a < b < rest.len() implies scores[#[trigger] rest[a]] > scores[#[trigger] rest[b]] || (
        scores[rest[a]] == scores[rest[b]] && rest[a] < rest[b]) by {
            assert(rest[a] == list[a] && rest[b] == list[b]);
        }
        lemma_order_kept(rest, scores, high, good);
        assert forall|a: int| 0 <= a < g.len() implies list.contains(#[trigger] g[a]) by {
            if a < h.len() {
                assert(rest.contains(h[a]));
                let i = choose|i: int| 0 <= i < rest.len() && rest[i] == h[a];
                assert(list[i] == g[a]);
            } else {
                assert(list[list.len() - 1] == g[a]);
            }
        }
        assert forall|a: int, b: int| 0 <= a < b < g.len() implies scores[#[trigger] g[a]] > scores[#[trigger] g[b]] || (
        scores[g[a]] == scores[g[b]] && g[a] < g[b]) by {
            assert(g[a] == h[a]);
            if b < h.len() {
                assert(g[b] == h[b]);
            } else {
                assert(rest.contains(h[a]));
                let i = choose|i: int| 0 <= i < rest.len() && rest[i] == h[a];
                assert(list[i] == g[a] && list[list.len() - 1] == g[b]);
            }
        }
    }
}

/// Nothing that could be matched is left: a track that stays free is not overlapped enough by any detection that stays without a
/// track, neither where it is expected nor, if that is wanted and the detection is good, where it was last seen.
pub proof fn law_nothing_left(n: int, scores: Seq<u32>, high: u32, m: Seq<Seq<u32>>, o: Seq<Seq<u32>>, k: Strictness, t: int, d: int)
    requires
        0 <= t < n <= usize::MAX,
        0 <= d < scores.len() <= usize::MAX,
        !matching(n, scores, high, m, o, k).taken[t],
        matching(n, scores, high, m, o, k).track_of[d] is None,
    ensures
        scores[d] >= high ==> m[t][d] < k.high || m[t][d] == 0,
        scores[d] >= high && k.rescue ==> o[t][d] < k.high,
        scores[d] < high ==> m[t][d] < k.low || m[t][d] == 0,
{
    let dets = scores.len() as int;
    let good = graded(ranked(scores), scores, high, true);
    let poor = graded(ranked(scores), scores, high, false);
    let v0 = unmatched(n, dets);
    let v1 = matched_all(v0, m, good, k.high);
    let v2 = matched_all(v1, m, poor, k.low);
    let v = matching(n, scores, high, m, o, k);
    lemma_rounds(n, scores, high, m, o, k);
    crate::rank::law_ranked_complete(scores, dets, d);
    assert(ranked(scores).contains(d));
    assert(v2.track_of[d] is None);
    assert(!v2.taken[t] && !v1.taken[t]);
    if scores[d] >= high {
        assert(good.contains(d));
        let i = choose|i: int| 0 <= i < good.len() && good[i] == d;
        assert(good[i] == d);
        assert(!poor.contains(d));
        assert(v1.track_of[good[i]] is None);
    } else {
        assert(poor.contains(d));
        let i = choose|i: int| 0 <= i < poor.len() && poor[i] == d;
        assert(v2.track_of[poor[i]] is None);
    }
}

/// What each round of the matching leaves to the next.
proof fn lemma_rounds(n: int, scores: Seq<u32>, high: u32, m: Seq<Seq<u32>>, o: Seq<Seq<u32>>, k: Strictness)
    requires
        0 <= n <= usize::MAX,
        scores.len() <= usize::MAX,
    ensures
        ({
            let dets = scores.len() as int;
            let good = graded(ranked(scores), scores, high, true);
            let poor = graded(ranked(scores), scores, high, false);
            let v0 = unmatched(n, dets);
            let v1 = matched_all(v0, m, good, k.high);
            let v2 = matched_all(v1, m, poor, k.low);
            let v = matching(n, scores, high, m, o, k);
            &&& list_ok(ranked(scores), dets)
            &&& forall|d: int| #[trigger] good.contains(d) <==> ranked(scores).contains(d) && scores[d] >= high
            &&& forall|d: int| #[trigger] poor.contains(d) <==> ranked(scores).contains(d) && scores[d] < high
            &&& sound(v1, n, dets)
            &&& sound(v2, n, dets)
            &&& sound(v, n, dets)
            &&& forall|d: int| 0 <= d < dets && !poor.contains(d) ==> #[trigger] v2.track_of[d] == v1.track_of[d]
            &&& forall|d: int| 0 <= d < dets && !good.contains(d) ==> (#[trigger] v1.track_of[d]) is None
            &&& forall|d: int| 0 <= d < dets && v2.track_of[d] is Some ==> #[trigger] v.track_of[d] == v2.track_of[d]
            &&& forall|t: int| 0 <= t < n && v1.taken[t] ==> #[trigger] v2.taken[t]
            &&& forall|t: int| 0 <= t < n && v2.taken[t] ==> #[trigger] v.taken[t]
            &&& forall|t: int, i: int|
                0 <= t < n && !(#[trigger] v1.taken[t]) && 0 <= i < good.len() && v1.track_of[#[trigger] good[i]] is None
                    ==> m[t][good[i]] < k.high || m[t][good[i]] == 0
            &&& forall|t: int, i: int|
                0 <= t < n && !(#[trigger] v2.taken[t]) && 0 <= i < poor.len() && v2.track_of[#[trigger] poor[i]] is None
                    ==> m[t][poor[i]] < k.low || m[t][poor[i]] == 0
            &&& forall|t: int, i: int|
                0 <= t < n && k.rescue && !(#[trigger] v.taken[t]) && 0 <= i < good.len() && v.track_of[#[trigger] good[i]] is None
                    ==> o[t][good[i]] < k.high
            &&& forall|t: int, i: int|
                0 <= t < n && 0 <= i < good.len() && v1.track_of[#[trigger] good[i]] is Some && !(#[trigger] v0.taken[t])
                    && prefers(m, good[i], t, v1.track_of[good[i]]->0 as int) ==> took_before(v1, good, t, i)
            &&& forall|t: int, i: int|
                0 <= t < n && 0 <= i < poor.len() && v2.track_of[#[trigger] poor[i]] is Some && !(#[trigger] v1.taken[t])
                    && prefers(m, poor[i], t, v2.track_of[poor[i]]->0 as int) ==> took_before(v2, poor, t, i)
            &&& forall|d: int, i: int|
                0 <= d < dets && v2.track_of[d] is None && (#[trigger] v.track_of[d]) is Some && 0 <= i < good.len()
                    && o[v.track_of[d]->0 as int][#[trigger] good[i]] > o[v.track_of[d]->0 as int][d]
                    ==> v.track_of[good[i]] is Some && (v2.track_of[good[i]] is Some || v.track_of[good[i]]->0
                    < v.track_of[d]->0)
        }),
{
    let dets = scores.len() as int;
    lemma_ranked_ok(scores);
    lemma_graded(ranked(scores), scores, high, true);
    lemma_graded(ranked(scores), scores, high, false);
    let good = graded(ranked(scores), scores, high, true);
    let poor = graded(ranked(scores), scores, high, false);
    let v0 = unmatched(n, dets);
    lemma_unmatched(n, dets);
    lemma_matched_all(v0, m, good, k.high, n, dets);
    let v1 = matched_all(v0, m, good, k.high);
    assert forall|i: int| 0 <= i < poor.len() implies v1.track_of[#[trigger] poor[i]] is None by {
        assert(poor.contains(poor[i]));
        assert(!good.contains(poor[i]));
    }
    lemma_matched_all(v1, m, poor, k.low, n, dets);
    let v2 = matched_all(v1, m, poor, k.low);
    lemma_rescued_all(v2, o, n, good, k.high, n, dets);
}

/// Each detection has the track that it overlaps most where it is expected, the first of equals, but for those tracks that better
/// detections took before it, or, of equally good ones, earlier ones. So it is where tracks are not matched by where they were
/// last seen; and what is matched then stays matched when they are.
pub proof fn law_each_takes_its_best(n: int, scores: Seq<u32>, high: u32, m: Seq<Seq<u32>>, o: Seq<Seq<u32>>, k: Strictness, t: int, d: int)
    requires
        0 <= t < n <= usize::MAX,
        0 <= d < scores.len() <= usize::MAX,
        ({
            let v = matching(n, scores, high, m, o, Strictness { rescue: false, ..k });
            &&& v.track_of[d] is Some
            &&& m[t][d] > m[v.track_of[d]->0 as int][d] || (m[t][d] == m[v.track_of[d]->0 as int][d] && t < v.track_of[d]->0)
        }),
    ensures
        ({
            let v = matching(n, scores, high, m, o, Strictness { rescue: false, ..k });
            exists|e: int|
                0 <= e < scores.len() && #[trigger] v.track_of[e] == Some(t as usize) && (scores[e] > scores[d] || (scores[e]
                    == scores[d] && e < d))
        }),
        matching(n, scores, high, m, o, k).track_of[d] == matching(n, scores, high, m, o, Strictness { rescue: false, ..k }).track_of[d],
{
    let dets = scores.len() as int;
    let good = graded(ranked(scores), scores, high, true);
    let poor = graded(ranked(scores), scores, high, false);
    let v0 = unmatched(n, dets);
    let v1 = matched_all(v0, m, good, k.high);
    let v = matched_all(v1, m, poor, k.low);
    assert(v == matching(n, scores, high, m, o, Strictness { rescue: false, ..k }));
    lemma_rounds(n, scores, high, m, o, k);
    law_ranked_upto(scores, dets);
    lemma_order_kept(ranked(scores), scores, high, true);
    lemma_order_kept(ranked(scores), scores, high, false);
    crate::rank::law_ranked_complete(scores, dets, d);
    assert(ranked(scores).contains(d));
    if scores[d] >= high {
        assert(good.contains(d) && !poor.contains(d));
        let i = choose|i: int| 0 <= i < good.len() && good[i] == d;
        assert(v1.track_of[good[i]] is Some);
        assert(!v0.taken[t]);
        assert(took_before(v1, good, t, i));
        let j = choose|j: int| 0 <= j < i && v1.track_of[#[trigger] good[j]] == Some(t as usize);
        let e = good[j];
        assert(good.contains(e));
        assert(ranked(scores).contains(e));
        assert(0 <= e < dets);
        assert(!poor.contains(e));
        assert(v.track_of[e] == Some(t as usize));
    } else {
        assert(poor.contains(d));
        let i = choose|i: int| 0 <= i < poor.len() && poor[i] == d;
        assert(v.track_of[poor[i]] is Some);
        if v1.taken[t] {
            let e = choose|e: int| 0 <= e < dets && v1.track_of[e] == Some(t as usize);
            assert(v1.track_of[e] is Some);
            assert(good.contains(e));
            assert(!poor.contains(e));
            assert(v.track_of[e] == Some(t as usize));
        } else {
            assert(took_before(v, poor, t, i));
            let j = choose|j: int| 0 <= j < i && v.track_of[#[trigger] poor[j]] == Some(t as usize);
            let e = poor[j];
            assert(poor.contains(e));
            assert(ranked(scores).contains(e));
            assert(v.track_of[e] == Some(t as usize));
        }
    }
}

/// A track that is found where it was last seen is given the good detection that overlaps it most there, but for those that have
/// a track already: from where the tracks are expected, or as an earlier track was found first.
pub proof fn law_found_where_last_seen(n: int, scores: Seq<u32>, high: u32, m: Seq<Seq<u32>>, o: Seq<Seq<u32>>, k: Strictness, d: int, e: int)
    requires
        0 <= n <= usize::MAX,
        0 <= d < scores.len() <= usize::MAX,
        0 <= e < scores.len(),
        scores[e] >= high,
        ({
            let v = matching(n, scores, high, m, o, k);
            let was = matching(n, scores, high, m, o, Strictness { rescue: false, ..k });
            &&& was.track_of[d] is None
            &&& v.track_of[d] is Some
            &&& o[v.track_of[d]->0 as int][e] > o[v.track_of[d]->0 as int][d]
        }),
    ensures
        ({
            let v = matching(n, scores, high, m, o, k);
            let was = matching(n, scores, high, m, o, Strictness { rescue: false, ..k });
            v.track_of[e] is Some && (was.track_of[e] is Some || v.track_of[e]->0 < v.track_of[d]->0)
        }),
{
    let dets = scores.len() as int;
    let good = graded(ranked(scores), scores, high, true);
    lemma_rounds(n, scores, high, m, o, k);
    crate::rank::law_ranked_complete(scores, dets, e);
    assert(ranked(scores).contains(e));
    assert(good.contains(e));
    let i = choose|i: int| 0 <= i < good.len() && good[i] == e;
    assert(good[i] == e);
}

} // verus!
