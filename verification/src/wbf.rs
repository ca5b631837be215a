//! Putting together what several detectors found: boxes around the same thing make a cluster.
//!
//! Boxes are taken best first. A box that overlaps a cluster joins it, unless a box of the same detector is in it already:
//! then it is dropped. A box that overlaps no cluster starts one.
use crate::rank::{ints, law_ranked_complete, law_ranked_upto, rank, ranked};
use vstd::prelude::*;

verus! {

/// A box in a cluster: which detector found it, and its place among all boxes.
#[derive(Debug, Clone, Copy, PartialEq, Eq, Structural)]
pub struct Member {
    pub list: usize,
    pub index: usize,
}

/// What becomes of a box.
#[derive(Debug, Clone, Copy, PartialEq, Eq, Structural)]
pub enum Placement {
    /// It joins this cluster.
    Joined(usize),
    /// It is dropped: this cluster holds a box of the same detector.
    Dropped(usize),
    /// It starts a cluster.
    Started,
}

/// The members of each cluster.
pub open spec fn groups(c: Seq<Vec<Member>>) -> Seq<Seq<Member>> {
    c.map_values(|m: Vec<Member>| m@)
}

/// Whether a cluster holds a box of a detector.
pub open spec fn has_list(m: Seq<Member>, list: usize) -> bool {
    exists|i: int| 0 <= i < m.len() && (#[trigger] m[i]).list == list
}

/// The first cluster from the `from`-th on that a box overlaps by at least `thr`.
pub open spec fn overlapped(overlaps: Seq<u32>, thr: u32, from: int) -> Option<int>
    decreases overlaps.len() - from,
{
    if from >= overlaps.len() {
        None
    } else if overlaps[from] >= thr {
        Some(from)
    } else {
        overlapped(overlaps, thr, from + 1)
    }
}

/// What becomes of a box: `overlaps` holds its overlap with each cluster.
pub open spec fn placement(c: Seq<Seq<Member>>, b: Member, overlaps: Seq<u32>, thr: u32) -> Placement {
    match overlapped(overlaps, thr, 0) {
        Some(i) => if has_list(c[i], b.list) {
            Placement::Dropped(i as usize)
        } else {
            Placement::Joined(i as usize)
        },
        None => Placement::Started,
    }
}

/// The clusters after a box has been placed.
pub open spec fn placed(c: Seq<Seq<Member>>, b: Member, p: Placement) -> Seq<Seq<Member>> {
    match p {
        Placement::Joined(i) => c.update(i as int, c[i as int].push(b)),
        Placement::Dropped(_) => c,
        Placement::Started => c.push(seq![b]),
    }
}

/// What always holds of clusters: none is empty, and none holds two boxes of the same detector.
pub open spec fn clusters_ok(c: Seq<Seq<Member>>) -> bool {
    &&& forall|i: int| 0 <= i < c.len() ==> (#[trigger] c[i]).len() > 0
    &&& forall|i: int, a: int, b: int|
        0 <= i < c.len() && 0 <= a < b < c[i].len() ==> (#[trigger] c[i][a]).list != (#[trigger] c[i][b]).list
}

/// Boxes in clusters.
pub struct Clusters {
    groups: Vec<Vec<Member>>,
}

impl View for Clusters {
    type V = Seq<Seq<Member>>;

    closed spec fn view(&self) -> Seq<Seq<Member>> {
        groups(self.groups@)
    }
}

/// The best score of a cluster, the source of the best box (the last of equals), and how many boxes there are.
#[derive(Debug, Clone, Copy, PartialEq, Eq, Structural)]
pub struct Summary {
    pub best: u32,
    pub source: u32,
    pub votes: u32,
}

/// The summary of the first `n` boxes of a cluster, from the scores and sources of all boxes.
pub open spec fn summary(m: Seq<Member>, scores: Seq<u32>, sources: Seq<u32>, n: int) -> Summary
    decreases n,
{
    if n <= 0 {
        Summary { best: 0, source: 0, votes: 0 }
    } else {
        let s = summary(m, scores, sources, n - 1);
        let x = scores[m[n - 1].index as int];
        Summary {
            best: if x > s.best {
                x
            } else {
                s.best
            },
            source: if x >= s.best && x > 0 {
                sources[m[n - 1].index as int]
            } else {
                s.source
            },
            votes: (s.votes + 1) as u32,
        }
    }
}

impl Clusters {
    /// What always holds of clusters.
    pub open spec fn wf(&self) -> bool {
        clusters_ok(self@)
    }

    /// No clusters.
    pub fn new() -> (c: Clusters)
        ensures
            c.wf(),
            c@ == Seq::<Seq<Member>>::empty(),
    {
        let c = Clusters { groups: Vec::new() };
        assert(c@ =~= Seq::<Seq<Member>>::empty());
        c
    }

    /// How many clusters there are.
    pub fn len(&self) -> (n: usize)
        ensures
            n == self@.len(),
    {
        self.groups.len()
    }

    /// The boxes of a cluster.
    pub fn members(&self, i: usize) -> (m: &Vec<Member>)
        requires
            i < self@.len(),
        ensures
            m@ == self@[i as int],
    {
        &self.groups[i]
    }

    /// Places a box; `overlaps` holds the key of its overlap with each cluster.
    pub fn place(&mut self, b: Member, overlaps: &Vec<u32>, thr: u32) -> (p: Placement)
        requires
            old(self).wf(),
            overlaps@.len() == old(self)@.len(),
        ensures
            final(self).wf(),
            p == placement(old(self)@, b, overlaps@, thr),
            final(self)@ == placed(old(self)@, b, p),
    {
        let ghost c = self@;
        for i in 0..overlaps.len()
            invariant
                self@ == c,
                c == old(self)@,
                clusters_ok(c),
                overlaps@.len() == c.len(),
                overlapped(overlaps@, thr, 0) == overlapped(overlaps@, thr, i as int),
        {
            if overlaps[i] >= thr {
                assert(c[i as int] == self.groups@[i as int]@);
                let ghost m = c[i as int];
                let n: usize = self.groups[i].len();
                for k in 0..n
                    invariant
                        self@ == c,
                        c == old(self)@,
                        i < c.len(),
                        m == c[i as int],
                        m == self.groups@[i as int]@,
                        self.groups@.len() == c.len(),
                        n == m.len(),
                        overlapped(overlaps@, thr, 0) == Some(i as int),
                        clusters_ok(c),
                        forall|j: int| 0 <= j < k ==> (#[trigger] m[j]).list != b.list,
                {
                    if self.groups[i][k].list == b.list {
                        assert(has_list(m, b.list));
                        return Placement::Dropped(i);
                    }
                }
                self.groups[i].push(b);
                assert(self@ =~= c.update(i as int, m.push(b)));
                return Placement::Joined(i);
            }
        }
        let mut one: Vec<Member> = Vec::new();
        one.push(b);
        assert(one@ =~= seq![b]);
        self.groups.push(one);
        assert(self@ =~= c.push(seq![b]));
        Placement::Started
    }

    /// The summary of a cluster, from the scores and sources of all boxes.
    pub fn summary_of(&self, i: usize, scores: &Vec<u32>, sources: &Vec<u32>) -> (s: Summary)
        requires
            i < self@.len(),
            self@[i as int].len() <= u32::MAX,
            forall|k: int|
                0 <= k < self@[i as int].len() ==> (#[trigger] self@[i as int][k]).index < scores@.len()
                    && self@[i as int][k].index < sources@.len(),
        ensures
            s == summary(self@[i as int], scores@, sources@, self@[i as int].len() as int),
            s.votes == self@[i as int].len(),
    {
        let mut s = Summary { best: 0, source: 0, votes: 0 };
        let ghost m = self@[i as int];
        assert(m == self.groups@[i as int]@);
        let n: usize = self.groups[i].len();
        for k in 0..n
            invariant
                n == m.len(),
                i < self.groups@.len(),
                m == self.groups@[i as int]@,
                m.len() <= u32::MAX,
                forall|k: int|
                    0 <= k < m.len() ==> (#[trigger] m[k]).index < scores@.len() && m[k].index < sources@.len(),
                s == summary(m, scores@, sources@, k as int),
                s.votes == k,
        {
            assert(m[k as int].index < scores@.len());
            let at: usize = self.groups[i][k].index;
            let x: u32 = scores[at];
            s = Summary {
                best: if x > s.best { x } else { s.best },
                source: if x >= s.best && x > 0 { sources[at] } else { s.source },
                votes: s.votes + 1,
            };
        }
        s
    }
}

/// Placing a box adds it to one cluster at most, and changes no other.
pub proof fn law_placed_once(c: Seq<Seq<Member>>, b: Member, overlaps: Seq<u32>, thr: u32, i: int)
    requires
        overlaps.len() == c.len(),
        0 <= i < c.len(),
        placement(c, b, overlaps, thr) != Placement::Joined(i as usize),
        c.len() <= usize::MAX,
    ensures
        placed(c, b, placement(c, b, overlaps, thr))[i] == c[i],
{
    lemma_overlapped(overlaps, thr, 0);
}

proof fn lemma_overlapped(overlaps: Seq<u32>, thr: u32, from: int)
    requires
        0 <= from <= overlaps.len(),
    ensures
        overlapped(overlaps, thr, from) is Some ==> from <= overlapped(overlaps, thr, from)->0 < overlaps.len(),
    decreases overlaps.len() - from,
{
    if from < overlaps.len() {
        lemma_overlapped(overlaps, thr, from + 1);
    }
}

/// How many boxes the first `n` clusters hold.
pub open spec fn votes_upto(c: Seq<Seq<Member>>, n: int) -> int
    decreases n,
{
    if n <= 0 {
        0
    } else {
        votes_upto(c, n - 1) + c[n - 1].len()
    }
}

proof fn lemma_votes_same(c: Seq<Seq<Member>>, d: Seq<Seq<Member>>, n: int)
    requires
        0 <= n <= c.len(),
        n <= d.len(),
        forall|i: int| 0 <= i < n ==> c[i] == d[i],
    ensures
        votes_upto(c, n) == votes_upto(d, n),
    decreases n,
{
    if n > 0 {
        lemma_votes_same(c, d, n - 1);
    }
}

proof fn lemma_votes_update(c: Seq<Seq<Member>>, i: int, b: Member, n: int)
    requires
        0 <= i < n <= c.len(),
    ensures
        votes_upto(c.update(i, c[i].push(b)), n) == votes_upto(c, n) + 1,
    decreases n,
{
    let d = c.update(i, c[i].push(b));
    if i == n - 1 {
        lemma_votes_same(c, d, n - 1);
    } else {
        lemma_votes_update(c, i, b, n - 1);
    }
}

/// The clusters after the first `n` of some boxes have been placed; `overlaps` holds the overlaps of each box with the
/// clusters that there are when its turn comes.
pub open spec fn clusters_of(boxes: Seq<Member>, overlaps: Seq<Seq<u32>>, thr: u32, n: int) -> Seq<Seq<Member>>
    decreases n,
{
    if n <= 0 {
        Seq::empty()
    } else {
        let c = clusters_of(boxes, overlaps, thr, n - 1);
        placed(c, boxes[n - 1], placement(c, boxes[n - 1], overlaps[n - 1], thr))
    }
}

/// No cluster has more votes than there are detectors, and all clusters together have no more than there are boxes.
pub proof fn law_votes(boxes: Seq<Member>, overlaps: Seq<Seq<u32>>, thr: u32, n: int, lists: int)
    requires
        0 <= n <= boxes.len() <= usize::MAX,
        overlaps.len() == boxes.len(),
        forall|k: int| 0 <= k < n ==> (#[trigger] overlaps[k]).len() == clusters_of(boxes, overlaps, thr, k).len(),
        0 <= lists,
        forall|k: int| 0 <= k < n ==> (#[trigger] boxes[k]).list < lists,
    ensures
        ({
            let c = clusters_of(boxes, overlaps, thr, n);
            &&& clusters_ok(c)
            &&& c.len() <= n
            &&& votes_upto(c, c.len() as int) <= n
            &&& forall|i: int| 0 <= i < c.len() ==> (#[trigger] c[i]).len() <= lists
        }),
    decreases n,
{
    lemma_clusters(boxes, overlaps, thr, n, lists);
    let c = clusters_of(boxes, overlaps, thr, n);
    assert forall|i: int| 0 <= i < c.len() implies (#[trigger] c[i]).len() <= lists by {
        lemma_lists_bound(c[i], lists);
    }
}

proof fn lemma_clusters(boxes: Seq<Member>, overlaps: Seq<Seq<u32>>, thr: u32, n: int, lists: int)
    requires
        0 <= n <= boxes.len() <= usize::MAX,
        overlaps.len() == boxes.len(),
        forall|k: int| 0 <= k < n ==> (#[trigger] overlaps[k]).len() == clusters_of(boxes, overlaps, thr, k).len(),
        forall|k: int| 0 <= k < n ==> (#[trigger] boxes[k]).list < lists,
    ensures
        ({
            let c = clusters_of(boxes, overlaps, thr, n);
            &&& clusters_ok(c)
            &&& c.len() <= n
            &&& votes_upto(c, c.len() as int) <= n
            &&& forall|i: int, a: int| 0 <= i < c.len() && 0 <= a < c[i].len() ==> (#[trigger] c[i][a]).list < lists
        }),
    decreases n,
{
    if n > 0 {
        lemma_clusters(boxes, overlaps, thr, n - 1, lists);
        let c = clusters_of(boxes, overlaps, thr, n - 1);
        let b = boxes[n - 1];
        let o = overlaps[n - 1];
        let p = placement(c, b, o, thr);
        let d = placed(c, b, p);
        assert(o.len() == c.len());
        lemma_overlapped(o, thr, 0);
        assert(b.list < lists);
        match p {
            Placement::Joined(i) => {
                lemma_votes_update(c, i as int, b, c.len() as int);
                assert forall|j: int, x: int, y: int| 0 <= j < d.len() && 0 <= x < y < d[j].len() implies (#[trigger]
                d[j][x]).list != (#[trigger] d[j][y]).list by {
                    if j == i && y == c[j].len() {
                        assert(!has_list(c[j], b.list));
                        assert(c[j][x].list != b.list);
                    } else {
                        assert(d[j][x] == c[j][x] && d[j][y] == c[j][y]);
                    }
                }
                assert forall|j: int, a: int| 0 <= j < d.len() && 0 <= a < d[j].len() implies (#[trigger] d[j][a]).list
                    < lists by {
                    if !(j == i && a == c[j].len()) {
                        assert(d[j][a] == c[j][a]);
                    }
                }
                assert forall|j: int| 0 <= j < d.len() implies (#[trigger] d[j]).len() > 0 by {
                    assert(c[j].len() > 0);
                }
            },
            Placement::Dropped(_) => {},
            Placement::Started => {
                lemma_votes_same(c, d, c.len() as int);
                assert forall|j: int, x: int, y: int| 0 <= j < d.len() && 0 <= x < y < d[j].len() implies (#[trigger]
                d[j][x]).list != (#[trigger] d[j][y]).list by {
                    assert(j < c.len());
                    assert(d[j][x] == c[j][x] && d[j][y] == c[j][y]);
                }
                assert forall|j: int, a: int| 0 <= j < d.len() && 0 <= a < d[j].len() implies (#[trigger] d[j][a]).list
                    < lists by {
                    if j < c.len() {
                        assert(d[j][a] == c[j][a]);
                    }
                }
                assert forall|j: int| 0 <= j < d.len() implies (#[trigger] d[j]).len() > 0 by {
                    if j < c.len() {
                        assert(c[j].len() > 0);
                    }
                }
            },
        }
    }
}

proof fn lemma_lists_bound(m: Seq<Member>, lists: int)
    requires
        0 <= lists,
        forall|a: int| 0 <= a < m.len() ==> (#[trigger] m[a]).list < lists,
        forall|a: int, b: int| 0 <= a < b < m.len() ==> (#[trigger] m[a]).list != (#[trigger] m[b]).list,
    ensures
        m.len() <= lists,
{
    let l = m.map_values(|x: Member| x.list as int);
    assert(l.no_duplicates()) by {
        assert forall|a: int, b: int| 0 <= a < l.len() && 0 <= b < l.len() && a != b implies l[a] != l[b] by {
            if a < b {
                assert(m[a].list != m[b].list);
            } else {
                assert(m[b].list != m[a].list);
            }
        }
    }
    l.unique_seq_to_set();
    let all = vstd::set_lib::set_int_range(0, lists);
    vstd::set_lib::lemma_int_range(0, lists);
    assert forall|x: int| l.to_set().contains(x) implies all.contains(x) by {
        let a = choose|a: int| 0 <= a < l.len() && l[a] == x;
        assert(m[a].list < lists);
    }
    vstd::set_lib::lemma_len_subset(l.to_set(), all);
}

/// The clusters of the first `n` boxes hold nothing but those boxes, and there are none only if there are no boxes.
proof fn lemma_members(boxes: Seq<Member>, overlaps: Seq<Seq<u32>>, thr: u32, n: int)
    requires
        0 <= n <= boxes.len() <= usize::MAX,
        overlaps.len() == boxes.len(),
        forall|k: int| 0 <= k < n ==> (#[trigger] overlaps[k]).len() == clusters_of(boxes, overlaps, thr, k).len(),
    ensures
        ({
            let c = clusters_of(boxes, overlaps, thr, n);
            &&& c.len() <= n
            &&& c.len() == 0 <==> n == 0
            &&& forall|i: int, a: int| 0 <= i < c.len() && 0 <= a < c[i].len() ==> boxes.take(n).contains(#[trigger] c[i][a])
        }),
    decreases n,
{
    if n > 0 {
        lemma_members(boxes, overlaps, thr, n - 1);
        let c = clusters_of(boxes, overlaps, thr, n - 1);
        let (b, o) = (boxes[n - 1], overlaps[n - 1]);
        let p = placement(c, b, o, thr);
        let d = placed(c, b, p);
        assert(o.len() == c.len());
        lemma_overlapped(o, thr, 0);
        let (now, before) = (boxes.take(n), boxes.take(n - 1));
        assert(now[n - 1] == b);
        assert forall|i: int, a: int| 0 <= i < d.len() && 0 <= a < d[i].len() implies now.contains(#[trigger] d[i][a]) by {
            if i < c.len() && a < c[i].len() {
                assert(d[i][a] == c[i][a]);
                let k = choose|k: int| 0 <= k < before.len() && before[k] == c[i][a];
                assert(now[k] == c[i][a]);
            } else {
                assert(d[i][a] == b);
            }
        }
    }
}

/// The best score in the summary of boxes with positive scores is that of one of them, no other is better, the source is
/// that of such a box, and every box is a vote.
pub proof fn law_summary(m: Seq<Member>, scores: Seq<u32>, sources: Seq<u32>, n: int)
    requires
        0 < n <= m.len(),
        n <= u32::MAX,
        forall|k: int| 0 <= k < n ==> scores[(#[trigger] m[k]).index as int] > 0,
    ensures
        ({
            let s = summary(m, scores, sources, n);
            &&& exists|k: int| 0 <= k < n && s.best == scores[(#[trigger] m[k]).index as int] && s.source == sources[m[k].index as int]
            &&& forall|k: int| 0 <= k < n ==> scores[(#[trigger] m[k]).index as int] <= s.best
            &&& s.votes == n
        }),
    decreases n,
{
    let s = summary(m, scores, sources, n);
    let x = m[n - 1].index as int;
    assert(scores[x] > 0);
    if n == 1 {
        assert(summary(m, scores, sources, 0) == (Summary { best: 0, source: 0, votes: 0 }));
        assert(s.best == scores[m[0].index as int] && s.source == sources[m[0].index as int]);
    } else {
        law_summary(m, scores, sources, n - 1);
        let was = summary(m, scores, sources, n - 1);
        if scores[x] >= was.best {
            assert(s.best == scores[m[n - 1].index as int] && s.source == sources[m[n - 1].index as int]);
        } else {
            let k = choose|k: int|
                0 <= k < n - 1 && was.best == scores[(#[trigger] m[k]).index as int] && was.source == sources[m[k].index as int];
            assert(s.best == scores[m[k].index as int] && s.source == sources[m[k].index as int]);
        }
    }
}

/// What comes of putting boxes with positive scores together: nothing, only if there are no boxes; otherwise clusters with at
/// least one vote each, with no more votes than there are detectors, and all together with no more than there are boxes; the
/// best single score of each is the score of one of the boxes. By the keys of their common scores, in which they are
/// listed best first, none comes before one with a greater score.
pub proof fn law_fused(
    boxes: Seq<Member>,
    overlaps: Seq<Seq<u32>>,
    thr: u32,
    lists: int,
    scores: Seq<u32>,
    sources: Seq<u32>,
    common: Seq<u32>,
)
    requires
        boxes.len() <= u32::MAX,
        boxes.len() <= usize::MAX,
        overlaps.len() == boxes.len(),
        forall|k: int|
            0 <= k < boxes.len() ==> (#[trigger] overlaps[k]).len() == clusters_of(boxes, overlaps, thr, k).len(),
        0 <= lists,
        forall|k: int| 0 <= k < boxes.len() ==> (#[trigger] boxes[k]).list < lists,
        forall|k: int| 0 <= k < boxes.len() ==> scores[(#[trigger] boxes[k]).index as int] > 0,
        common.len() == clusters_of(boxes, overlaps, thr, boxes.len() as int).len(),
    ensures
        ({
            let c = clusters_of(boxes, overlaps, thr, boxes.len() as int);
            &&& c.len() == 0 <==> boxes.len() == 0
            &&& forall|i: int|
                0 <= i < c.len() ==> 1 <= summary(#[trigger] c[i], scores, sources, c[i].len() as int).votes <= lists
            &&& votes_upto(c, c.len() as int) <= boxes.len()
            &&& forall|i: int|
                0 <= i < c.len() ==> exists|k: int|
                    0 <= k < boxes.len() && scores[(#[trigger] boxes[k]).index as int] == summary(
                        #[trigger] c[i],
                        scores,
                        sources,
                        c[i].len() as int,
                    ).best
            &&& ranked(common).len() == c.len()
            &&& forall|i: int| 0 <= i < c.len() ==> ranked(common).contains(i)
            &&& forall|a: int, b: int|
                0 <= a < b < c.len() ==> common[#[trigger] ranked(common)[a]] >= common[#[trigger] ranked(common)[b]]
        }),
{
    let n = boxes.len() as int;
    let c = clusters_of(boxes, overlaps, thr, n);
    law_votes(boxes, overlaps, thr, n, lists);
    lemma_members(boxes, overlaps, thr, n);
    assert(boxes.take(n) =~= boxes);
    assert forall|i: int| 0 <= i < c.len() implies 1 <= summary(#[trigger] c[i], scores, sources, c[i].len() as int).votes
        <= lists && exists|k: int|
        0 <= k < n && scores[(#[trigger] boxes[k]).index as int] == summary(c[i], scores, sources, c[i].len() as int).best by {
        let m = c[i];
        let l = m.len() as int;
        assert forall|a: int| 0 <= a < l implies scores[(#[trigger] m[a]).index as int] > 0 by {
            assert(boxes.contains(c[i][a]));
            let k = choose|k: int| 0 <= k < n && boxes[k] == c[i][a];
            assert(scores[boxes[k].index as int] > 0);
        }
        lemma_cluster_small(c, i, c.len() as int);
        law_summary(m, scores, sources, l);
        let s = summary(m, scores, sources, l);
        let a = choose|a: int|
            0 <= a < l && s.best == scores[(#[trigger] m[a]).index as int] && s.source == sources[m[a].index as int];
        assert(boxes.contains(c[i][a]));
        let k = choose|k: int| 0 <= k < n && boxes[k] == c[i][a];
        assert(scores[boxes[k].index as int] == s.best);
    }
    law_ranked_upto(common, common.len() as int);
    assert forall|i: int| 0 <= i < c.len() implies ranked(common).contains(i) by {
        law_ranked_complete(common, common.len() as int, i);
    }
}

proof fn lemma_cluster_small(c: Seq<Seq<Member>>, i: int, n: int)
    requires
        0 <= i < n <= c.len(),
    ensures
        c[i].len() <= votes_upto(c, n),
        0 <= votes_upto(c, n),
    decreases n,
{
    lemma_votes_positive(c, n - 1);
    if i < n - 1 {
        lemma_cluster_small(c, i, n - 1);
    }
}

proof fn lemma_votes_positive(c: Seq<Seq<Member>>, n: int)
    ensures
        0 <= votes_upto(c, n),
    decreases n,
{
    if n > 0 {
        lemma_votes_positive(c, n - 1);
    }
}

/// The bits of one.
pub const ONE_BITS: u32 = 0x3F80_0000;

/// The weights of so many detectors: those given, or one each, if none are given.
pub open spec fn weighed(weights: Seq<u32>, lists: int) -> Seq<u32> {
    if weights.len() == 0 {
        Seq::new(lists as nat, |i: int| ONE_BITS)
    } else {
        weights
    }
}

/// The bits of the weights of `lists` detectors, from the bits of the weights given, if any are.
pub fn weights_for(weights: &[u32], lists: usize) -> (w: Vec<u32>)
    ensures
        w@ == weighed(weights@, lists as int),
{
    let mut w: Vec<u32> = Vec::new();
    if weights.len() == 0 {
        for i in 0..lists
            invariant
                w@ == Seq::new(i as nat, |i: int| ONE_BITS),
        {
            w.push(ONE_BITS);
            assert(w@ =~= Seq::new((i + 1) as nat, |i: int| ONE_BITS));
        }
    } else {
        for i in 0..weights.len()
            invariant
                w@ == weights@.take(i as int),
        {
            w.push(weights[i]);
            assert(w@ =~= weights@.take(i + 1));
        }
    }
    assert(w@ =~= weighed(weights@, lists as int));
    w
}

/// To give no weights is to give each detector the weight one.
pub proof fn law_no_weights(lists: int)
    requires
        0 <= lists,
    ensures
        weighed(Seq::empty(), lists) == weighed(Seq::new(lists as nat, |i: int| ONE_BITS), lists),
{
    assert(weighed(Seq::empty(), lists) =~= weighed(Seq::new(lists as nat, |i: int| ONE_BITS), lists));
}

/// The order in which boxes are placed, and in which clusters are listed: best first.
pub fn placing_order(scores: &[u32]) -> (order: Vec<usize>)
    ensures
        ints(order@) == ranked(scores@),
{
    rank(scores)
}

proof fn lemma_first_overlapped(overlaps: Seq<u32>, thr: u32, from: int)
    requires
        0 <= from <= overlaps.len(),
    ensures
        match overlapped(overlaps, thr, from) {
            Some(i) => from <= i < overlaps.len() && overlaps[i] >= thr && forall|j: int| from <= j < i ==> #[trigger] overlaps[j] < thr,
            None => forall|j: int| from <= j < overlaps.len() ==> #[trigger] overlaps[j] < thr,
        },
    decreases overlaps.len() - from,
{
    if from < overlaps.len() && overlaps[from] < thr {
        lemma_first_overlapped(overlaps, thr, from + 1);
    }
}

/// What becomes of a box: it goes by the first cluster that it overlaps by at least the threshold. It joins that cluster, as its last
/// box, if no box of its detector is in it, and is dropped otherwise. A box that overlaps no cluster by as much starts one, as the last.
pub proof fn law_placement(c: Seq<Seq<Member>>, b: Member, overlaps: Seq<u32>, thr: u32, i: int)
    requires
        overlaps.len() == c.len() <= usize::MAX,
        0 <= i < c.len(),
    ensures
        ({
            let now = placed(c, b, placement(c, b, overlaps, thr));
            let here = overlaps[i] >= thr && forall|j: int| 0 <= j < i ==> #[trigger] overlaps[j] < thr;
            let twice = exists|k: int| 0 <= k < c[i].len() && (#[trigger] c[i][k]).list == b.list;
            &&& here && !twice ==> now.len() == c.len() && now[i].len() == c[i].len() + 1 && now[i].last() == b && now[i].drop_last() == c[i]
                && forall|j: int| 0 <= j < c.len() && j != i ==> #[trigger] now[j] == c[j]
            &&& here && twice ==> now == c
            &&& (forall|j: int| 0 <= j < c.len() ==> #[trigger] overlaps[j] < thr) ==> now.len() == c.len() + 1 && now.last().len() == 1
                && now.last()[0] == b && now.drop_last() == c
        }),
{
    lemma_first_overlapped(overlaps, thr, 0);
    let p = placement(c, b, overlaps, thr);
    let now = placed(c, b, p);
    if overlaps[i] >= thr && forall|j: int| 0 <= j < i ==> #[trigger] overlaps[j] < thr {
        let o = overlapped(overlaps, thr, 0);
        assert(o is Some);
        assert(o->0 == i) by {
            if o->0 < i {
                assert(overlaps[o->0] < thr);
            }
        }
        assert(has_list(c[i], b.list) == exists|k: int| 0 <= k < c[i].len() && (#[trigger] c[i][k]).list == b.list);
        if !has_list(c[i], b.list) {
            assert(now[i].drop_last() =~= c[i]);
        }
    }
    if forall|j: int| 0 <= j < c.len() ==> #[trigger] overlaps[j] < thr {
        assert(now.drop_last() =~= c);
    }
}

/// The first box starts the first cluster.
pub proof fn law_first_box(b: Member, thr: u32)
    ensures
        placed(Seq::empty(), b, placement(Seq::empty(), b, Seq::empty(), thr)) == seq![seq![b]],
{
    assert(placed(Seq::empty(), b, placement(Seq::empty(), b, Seq::empty(), thr)) =~= seq![seq![b]]);
}

} // verus!
