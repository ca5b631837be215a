//! Giving the people and faces of a frame the numbers that they had in earlier frames.
//!
//! Each observation is compared with each masklet that is remembered; the pairs that are alike enough are taken
//! best first, and each observation and each masklet is used once. What is left over gets a new number.
use crate::rank::{ints, law_ranked_complete, law_ranked_upto, rank, ranked};
use vstd::prelude::*;

verus! {

/// How many frames in a row a masklet may be missing before it is forgotten.
pub const MASKLET_MAX_MISS: u32 = 8;

/// The least likeness, which is not enough itself, of an observation and its masklet: the bits of 0.3.
pub const LINK_THRESH: u32 = 0x3E99_999A;

/// A masklet that is remembered.
#[derive(Debug, Clone, Copy, PartialEq, Eq, Structural)]
pub struct Masklet {
    pub id: u64,
    /// For how many frames it has been missing.
    pub missed: u32,
}

/// An observation and a masklet that are alike.
#[derive(Debug, Clone, Copy, PartialEq, Eq, Structural)]
pub struct Pair {
    pub likeness: u32,
    pub seen: usize,
    pub known: usize,
}

/// The likenesses of a table.
pub open spec fn rows(m: Seq<Vec<u32>>) -> Seq<Seq<u32>> {
    m.map_values(|r: Vec<u32>| r@)
}

/// The pairs of observation `i` with the first `j` masklets that are alike enough.
pub open spec fn pairs_of(row: Seq<u32>, i: int, j: int) -> Seq<Pair>
    decreases j,
{
    if j <= 0 {
        Seq::empty()
    } else if row[j - 1] > LINK_THRESH {
        pairs_of(row, i, j - 1).push(Pair { likeness: row[j - 1], seen: i as usize, known: (j - 1) as usize })
    } else {
        pairs_of(row, i, j - 1)
    }
}

/// The pairs of the first `n` observations.
pub open spec fn pairs(m: Seq<Seq<u32>>, n: int) -> Seq<Pair>
    decreases n,
{
    if n <= 0 {
        Seq::empty()
    } else {
        pairs(m, n - 1) + pairs_of(m[n - 1], n - 1, m[n - 1].len() as int)
    }
}

/// The likenesses of pairs.
pub open spec fn keys(p: Seq<Pair>) -> Seq<u32> {
    p.map_values(|x: Pair| x.likeness)
}

/// Which masklet each observation has, and which masklets are taken.
#[verifier::ext_equal]
pub struct Links {
    pub of: Seq<Option<usize>>,
    pub taken: Seq<bool>,
}

/// The links after a pair has been used, if both its ends are free.
pub open spec fn linked_one(v: Links, p: Pair) -> Links {
    if v.of[p.seen as int] is None && !v.taken[p.known as int] {
        Links { of: v.of.update(p.seen as int, Some(p.known)), taken: v.taken.update(p.known as int, true) }
    } else {
        v
    }
}

/// The links after the first `n` pairs of an order have been used.
pub open spec fn linked_upto(seen: int, known: int, p: Seq<Pair>, order: Seq<int>, n: int) -> Links
    decreases n,
{
    if n <= 0 {
        Links { of: Seq::new(seen as nat, |i: int| None), taken: Seq::new(known as nat, |j: int| false) }
    } else {
        linked_one(linked_upto(seen, known, p, order, n - 1), p[order[n - 1]])
    }
}

/// The links between observations and `known` masklets.
pub open spec fn linked(m: Seq<Seq<u32>>, known: int) -> Links {
    let p = pairs(m, m.len() as int);
    linked_upto(m.len() as int, known, p, ranked(keys(p)), p.len() as int)
}

/// Whether the likenesses of a table are those of observations and `known` masklets.
pub open spec fn likeness_ok(m: Seq<Seq<u32>>, known: int) -> bool {
    forall|i: int| 0 <= i < m.len() ==> (#[trigger] m[i]).len() == known
}

/// What a pair is.
pub open spec fn pair_ok(m: Seq<Seq<u32>>, known: int, p: Pair) -> bool {
    p.seen < m.len() && p.known < known && p.likeness == m[p.seen as int][p.known as int] && p.likeness > LINK_THRESH
}

proof fn lemma_pairs_of(m: Seq<Seq<u32>>, known: int, i: int, j: int)
    requires
        likeness_ok(m, known),
        0 <= i < m.len() <= usize::MAX,
        0 <= j <= known <= usize::MAX,
    ensures
        forall|k: int|
            0 <= k < pairs_of(m[i], i, j).len() ==> pair_ok(m, known, #[trigger] pairs_of(m[i], i, j)[k]) && pairs_of(
                m[i],
                i,
                j,
            )[k].seen == i,
        forall|b: int|
            0 <= b < j && m[i][b] > LINK_THRESH ==> exists|k: int|
                0 <= k < pairs_of(m[i], i, j).len() && #[trigger] pairs_of(m[i], i, j)[k].known == b,
    decreases j,
{
    if j > 0 {
        lemma_pairs_of(m, known, i, j - 1);
        let q = pairs_of(m[i], i, j - 1);
        let p = pairs_of(m[i], i, j);
        assert(m[i].len() == known);
        assert forall|k: int| 0 <= k < p.len() implies pair_ok(m, known, #[trigger] p[k]) && p[k].seen == i by {
            if k < q.len() {
                assert(p[k] == q[k]);
            }
        }
        assert forall|b: int| 0 <= b < j && m[i][b] > LINK_THRESH implies exists|k: int|
            0 <= k < p.len() && #[trigger] p[k].known == b by {
            if b < j - 1 {
                let k = choose|k: int| 0 <= k < q.len() && #[trigger] q[k].known == b;
                assert(p[k].known == b);
            } else {
                assert(p[p.len() - 1].known == b);
            }
        }
    }
}

proof fn lemma_pairs(m: Seq<Seq<u32>>, known: int, n: int)
    requires
        likeness_ok(m, known),
        0 <= n <= m.len() <= usize::MAX,
        0 <= known <= usize::MAX,
    ensures
        forall|k: int| 0 <= k < pairs(m, n).len() ==> pair_ok(m, known, #[trigger] pairs(m, n)[k]),
        forall|a: int, b: int|
            0 <= a < n && 0 <= b < known && #[trigger] m[a][b] > LINK_THRESH ==> exists|k: int|
                0 <= k < pairs(m, n).len() && #[trigger] pairs(m, n)[k].known == b && pairs(m, n)[k].seen == a,
    decreases n,
{
    if n > 0 {
        lemma_pairs(m, known, n - 1);
        assert(m[n - 1].len() == known);
        lemma_pairs_of(m, known, n - 1, known);
        let q = pairs(m, n - 1);
        let r = pairs_of(m[n - 1], n - 1, known);
        let p = pairs(m, n);
        assert(p == q + r);
        assert forall|k: int| 0 <= k < p.len() implies pair_ok(m, known, #[trigger] p[k]) by {
            if k < q.len() {
                assert(p[k] == q[k]);
            } else {
                assert(p[k] == r[k - q.len()]);
            }
        }
        assert forall|a: int, b: int|
            0 <= a < n && 0 <= b < known && #[trigger] m[a][b] > LINK_THRESH implies exists|k: int|
            0 <= k < p.len() && #[trigger] p[k].known == b && p[k].seen == a by {
            if a < n - 1 {
                let k = choose|k: int| 0 <= k < q.len() && #[trigger] q[k].known == b && q[k].seen == a;
                assert(p[k].known == b && p[k].seen == a);
            } else {
                let k = choose|k: int| 0 <= k < r.len() && #[trigger] r[k].known == b;
                assert(p[q.len() + k].known == b && p[q.len() + k].seen == a);
            }
        }
    }
}

/// Whether links are sound: every link is to a masklet, no masklet has two observations, and the masklets that are
/// taken are those that have one.
pub open spec fn links_ok(v: Links, seen: int, known: int) -> bool {
    &&& v.of.len() == seen
    &&& v.taken.len() == known
    &&& forall|i: int| 0 <= i < seen && (#[trigger] v.of[i]) is Some ==> v.of[i]->0 < known && v.taken[v.of[i]->0 as int]
    &&& forall|i: int, j: int| 0 <= i < j < seen && (#[trigger] v.of[i]) is Some ==> v.of[i] != #[trigger] v.of[j]
    &&& forall|j: int| 0 <= j < known && #[trigger] v.taken[j] ==> exists|i: int| 0 <= i < seen && v.of[i] == Some(j as usize)
}

proof fn lemma_linked_upto(m: Seq<Seq<u32>>, known: int, p: Seq<Pair>, order: Seq<int>, n: int)
    requires
        0 <= n <= order.len(),
        m.len() <= usize::MAX,
        0 <= known <= usize::MAX,
        forall|k: int| 0 <= k < p.len() ==> pair_ok(m, known, #[trigger] p[k]),
        forall|a: int| 0 <= a < order.len() ==> 0 <= #[trigger] order[a] < p.len(),
    ensures
        links_ok(linked_upto(m.len() as int, known, p, order, n), m.len() as int, known),
        forall|i: int|
            0 <= i < m.len() && (#[trigger] linked_upto(m.len() as int, known, p, order, n).of[i]) is Some ==> m[i][linked_upto(
                m.len() as int,
                known,
                p,
                order,
                n,
            ).of[i]->0 as int] > LINK_THRESH,
        forall|k: int|
            0 <= k < n ==> linked_upto(m.len() as int, known, p, order, n).of[p[#[trigger] order[k]].seen as int] is Some
                || linked_upto(m.len() as int, known, p, order, n).taken[p[order[k]].known as int],
    decreases n,
{
    let seen = m.len() as int;
    if n > 0 {
        lemma_linked_upto(m, known, p, order, n - 1);
        let v = linked_upto(seen, known, p, order, n - 1);
        let w = linked_upto(seen, known, p, order, n);
        assert(0 <= order[n - 1] < p.len());
        let x = p[order[n - 1]];
        assert(pair_ok(m, known, x));
        let a = x.seen as int;
        let b = x.known as int;
        if v.of[a] is None && !v.taken[b] {
            assert forall|j: int| 0 <= j < known && #[trigger] w.taken[j] implies exists|i: int|
                0 <= i < seen && w.of[i] == Some(j as usize) by {
                if j == b {
                    assert(w.of[a] == Some(j as usize));
                } else {
                    assert(v.taken[j]);
                    let i = choose|i: int| 0 <= i < seen && v.of[i] == Some(j as usize);
                    assert(w.of[i] == Some(j as usize));
                }
            }
            assert forall|i: int, j: int| 0 <= i < j < seen && (#[trigger] w.of[i]) is Some implies w.of[i]
                != #[trigger] w.of[j] by {
                if i == a {
                    if v.of[j] is Some {
                        assert(v.taken[v.of[j]->0 as int]);
                    }
                } else if j == a {
                    assert(v.taken[v.of[i]->0 as int]);
                }
            }
        }
    }
}

/// The links are sound, every link is between an observation and a masklet that are alike enough, and no such pair is
/// left of which both are free.
pub proof fn law_linked(m: Seq<Seq<u32>>, known: int)
    requires
        likeness_ok(m, known),
        m.len() <= usize::MAX,
        0 <= known <= usize::MAX,
    ensures
        links_ok(linked(m, known), m.len() as int, known),
        forall|i: int|
            0 <= i < m.len() && (#[trigger] linked(m, known).of[i]) is Some ==> m[i][linked(m, known).of[i]->0 as int]
                > LINK_THRESH,
        forall|i: int, j: int|
            0 <= i < m.len() && 0 <= j < known && #[trigger] m[i][j] > LINK_THRESH ==> linked(m, known).of[i] is Some
                || linked(m, known).taken[j],
{
    let n = m.len() as int;
    let p = pairs(m, n);
    let order = ranked(keys(p));
    lemma_pairs(m, known, n);
    law_ranked_upto(keys(p), p.len() as int);
    lemma_linked_upto(m, known, p, order, p.len() as int);
    let v = linked(m, known);
    assert forall|i: int, j: int| 0 <= i < n && 0 <= j < known && #[trigger] m[i][j] > LINK_THRESH implies v.of[i] is Some
        || v.taken[j] by {
        let k = choose|k: int| 0 <= k < p.len() && #[trigger] p[k].known == j && p[k].seen == i;
        law_ranked_complete(keys(p), p.len() as int, k);
        let a = choose|a: int| 0 <= a < order.len() && order[a] == k;
        assert(p[order[a]].seen == i);
    }
}

/// How many of the first `i` observations have no masklet.
pub open spec fn strangers(of: Seq<Option<usize>>, i: int) -> int
    decreases i,
{
    if i <= 0 {
        0
    } else {
        strangers(of, i - 1) + if of[i - 1] is None {
            1int
        } else {
            0
        }
    }
}

/// What is remembered of masklets.
#[verifier::ext_equal]
pub struct MemoryView {
    pub masklets: Seq<Masklet>,
    pub next_id: int,
}

/// The numbers of the observations: that of their masklet, or the next ones that have not been given yet.
pub open spec fn ids(v: MemoryView, of: Seq<Option<usize>>) -> Seq<u64> {
    Seq::new(
        of.len(),
        |i: int|
            match of[i] {
                Some(j) => v.masklets[j as int].id,
                None => (v.next_id + strangers(of, i)) as u64,
            },
    )
}

/// The masklets after a frame, before any is forgotten: those there were, and the new ones.
pub open spec fn renewed(v: MemoryView, links: Links) -> Seq<Masklet> {
    Seq::new(
        v.masklets.len(),
        |j: int|
            Masklet {
                id: v.masklets[j].id,
                missed: if links.taken[j] {
                    0
                } else {
                    (v.masklets[j].missed + 1) as u32
                },
            },
    ) + Seq::new(
        strangers(links.of, links.of.len() as int) as nat,
        |k: int| Masklet { id: (v.next_id + k) as u64, missed: 0 },
    )
}

/// The masklets that are not forgotten.
pub open spec fn remembered(s: Seq<Masklet>) -> Seq<Masklet>
    decreases s.len(),
{
    if s.len() == 0 {
        Seq::empty()
    } else if s.last().missed <= MASKLET_MAX_MISS {
        remembered(s.drop_last()).push(s.last())
    } else {
        remembered(s.drop_last())
    }
}

/// What is remembered after a frame.
pub open spec fn after_frame(v: MemoryView, links: Links) -> MemoryView {
    MemoryView {
        masklets: remembered(renewed(v, links)),
        next_id: v.next_id + strangers(links.of, links.of.len() as int),
    }
}

/// What always holds of a memory: no masklet has been missing for too long, and no two have the same number, nor one
/// that is still to be given.
pub open spec fn memory_ok(v: MemoryView) -> bool {
    &&& forall|j: int| 0 <= j < v.masklets.len() ==> (#[trigger] v.masklets[j]).missed <= MASKLET_MAX_MISS
    &&& forall|j: int| 0 <= j < v.masklets.len() ==> (#[trigger] v.masklets[j]).id < v.next_id
    &&& forall|i: int, j: int|
        0 <= i < j < v.masklets.len() ==> (#[trigger] v.masklets[i]).id < (#[trigger] v.masklets[j]).id
}

proof fn lemma_strangers(of: Seq<Option<usize>>, i: int, n: int)
    requires
        0 <= i <= n <= of.len(),
    ensures
        0 <= strangers(of, i) <= i,
        strangers(of, i) <= strangers(of, n) <= n,
        i < n && of[i] is None ==> strangers(of, i) < strangers(of, n),
    decreases n,
{
    if n > i {
        lemma_strangers(of, i, n - 1);
    } else if i > 0 {
        lemma_strangers(of, i - 1, i - 1);
    }
}

proof fn lemma_remembered(s: Seq<Masklet>)
    requires
        forall|i: int, j: int| 0 <= i < j < s.len() ==> (#[trigger] s[i]).id < (#[trigger] s[j]).id,
    ensures
        forall|i: int| 0 <= i < remembered(s).len() ==> (#[trigger] remembered(s)[i]).missed <= MASKLET_MAX_MISS,
        forall|i: int| 0 <= i < remembered(s).len() ==> s.contains(#[trigger] remembered(s)[i]),
        forall|i: int, j: int|
            0 <= i < j < remembered(s).len() ==> (#[trigger] remembered(s)[i]).id < (#[trigger] remembered(s)[j]).id,
    decreases s.len(),
{
    let h = remembered(s);
    if s.len() > 0 {
        let rest = s.drop_last();
        let g = remembered(rest);
        assert forall|i: int, j: int| 0 <= i < j < rest.len() implies (#[trigger] rest[i]).id < (
        #[trigger] rest[j]).id by {
            assert(s[i].id < s[j].id);
        }
        lemma_remembered(rest);
        let last = s.len() - 1;
        assert(s.contains(s[last]));
        assert forall|i: int| 0 <= i < g.len() implies s.contains(#[trigger] g[i]) && g[i].id < s[last].id by {
            assert(rest.contains(g[i]));
            let k = choose|k: int| 0 <= k < rest.len() && rest[k] == g[i];
            assert(s[k] == g[i]);
            assert(s[k].id < s[last].id);
        }
        assert forall|i: int| 0 <= i < h.len() implies (#[trigger] h[i]).missed <= MASKLET_MAX_MISS && s.contains(h[i]) by {
            if i < g.len() {
                assert(h[i] == g[i]);
            }
        }
        assert forall|i: int, j: int| 0 <= i < j < h.len() implies (#[trigger] h[i]).id < (#[trigger] h[j]).id by {
            assert(h[i] == g[i]);
            if j < g.len() {
                assert(h[j] == g[j]);
            }
        }
    }
}

/// What holds of a memory holds of it after a frame.
pub proof fn law_memory_stays_ok(v: MemoryView, links: Links)
    requires
        memory_ok(v),
        0 <= v.next_id,
        v.next_id + links.of.len() <= u64::MAX,
    ensures
        memory_ok(after_frame(v, links)),
{
    let all = renewed(v, links);
    let n = v.masklets.len() as int;
    let end = v.next_id + strangers(links.of, links.of.len() as int);
    lemma_strangers(links.of, 0, links.of.len() as int);
    assert forall|j: int| 0 <= j < all.len() implies (#[trigger] all[j]).id < end && (j < n ==> all[j].id
        == v.masklets[j].id) && (j >= n ==> all[j].id == v.next_id + (j - n)) by {
        if j < n {
            assert(v.masklets[j].id < v.next_id);
        }
    }
    assert forall|i: int, j: int| 0 <= i < j < all.len() implies (#[trigger] all[i]).id < (#[trigger] all[j]).id by {
        if j < n {
            assert(v.masklets[i].id < v.masklets[j].id);
        } else if i < n {
            assert(v.masklets[i].id < v.next_id);
        }
    }
    lemma_remembered(all);
    let h = remembered(all);
    assert forall|j: int| 0 <= j < h.len() implies (#[trigger] h[j]).id < end by {
        assert(all.contains(h[j]));
    }
}

/// No two observations of a frame get the same number.
pub proof fn law_ids_distinct(v: MemoryView, links: Links, i: int, j: int)
    requires
        memory_ok(v),
        0 <= v.next_id,
        v.next_id + links.of.len() <= u64::MAX,
        links_ok(links, links.of.len() as int, v.masklets.len() as int),
        0 <= i < j < links.of.len(),
    ensures
        ids(v, links.of)[i] != ids(v, links.of)[j],
{
    let n = links.of.len() as int;
    lemma_strangers(links.of, i, j);
    lemma_strangers(links.of, j, n);
    match (links.of[i], links.of[j]) {
        (Some(a), Some(b)) => {
            assert(links.of[i] != links.of[j]);
            if a < b {
                assert(v.masklets[a as int].id < v.masklets[b as int].id);
            } else {
                assert(v.masklets[b as int].id < v.masklets[a as int].id);
            }
        },
        (Some(a), None) => {
            assert(v.masklets[a as int].id < v.next_id);
        },
        (None, Some(b)) => {
            assert(links.of[j] is Some);
            assert(v.masklets[b as int].id < v.next_id);
        },
        (None, None) => {},
    }
}

/// The pairs that are alike enough.
fn find_pairs(m: &Vec<Vec<u32>>, known: usize) -> (p: Vec<Pair>)
    requires
        likeness_ok(rows(m@), known as int),
    ensures
        p@ == pairs(rows(m@), m@.len() as int),
{
    let mut p: Vec<Pair> = Vec::new();
    for i in 0..m.len()
        invariant
            likeness_ok(rows(m@), known as int),
            p@ == pairs(rows(m@), i as int),
    {
        let ghost before = p@;
        let ghost row = rows(m@)[i as int];
        assert(row == m@[i as int]@);
        assert(row.len() == known);
        assert(p@ =~= before + pairs_of(row, i as int, 0));
        for j in 0..known
            invariant
                i < m@.len(),
                row == m@[i as int]@,
                row.len() == known,
                p@ == before + pairs_of(row, i as int, j as int),
        {
            let likeness: u32 = m[i][j];
            if likeness > LINK_THRESH {
                p.push(Pair { likeness, seen: i, known: j });
            }
            assert(p@ =~= before + pairs_of(row, i as int, j + 1));
        }
    }
    p
}

/// What came of a frame: the number of each observation, and the masklet (by its place in the memory as it was) that it
/// was linked to.
pub struct LinkReport {
    pub ids: Vec<u64>,
    pub of: Vec<Option<usize>>,
}

/// The masklets that are remembered.
pub struct MaskletMemory {
    masklets: Vec<Masklet>,
    next_id: u64,
}

impl View for MaskletMemory {
    type V = MemoryView;

    closed spec fn view(&self) -> MemoryView {
        MemoryView { masklets: self.masklets@, next_id: self.next_id as int }
    }
}

impl MaskletMemory {
    /// What always holds of a memory.
    pub open spec fn wf(&self) -> bool {
        memory_ok(self@)
    }

    /// A memory without masklets. The first number it gives is 1.
    pub fn new() -> (r: MaskletMemory)
        ensures
            r@ == (MemoryView { masklets: Seq::empty(), next_id: 1 }),
            r.wf(),
    {
        MaskletMemory { masklets: Vec::new(), next_id: 1 }
    }

    /// How many masklets are remembered.
    pub fn active_masklets(&self) -> (n: usize)
        ensures
            n == self@.masklets.len(),
    {
        self.masklets.len()
    }

    /// The masklets that are remembered.
    pub fn masklets(&self) -> (m: &Vec<Masklet>)
        ensures
            m@ == self@.masklets,
    {
        &self.masklets
    }

    fn forget(&mut self)
        ensures
            final(self)@ == (MemoryView { masklets: remembered(old(self)@.masklets), next_id: old(self)@.next_id }),
    {
        let ghost all = self@.masklets;
        let mut out: Vec<Masklet> = Vec::new();
        assert(all.take(0) =~= Seq::empty());
        for j in 0..self.masklets.len()
            invariant
                all == self.masklets@,
                out@ == remembered(all.take(j as int)),
        {
            let m: Masklet = self.masklets[j];
            assert(all.take(j + 1).drop_last() =~= all.take(j as int));
            assert(all.take(j + 1).last() == m);
            if m.missed <= MASKLET_MAX_MISS {
                out.push(m);
            }
        }
        assert(all.take(all.len() as int) =~= all);
        self.masklets = out;
    }

    /// Takes in the observations of a frame: `likeness` holds one row per observation, with the key of its likeness
    /// to each masklet that is remembered.
    pub fn link(&mut self, likeness: &Vec<Vec<u32>>) -> (r: LinkReport)
        requires
            old(self).wf(),
            likeness_ok(rows(likeness@), old(self)@.masklets.len() as int),
            old(self)@.next_id + likeness@.len() <= u64::MAX,
        ensures
            final(self).wf(),
            ({
                let links = linked(rows(likeness@), old(self)@.masklets.len() as int);
                &&& r.of@ == links.of
                &&& r.ids@ == ids(old(self)@, links.of)
                &&& final(self)@ == after_frame(old(self)@, links)
            }),
    {
        let ghost v = self@;
        let first: u64 = self.next_id;
        let known: usize = self.masklets.len();
        let seen: usize = likeness.len();
        let ghost m = rows(likeness@);
        let p = find_pairs(likeness, known);
        let mut k: Vec<u32> = Vec::new();
        for a in 0..p.len()
            invariant
                k@ == keys(p@).take(a as int),
        {
            k.push(p[a].likeness);
            assert(k@ =~= keys(p@).take(a + 1));
        }
        assert(k@ =~= keys(p@));
        let order = rank(k.as_slice());
        proof {
            lemma_pairs(m, known as int, seen as int);
        }
        let mut of: Vec<Option<usize>> = vec![None; seen];
        let mut taken: Vec<bool> = vec![false; known];
        assert(Links { of: of@, taken: taken@ } =~= linked_upto(seen as int, known as int, p@, ints(order@), 0));
        for a in 0..order.len()
            invariant
                m.len() == seen,
                of@.len() == seen,
                taken@.len() == known,
                order@.len() == p@.len(),
                forall|a: int| 0 <= a < order@.len() ==> (#[trigger] order@[a]) < p@.len(),
                forall|k: int| 0 <= k < p@.len() ==> pair_ok(m, known as int, #[trigger] p@[k]),
                (Links { of: of@, taken: taken@ }) == linked_upto(seen as int, known as int, p@, ints(order@), a as int),
        {
            let x: Pair = p[order[a]];
            let ghost before = Links { of: of@, taken: taken@ };
            assert(pair_ok(m, known as int, x));
            assert(ints(order@)[a as int] == order@[a as int]);
            if of[x.seen].is_none() && !taken[x.known] {
                of.set(x.seen, Some(x.known));
                taken.set(x.known, true);
            }
            assert(Links { of: of@, taken: taken@ } =~= linked_one(before, x));
        }
        let ghost links = linked(m, known as int);
        assert(links == Links { of: of@, taken: taken@ });
        proof {
            law_linked(m, known as int);
            lemma_strangers(of@, 0, of@.len() as int);
        }
        let mut ids_out: Vec<u64> = Vec::new();
        for i in 0..seen
            invariant
                of@.len() == seen,
                links == (Links { of: of@, taken: taken@ }),
                links_ok(links, seen as int, known as int),
                self.masklets@ == v.masklets,
                known == v.masklets.len(),
                v.next_id + seen <= u64::MAX,
                v.next_id >= 0,
                self.next_id == v.next_id + strangers(of@, i as int),
                ids_out@.len() == i,
                forall|a: int| 0 <= a < i ==> ids_out@[a] == ids(v, of@)[a],
        {
            proof {
                lemma_strangers(of@, i as int, seen as int);
            }
            match of[i] {
                Some(j) => {
                    assert(links.of[i as int] is Some);
                    ids_out.push(self.masklets[j].id);
                },
                None => {
                    ids_out.push(self.next_id);
                    self.next_id = self.next_id + 1;
                },
            }
        }
        assert(ids_out@ =~= ids(v, of@));
        for j in 0..known
            invariant
                taken@.len() == known,
                self.masklets@.len() == known,
                known == v.masklets.len(),
                links == (Links { of: of@, taken: taken@ }),
                memory_ok(v),
                self.next_id == v.next_id + strangers(of@, of@.len() as int),
                forall|a: int| 0 <= a < j ==> self.masklets@[a] == #[trigger] renewed(v, links)[a],
                forall|a: int| j <= a < known ==> self.masklets@[a] == #[trigger] v.masklets[a],
        {
            let x: Masklet = self.masklets[j];
            assert(x == v.masklets[j as int]);
            assert(renewed(v, links)[j as int].id == x.id);
            let missed: u32 = if taken[j] { 0 } else { x.missed + 1 };
            self.masklets.set(j, Masklet { id: x.id, missed });
        }
        let mut next: u64 = first;
        let end: u64 = self.next_id;
        while next < end
            invariant
                v.next_id <= next <= end,
                end == self.next_id,
                end == v.next_id + strangers(of@, of@.len() as int),
                links.of == of@,
                known == v.masklets.len(),
                self.masklets@.len() == known + (next - v.next_id),
                forall|a: int| 0 <= a < self.masklets@.len() ==> self.masklets@[a] == #[trigger] renewed(v, links)[a],
            decreases end - next,
        {
            self.masklets.push(Masklet { id: next, missed: 0 });
            next = next + 1;
        }
        assert(self.masklets@ =~= renewed(v, links));
        proof {
            law_memory_stays_ok(v, links);
        }
        self.forget();
        LinkReport { ids: ids_out, of }
    }
}

/// Whether the link of observation `i` is at least as good as `l`.
spec fn well_linked(m: Seq<Seq<u32>>, v: Links, i: int, l: u32) -> bool {
    v.of[i] is Some && m[i][v.of[i]->0 as int] >= l
}

/// Whether masklet `j` has an observation that is at least as like as `l`.
spec fn well_taken(m: Seq<Seq<u32>>, v: Links, j: int, l: u32) -> bool {
    exists|i: int| 0 <= i < m.len() && #[trigger] v.of[i] == Some(j as usize) && m[i][j] >= l
}

proof fn lemma_best_first(m: Seq<Seq<u32>>, known: int, p: Seq<Pair>, order: Seq<int>, n: int)
    requires
        0 <= n <= order.len(),
        m.len() <= usize::MAX,
        0 <= known <= usize::MAX,
        forall|k: int| 0 <= k < p.len() ==> pair_ok(m, known, #[trigger] p[k]),
        forall|a: int| 0 <= a < order.len() ==> 0 <= #[trigger] order[a] < p.len(),
        forall|a: int, b: int| 0 <= a < b < order.len() ==> p[#[trigger] order[a]].likeness >= p[#[trigger] order[b]].likeness,
    ensures
        ({
            let v = linked_upto(m.len() as int, known, p, order, n);
            &&& forall|i: int|
                0 <= i < m.len() && (#[trigger] v.of[i]) is Some ==> exists|b: int|
                    0 <= b < n && p[#[trigger] order[b]].seen == i && p[order[b]].known == v.of[i]->0
            &&& forall|a: int|
                0 <= a < n ==> well_linked(m, v, p[#[trigger] order[a]].seen as int, p[order[a]].likeness) || well_taken(
                    m,
                    v,
                    p[order[a]].known as int,
                    p[order[a]].likeness,
                )
        }),
    decreases n,
{
    let seen = m.len() as int;
    if n > 0 {
        lemma_best_first(m, known, p, order, n - 1);
        lemma_linked_upto(m, known, p, order, n - 1);
        lemma_linked_upto(m, known, p, order, n);
        let v = linked_upto(seen, known, p, order, n - 1);
        let w = linked_upto(seen, known, p, order, n);
        assert(0 <= order[n - 1] < p.len());
        let x = p[order[n - 1]];
        assert(pair_ok(m, known, x));
        let (a, b) = (x.seen as int, x.known as int);
        let free = v.of[a] is None && !v.taken[b];
        assert forall|i: int| 0 <= i < seen && v.of[i] is Some implies #[trigger] w.of[i] == v.of[i] by {}
        assert forall|i: int| 0 <= i < seen && (#[trigger] w.of[i]) is Some implies exists|c: int|
            0 <= c < n && p[#[trigger] order[c]].seen == i && p[order[c]].known == w.of[i]->0 by {
            if v.of[i] is Some {
                let c = choose|c: int| 0 <= c < n - 1 && p[#[trigger] order[c]].seen == i && p[order[c]].known == v.of[i]->0;
                assert(p[order[c]].seen == i);
            } else {
                assert(p[order[n - 1]].seen == i);
            }
        }
        assert forall|c: int| 0 <= c < n implies well_linked(m, w, p[#[trigger] order[c]].seen as int, p[order[c]].likeness) || well_taken(
            m,
            w,
            p[order[c]].known as int,
            p[order[c]].likeness,
        ) by {
            let y = p[order[c]];
            assert(0 <= order[c] < p.len());
            assert(pair_ok(m, known, y));
            if c < n - 1 {
                if !well_linked(m, v, y.seen as int, y.likeness) {
                    let i = choose|i: int| 0 <= i < seen && #[trigger] v.of[i] == Some(y.known) && m[i][y.known as int] >= y.likeness;
                    assert(w.of[i] == Some(y.known));
                }
            } else if free {
                assert(w.of[a] == Some(x.known));
            } else if v.of[a] is Some {
                let e = choose|e: int| 0 <= e < n - 1 && p[#[trigger] order[e]].seen == a && p[order[e]].known == v.of[a]->0;
                assert(0 <= order[e] < p.len());
                assert(pair_ok(m, known, p[order[e]]));
                assert(p[order[e]].likeness >= p[order[n - 1]].likeness);
            } else {
                let i = choose|i: int| 0 <= i < seen && v.of[i] == Some(x.known);
                assert(v.of[i] is Some);
                let e = choose|e: int| 0 <= e < n - 1 && p[#[trigger] order[e]].seen == i && p[order[e]].known == v.of[i]->0;
                assert(0 <= order[e] < p.len());
                assert(pair_ok(m, known, p[order[e]]));
                assert(p[order[e]].likeness >= p[order[n - 1]].likeness);
                assert(w.of[i] == Some(x.known));
            }
        }
    }
}

/// The pairs that are most alike are used first: where an observation and a masklet are more alike than 0.3, the observation has a
/// masklet that it is at least as like, or the masklet has an observation that is at least as like it.
pub proof fn law_most_alike_first(m: Seq<Seq<u32>>, known: int, i: int, j: int)
    requires
        likeness_ok(m, known),
        m.len() <= usize::MAX,
        0 <= known <= usize::MAX,
        0 <= i < m.len(),
        0 <= j < known,
        m[i][j] > 0x3E99_999A,
    ensures
        ({
            let of = linked(m, known).of;
            ||| of[i] is Some && m[i][of[i]->0 as int] >= m[i][j]
            ||| exists|k: int| 0 <= k < m.len() && #[trigger] of[k] == Some(j as usize) && m[k][j] >= m[i][j]
        }),
{
    let n = m.len() as int;
    let p = pairs(m, n);
    let order = ranked(keys(p));
    lemma_pairs(m, known, n);
    law_ranked_upto(keys(p), p.len() as int);
    assert forall|a: int, b: int| 0 <= a < b < order.len() implies p[#[trigger] order[a]].likeness >= p[#[trigger] order[b]].likeness by {
        assert(keys(p)[order[a]] == p[order[a]].likeness && keys(p)[order[b]] == p[order[b]].likeness);
    }
    lemma_best_first(m, known, p, order, p.len() as int);
    let k = choose|k: int| 0 <= k < p.len() && #[trigger] p[k].known == j && p[k].seen == i;
    law_ranked_complete(keys(p), p.len() as int, k);
    let a = choose|a: int| 0 <= a < order.len() && order[a] == k;
    assert(p[order[a]].seen == i);
    assert(pair_ok(m, known, p[k]));
}

/// Links are only between what is more alike than 0.3.
pub proof fn law_only_alike_linked(m: Seq<Seq<u32>>, known: int, i: int)
    requires
        likeness_ok(m, known),
        m.len() <= usize::MAX,
        0 <= known <= usize::MAX,
        0 <= i < m.len(),
        linked(m, known).of[i] is Some,
    ensures
        m[i][linked(m, known).of[i]->0 as int] > 0x3E99_999A,
{
    law_linked(m, known);
}

proof fn lemma_remembers(s: Seq<Masklet>, k: int)
    requires
        0 <= k < s.len(),
        s[k].missed <= MASKLET_MAX_MISS,
    ensures
        remembered(s).contains(s[k]),
    decreases s.len(),
{
    let h = remembered(s);
    if k < s.len() - 1 {
        let g = remembered(s.drop_last());
        lemma_remembers(s.drop_last(), k);
        let i = choose|i: int| 0 <= i < g.len() && g[i] == s[k];
        assert(h[i] == s[k]);
    } else {
        assert(h.last() == s[k]);
    }
}

/// What becomes of a masklet: one that is observed is not missing; one that is not is missing for one frame more, and is forgotten when
/// that makes more than eight.
pub proof fn law_masklet_goes_on(v: MemoryView, links: Links, j: int)
    requires
        memory_ok(v),
        0 <= v.next_id,
        v.next_id + links.of.len() <= u64::MAX,
        0 <= j < v.masklets.len(),
    ensures
        ({
            let now = after_frame(v, links).masklets;
            let was = v.masklets[j];
            &&& links.taken[j] ==> now.contains(Masklet { id: was.id, missed: 0 })
            &&& !links.taken[j] && was.missed < 8 ==> now.contains(Masklet { id: was.id, missed: (was.missed + 1) as u32 })
            &&& !links.taken[j] && was.missed >= 8 ==> forall|k: int| 0 <= k < now.len() ==> (#[trigger] now[k]).id != was.id
        }),
{
    let all = renewed(v, links);
    let now = after_frame(v, links).masklets;
    let n = v.masklets.len() as int;
    let was = v.masklets[j];
    lemma_strangers(links.of, 0, links.of.len() as int);
    assert(was.missed <= MASKLET_MAX_MISS);
    if all[j].missed <= MASKLET_MAX_MISS {
        lemma_remembers(all, j);
    } else {
        assert forall|a: int, b: int| 0 <= a < b < all.len() implies (#[trigger] all[a]).id < (#[trigger] all[b]).id by {
            if b < n {
                assert(v.masklets[a].id < v.masklets[b].id);
            } else if a < n {
                assert(v.masklets[a].id < v.next_id);
            }
        }
        lemma_remembered(all);
        assert forall|k: int| 0 <= k < now.len() implies (#[trigger] now[k]).id != was.id by {
            assert(all.contains(now[k]));
            let a = choose|a: int| 0 <= a < all.len() && all[a] == now[k];
            if a < j {
                assert(all[a].id < all[j].id);
            } else if j < a {
                assert(all[j].id < all[a].id);
            }
        }
    }
}

proof fn lemma_no_strangers(of: Seq<Option<usize>>, a: int, b: int)
    requires
        0 <= a <= b <= of.len(),
        forall|k: int| a <= k < b ==> (#[trigger] of[k]) is Some,
    ensures
        strangers(of, a) == strangers(of, b),
    decreases b - a,
{
    if a < b {
        assert(of[b - 1] is Some);
        lemma_no_strangers(of, a, b - 1);
    }
}

/// The numbers of observations: one with a masklet has its number; the first without one has the next number that has not been given,
/// and each further one the number behind that of the one before. Each of them is remembered as a masklet that is not missing.
pub proof fn law_numbers(v: MemoryView, links: Links, i: int, j: int)
    requires
        0 <= v.next_id,
        v.next_id + links.of.len() <= u64::MAX,
        0 <= i < j <= links.of.len(),
        forall|k: int| i < k < j ==> (#[trigger] links.of[k]) is Some,
    ensures
        ids(v, links.of).len() == links.of.len(),
        links.of[i] is Some ==> ids(v, links.of)[i] == v.masklets[links.of[i]->0 as int].id,
        links.of[i] is None && (forall|k: int| 0 <= k < i ==> (#[trigger] links.of[k]) is Some) ==> ids(v, links.of)[i] == v.next_id,
        j < links.of.len() && links.of[i] is None && links.of[j] is None ==> ids(v, links.of)[j] == ids(v, links.of)[i] + 1,
        j == links.of.len() && links.of[i] is None ==> after_frame(v, links).next_id == ids(v, links.of)[i] + 1,
        links.of[i] is None ==> after_frame(v, links).masklets.contains(Masklet { id: ids(v, links.of)[i], missed: 0 }),
        (forall|k: int| 0 <= k < links.of.len() ==> (#[trigger] links.of[k]) is Some) ==> after_frame(v, links).next_id == v.next_id,
{
    let of = links.of;
    let n = of.len() as int;
    lemma_strangers(of, i, n);
    lemma_no_strangers(of, i + 1, j);
    if forall|k: int| 0 <= k < i ==> (#[trigger] of[k]) is Some {
        lemma_no_strangers(of, 0, i);
    }
    if forall|k: int| 0 <= k < n ==> (#[trigger] of[k]) is Some {
        lemma_no_strangers(of, 0, n);
    }
    if j < n {
        lemma_strangers(of, j, n);
    }
    if of[i] is None {
        let all = renewed(v, links);
        let at = v.masklets.len() + strangers(of, i);
        assert(all[at] == (Masklet { id: ids(v, of)[i], missed: 0 }));
        lemma_remembers(all, at);
    }
}

} // verus!
