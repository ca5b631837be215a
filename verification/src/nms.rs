//! Keeping one of several boxes around the same thing.
//!
//! Boxes are taken best first, and one is dropped that overlaps a box already kept by more than a threshold.
use crate::assign::{table, table_ok};
use crate::rank::{ints, law_ranked_complete, law_ranked_upto, rank, ranked};
use vstd::prelude::*;

verus! {

/// How many detections of a frame are kept at most.
pub const MAX_DET: usize = 300;

/// Boxes of people that overlap more than this show one person: the bits of 0.45.
pub const NMS_IOU: u32 = 0x3EE6_6666;

/// Boxes of faces that overlap more than this show one face: the bits of 0.3.
pub const FACE_NMS_IOU: u32 = 0x3E99_999A;

/// Whether box `d` overlaps none of the first `n` kept boxes by more than `thr`.
pub open spec fn clear_of(m: Seq<Seq<u32>>, kept: Seq<int>, d: int, thr: u32, n: int) -> bool {
    forall|i: int| 0 <= i < n ==> m[#[trigger] kept[i]][d] <= thr
}

/// What is kept of the first `n` boxes of an order, at most `max` of them.
pub open spec fn kept_upto(m: Seq<Seq<u32>>, order: Seq<int>, thr: u32, max: int, n: int) -> Seq<int>
    decreases n,
{
    if n <= 0 {
        Seq::empty()
    } else {
        let kept = kept_upto(m, order, thr, max, n - 1);
        let d = order[n - 1];
        if kept.len() < max && clear_of(m, kept, d, thr, kept.len() as int) {
            kept.push(d)
        } else {
            kept
        }
    }
}

/// What is kept of boxes with the given scores and overlaps.
pub open spec fn suppressed(scores: Seq<u32>, m: Seq<Seq<u32>>, thr: u32, max: int) -> Seq<int> {
    kept_upto(m, ranked(scores), thr, max, scores.len() as int)
}

proof fn lemma_kept(m: Seq<Seq<u32>>, order: Seq<int>, thr: u32, max: int, n: int)
    requires
        0 <= n <= order.len(),
        0 <= max,
    ensures
        kept_upto(m, order, thr, max, n).len() <= max,
        kept_upto(m, order, thr, max, n).len() <= n,
        forall|i: int|
            0 <= i < kept_upto(m, order, thr, max, n).len() ==> exists|a: int|
                0 <= a < n && #[trigger] order[a] == #[trigger] kept_upto(m, order, thr, max, n)[i],
        forall|i: int, j: int|
            0 <= i < j < kept_upto(m, order, thr, max, n).len() ==> m[#[trigger] kept_upto(
                m,
                order,
                thr,
                max,
                n,
            )[i]][#[trigger] kept_upto(m, order, thr, max, n)[j]] <= thr,
        forall|a: int|
            0 <= a < n && kept_upto(m, order, thr, max, n).len() < max ==> kept_upto(m, order, thr, max, n).contains(
                #[trigger] order[a],
            ) || exists|i: int|
                0 <= i < kept_upto(m, order, thr, max, n).len() && m[#[trigger] kept_upto(
                    m,
                    order,
                    thr,
                    max,
                    n,
                )[i]][order[a]] > thr,
    decreases n,
{
    if n > 0 {
        lemma_kept(m, order, thr, max, n - 1);
        let before = kept_upto(m, order, thr, max, n - 1);
        let after = kept_upto(m, order, thr, max, n);
        let d = order[n - 1];
        assert forall|i: int| 0 <= i < after.len() implies exists|a: int|
            0 <= a < n && #[trigger] order[a] == #[trigger] after[i] by {
            if i < before.len() {
                assert(after[i] == before[i]);
                let a = choose|a: int| 0 <= a < n - 1 && #[trigger] order[a] == before[i];
                assert(order[a] == after[i]);
            } else {
                assert(order[n - 1] == after[i]);
            }
        }
        assert forall|i: int, j: int| 0 <= i < j < after.len() implies m[#[trigger] after[i]][#[trigger] after[j]]
            <= thr by {
            assert(after[i] == before[i]);
            if j < before.len() {
                assert(after[j] == before[j]);
            }
        }
        if after.len() < max {
            assert forall|a: int| 0 <= a < n implies after.contains(#[trigger] order[a]) || exists|i: int|
                0 <= i < after.len() && m[#[trigger] after[i]][order[a]] > thr by {
                if a < n - 1 {
                    if before.contains(order[a]) {
                        let i = choose|i: int| 0 <= i < before.len() && before[i] == order[a];
                        assert(after[i] == order[a]);
                    } else {
                        let i = choose|i: int| 0 <= i < before.len() && m[#[trigger] before[i]][order[a]] > thr;
                        assert(after[i] == before[i]);
                        assert(m[after[i]][order[a]] > thr);
                    }
                } else if clear_of(m, before, d, thr, before.len() as int) {
                    assert(after[after.len() - 1] == d);
                } else {
                    let i = choose|i: int| 0 <= i < before.len() && m[#[trigger] before[i]][d] > thr;
                    assert(after[i] == before[i]);
                    assert(m[after[i]][order[a]] > thr);
                }
            }
        }
    }
}

/// No two boxes that are kept overlap by more than the threshold (the better one's row counts), there are no more than
/// `max` of them, and unless there are that many, every box that is dropped overlaps one that is kept.
pub proof fn law_suppressed(scores: Seq<u32>, m: Seq<Seq<u32>>, thr: u32, max: int)
    requires
        0 <= max,
    ensures
        suppressed(scores, m, thr, max).len() <= max,
        forall|i: int|
            0 <= i < suppressed(scores, m, thr, max).len() ==> 0 <= #[trigger] suppressed(scores, m, thr, max)[i]
                < scores.len(),
        forall|i: int, j: int|
            0 <= i < j < suppressed(scores, m, thr, max).len() ==> m[#[trigger] suppressed(
                scores,
                m,
                thr,
                max,
            )[i]][#[trigger] suppressed(scores, m, thr, max)[j]] <= thr,
        forall|d: int|
            0 <= d < scores.len() && suppressed(scores, m, thr, max).len() < max ==> #[trigger] suppressed(
                scores,
                m,
                thr,
                max,
            ).contains(d) || exists|i: int|
                0 <= i < suppressed(scores, m, thr, max).len() && m[#[trigger] suppressed(
                    scores,
                    m,
                    thr,
                    max,
                )[i]][d] > thr,
{
    let order = ranked(scores);
    let n = scores.len() as int;
    law_ranked_upto(scores, n);
    lemma_kept(m, order, thr, max, n);
    let kept = suppressed(scores, m, thr, max);
    if kept.len() < max {
        assert forall|d: int| 0 <= d < scores.len() implies #[trigger] kept.contains(d) || exists|i: int|
            0 <= i < kept.len() && m[#[trigger] kept[i]][d] > thr by {
            law_ranked_complete(scores, n, d);
            let a = choose|a: int| 0 <= a < order.len() && order[a] == d;
            assert(kept.contains(order[a]) || exists|i: int|
                0 <= i < kept.len() && m[#[trigger] kept[i]][order[a]] > thr);
        }
    }
}

proof fn lemma_first_kept(m: Seq<Seq<u32>>, order: Seq<int>, thr: u32, max: int, n: int)
    requires
        0 < n <= order.len(),
        0 < max,
    ensures
        kept_upto(m, order, thr, max, n).len() > 0,
        kept_upto(m, order, thr, max, n)[0] == order[0],
    decreases n,
{
    if n > 1 {
        lemma_first_kept(m, order, thr, max, n - 1);
    } else {
        assert(kept_upto(m, order, thr, max, 0).len() == 0);
    }
}

/// The best box is kept, as the first.
pub proof fn law_best_is_kept(scores: Seq<u32>, m: Seq<Seq<u32>>, thr: u32, max: int)
    requires
        0 < max,
        0 < scores.len(),
    ensures
        suppressed(scores, m, thr, max).len() > 0,
        forall|d: int| 0 <= d < scores.len() ==> #[trigger] scores[d] <= scores[suppressed(scores, m, thr, max)[0]],
{
    let n = scores.len() as int;
    let order = ranked(scores);
    law_ranked_upto(scores, n);
    lemma_first_kept(m, order, thr, max, n);
    assert forall|d: int| 0 <= d < n implies #[trigger] scores[d] <= scores[order[0]] by {
        law_ranked_complete(scores, n, d);
        let a = choose|a: int| 0 <= a < order.len() && order[a] == d;
        if a > 0 {
            assert(scores[order[0]] > scores[order[a]] || scores[order[0]] == scores[order[a]]);
        }
    }
}

/// Which boxes are kept, best first: `scores` holds their scores, `m[i][j]` the overlap of boxes `i` and `j`.
pub fn suppress(scores: &[u32], m: &Vec<Vec<u32>>, thr: u32, max: usize) -> (kept: Vec<usize>)
    requires
        table_ok(m@, scores@.len() as int, scores@.len() as int),
    ensures
        ints(kept@) == suppressed(scores@, table(m@), thr, max as int),
        forall|i: int| 0 <= i < kept@.len() ==> (#[trigger] kept@[i]) < scores@.len(),
{
    let order = rank(scores);
    let mut kept: Vec<usize> = Vec::new();
    assert(ints(kept@) =~= kept_upto(table(m@), ints(order@), thr, max as int, 0));
    for a in 0..order.len()
        invariant
            table_ok(m@, scores@.len() as int, scores@.len() as int),
            order@.len() == scores@.len(),
            forall|a: int| 0 <= a < order@.len() ==> (#[trigger] order@[a]) < scores@.len(),
            forall|i: int| 0 <= i < kept@.len() ==> (#[trigger] kept@[i]) < scores@.len(),
            ints(kept@) == kept_upto(table(m@), ints(order@), thr, max as int, a as int),
    {
        let d: usize = order[a];
        assert(ints(order@)[a as int] == d);
        let ghost before = ints(kept@);
        if kept.len() < max {
            let mut free: bool = true;
            for i in 0..kept.len()
                invariant
                    table_ok(m@, scores@.len() as int, scores@.len() as int),
                    d < scores@.len(),
                    before == ints(kept@),
                    forall|i: int| 0 <= i < kept@.len() ==> (#[trigger] kept@[i]) < scores@.len(),
                    free == clear_of(table(m@), before, d as int, thr, i as int),
            {
                let k: usize = kept[i];
                assert(before[i as int] == k);
                assert(table(m@)[k as int] == m@[k as int]@);
                if m[k][d] > thr {
                    free = false;
                }
                assert(free == clear_of(table(m@), before, d as int, thr, i + 1));
            }
            if free {
                let ghost old_kept = kept@;
                kept.push(d);
                assert(ints(kept@) =~= ints(old_kept).push(d as int));
            }
        }
    }
    kept
}

/// Which detections of people are kept.
pub fn nms(scores: &[u32], m: &Vec<Vec<u32>>) -> (kept: Vec<usize>)
    requires
        table_ok(m@, scores@.len() as int, scores@.len() as int),
    ensures
        ints(kept@) == suppressed(scores@, table(m@), 0x3EE6_6666, 300),
        forall|i: int| 0 <= i < kept@.len() ==> (#[trigger] kept@[i]) < scores@.len(),
{
    suppress(scores, m, NMS_IOU, MAX_DET)
}

/// Which detections of faces are kept.
pub fn face_nms(scores: &[u32], m: &Vec<Vec<u32>>) -> (kept: Vec<usize>)
    requires
        table_ok(m@, scores@.len() as int, scores@.len() as int),
    ensures
        ints(kept@) == suppressed(scores@, table(m@), 0x3E99_999A, 300),
        forall|i: int| 0 <= i < kept@.len() ==> (#[trigger] kept@[i]) < scores@.len(),
{
    suppress(scores, m, FACE_NMS_IOU, MAX_DET)
}

/// Which faces of two lists, put one behind the other, are kept, however many there are.
pub fn merge_faces(scores: &[u32], m: &Vec<Vec<u32>>, thr: u32) -> (kept: Vec<usize>)
    requires
        table_ok(m@, scores@.len() as int, scores@.len() as int),
    ensures
        ints(kept@) == suppressed(scores@, table(m@), thr, scores@.len() as int),
        forall|i: int| 0 <= i < kept@.len() ==> (#[trigger] kept@[i]) < scores@.len(),
{
    suppress(scores, m, thr, scores.len())
}

proof fn lemma_kept_order(m: Seq<Seq<u32>>, order: Seq<int>, thr: u32, max: int, n: int) -> (at: Seq<int>)
    requires
        0 <= n <= order.len(),
        0 <= max,
    ensures
        at.len() == kept_upto(m, order, thr, max, n).len(),
        at.len() <= max,
        forall|i: int| 0 <= i < at.len() ==> 0 <= #[trigger] at[i] < n && order[at[i]] == kept_upto(m, order, thr, max, n)[i],
        forall|i: int, j: int| 0 <= i < j < at.len() ==> #[trigger] at[i] < #[trigger] at[j],
        forall|a: int|
            0 <= a < n && !(#[trigger] at.contains(a)) ==> (exists|i: int|
                0 <= i < at.len() && #[trigger] at[i] < a && m[order[at[i]]][order[a]] > thr) || (at.len() == max && forall|i: int|
                0 <= i < at.len() ==> #[trigger] at[i] < a),
    decreases n,
{
    if n <= 0 {
        Seq::empty()
    } else {
        let was = lemma_kept_order(m, order, thr, max, n - 1);
        let before = kept_upto(m, order, thr, max, n - 1);
        let d = order[n - 1];
        let now = kept_upto(m, order, thr, max, n);
        let keep = before.len() < max && clear_of(m, before, d, thr, before.len() as int);
        let at = if keep {
            was.push(n - 1)
        } else {
            was
        };
        assert forall|i: int| 0 <= i < at.len() implies 0 <= #[trigger] at[i] < n && order[at[i]] == now[i] by {
            if i < was.len() {
                assert(was[i] == at[i]);
                assert(now[i] == before[i]);
            }
        }
        assert forall|a: int| 0 <= a < n && !(#[trigger] at.contains(a)) implies (exists|i: int|
            0 <= i < at.len() && #[trigger] at[i] < a && m[order[at[i]]][order[a]] > thr) || (at.len() == max && forall|i: int|
            0 <= i < at.len() ==> #[trigger] at[i] < a) by {
            if a < n - 1 {
                assert(!was.contains(a)) by {
                    if was.contains(a) {
                        let i = choose|i: int| 0 <= i < was.len() && was[i] == a;
                        assert(at[i] == a);
                    }
                }
                if exists|i: int| 0 <= i < was.len() && #[trigger] was[i] < a && m[order[was[i]]][order[a]] > thr {
                    let i = choose|i: int| 0 <= i < was.len() && #[trigger] was[i] < a && m[order[was[i]]][order[a]] > thr;
                    assert(at[i] < a && m[order[at[i]]][order[a]] > thr);
                } else {
                    assert(was.len() == max);
                    assert(at == was);
                }
            } else {
                if keep {
                    assert(at[at.len() - 1] == a);
                }
                if before.len() >= max {
                    assert forall|i: int| 0 <= i < at.len() implies #[trigger] at[i] < a by {}
                } else {
                    let i = choose|i: int| 0 <= i < before.len() && m[#[trigger] before[i]][d] > thr;
                    assert(before[i] == order[was[i]]);
                    assert(at[i] < a && m[order[at[i]]][order[a]] > thr);
                }
            }
        }
        at
    }
}

/// Boxes are kept best first, and of equally good ones the first. A box is dropped only if it overlaps by more than the threshold one
/// that is kept and comes before it in that order, or if as many as may be kept come before it.
pub proof fn law_dropped_for_a_better_one(scores: Seq<u32>, m: Seq<Seq<u32>>, thr: u32, max: int, d: int)
    requires
        0 <= max,
        0 <= d < scores.len(),
    ensures
        ({
            let kept = suppressed(scores, m, thr, max);
            &&& forall|i: int, j: int|
                0 <= i < j < kept.len() ==> scores[#[trigger] kept[i]] > scores[#[trigger] kept[j]] || (scores[kept[i]] == scores[kept[j]]
                    && kept[i] < kept[j])
            &&& !kept.contains(d) ==> {
                ||| exists|i: int|
                    0 <= i < kept.len() && m[#[trigger] kept[i]][d] > thr && (scores[kept[i]] > scores[d] || (scores[kept[i]] == scores[d]
                        && kept[i] < d))
                ||| kept.len() == max && forall|i: int|
                    0 <= i < kept.len() ==> scores[#[trigger] kept[i]] > scores[d] || (scores[kept[i]] == scores[d] && kept[i] < d)
            }
        }),
{
    let n = scores.len() as int;
    let order = ranked(scores);
    law_ranked_upto(scores, n);
    let at = lemma_kept_order(m, order, thr, max, n);
    let kept = suppressed(scores, m, thr, max);
    assert forall|i: int, j: int| 0 <= i < j < kept.len() implies scores[#[trigger] kept[i]] > scores[#[trigger] kept[j]] || (
    scores[kept[i]] == scores[kept[j]] && kept[i] < kept[j]) by {
        assert(at[i] < at[j]);
        assert(order[at[i]] == kept[i] && order[at[j]] == kept[j]);
    }
    if !kept.contains(d) {
        law_ranked_complete(scores, n, d);
        let a = choose|a: int| 0 <= a < order.len() && order[a] == d;
        assert(!at.contains(a)) by {
            if at.contains(a) {
                let i = choose|i: int| 0 <= i < at.len() && at[i] == a;
                assert(kept[i] == order[at[i]]);
            }
        }
        if exists|i: int| 0 <= i < at.len() && #[trigger] at[i] < a && m[order[at[i]]][order[a]] > thr {
            let i = choose|i: int| 0 <= i < at.len() && #[trigger] at[i] < a && m[order[at[i]]][order[a]] > thr;
            assert(kept[i] == order[at[i]]);
        } else {
            assert forall|i: int| 0 <= i < kept.len() implies scores[#[trigger] kept[i]] > scores[d] || (scores[kept[i]] == scores[d]
                && kept[i] < d) by {
                assert(at[i] < a);
                assert(kept[i] == order[at[i]]);
            }
        }
    }
}

} // verus!
