//! Working in two stages: masks are made and stored frame by frame, and later applied without looking into frames again.
use crate::archive::ArchiveInstance;
use crate::compose::{apply, composable, composed, MaskStyle};
use crate::maskstore::{
    all_corrected, error_text, law_mask_file_round_trip, law_other_frames_untouched, mask_file_ok, MaskMeta,
    MaskStoreError, PatchStore, PatchView,
};
use crate::paths::firsts;
use crate::rle::{mask_at, rle_bytes, runs_of};
use crate::track::{union, unite};
use vstd::prelude::*;

verus! {

/// From which frame on masks are made: behind those that are stored (`stored`), if they are of a video of the same size;
/// else from the beginning.
pub fn start_frame(meta: Option<MaskMeta>, width: u32, height: u32, stored: u64) -> (r: (bool, u64))
    ensures
        r.0 == (meta is Some && meta->0.width == width && meta->0.height == height),
        r.1 == (if r.0 {
            stored
        } else {
            0
        }),
{
    match meta {
        Some(m) => {
            if m.width == width && m.height == height {
                return (true, stored);
            }
        },
        None => {},
    }
    (false, 0)
}

/// Whether there is nothing left to do: the video has no more frames than there are masks.
pub fn is_complete(start: u64, total: Option<u64>) -> (r: bool)
    ensures
        r == (total is Some && start >= total->0),
{
    match total {
        Some(t) => start >= t,
        None => false,
    }
}

/// How many of the first frames of a batch, which begins with frame `base`, have masks already.
pub fn skip_count(base: u64, start: u64, n: usize) -> (k: usize)
    ensures
        k <= n,
        forall|i: int| 0 <= i < n ==> (i < k <==> #[trigger] (base + i) < start),
{
    if base >= start {
        return 0;
    }
    let left: u64 = start - base;
    if left >= n as u64 {
        n
    } else {
        left as usize
    }
}

/// How many frames have been added.
pub fn frames_added(frames: u64, start: u64) -> (n: u64)
    ensures
        n == (if frames > start {
            frames - start
        } else {
            0
        }),
{
    if frames > start {
        frames - start
    } else {
        0
    }
}

/// The masks of the first `n` instances put together.
pub open spec fn merged_upto(list: Seq<ArchiveInstance>, len: int, n: int) -> Seq<u8>
    decreases n,
{
    if n <= 0 {
        Seq::new(len as nat, |k: int| 0u8)
    } else {
        union(merged_upto(list, len, n - 1), list[n - 1].mask@)
    }
}

/// The masks of the instances of a frame with `len` pixels put together.
pub fn merged_mask(list: &Vec<ArchiveInstance>, len: usize) -> (m: Vec<u8>)
    ensures
        m@ == merged_upto(list@, len as int, list@.len() as int),
        m@.len() == len,
{
    let mut m: Vec<u8> = vec![0u8; len];
    assert(m@ =~= merged_upto(list@, len as int, 0));
    for i in 0..list.len()
        invariant
            m@.len() == len,
            m@ == merged_upto(list@, len as int, i as int),
    {
        unite(m.as_mut_slice(), list[i].mask.as_slice());
    }
    m
}

/// Every pixel of every instance is in the mask of the frame.
pub proof fn law_merged_covers(list: Seq<ArchiveInstance>, len: int, n: int, i: int, k: int)
    requires
        0 <= i < n <= list.len(),
        0 <= k < len,
        k < list[i].mask@.len(),
        list[i].mask@[k] != 0,
    ensures
        merged_upto(list, len, n).len() == len,
        merged_upto(list, len, n)[k] != 0,
    decreases n,
{
    lemma_merged_len(list, len, n - 1);
    let before = merged_upto(list, len, n - 1);
    let m = list[n - 1].mask@;
    if i < n - 1 {
        law_merged_covers(list, len, n - 1, i, k);
    }
    if k < m.len() {
        let (a, b) = (before[k], m[k]);
        assert(a != 0 || b != 0 ==> a | b != 0) by (bit_vector);
    }
}

proof fn lemma_merged_len(list: Seq<ArchiveInstance>, len: int, n: int)
    requires
        0 <= len,
    ensures
        merged_upto(list, len, n).len() == len,
    decreases n,
{
    if n > 0 {
        lemma_merged_len(list, len, n - 1);
    }
}

/// Applies the stored mask of frame `idx`, corrected, to the frame. Returns whether there was a mask: a frame without one
/// is left as it is.
pub fn render_frame(
    frame: &mut [u8],
    w: usize,
    h: usize,
    idx: u64,
    mask: Result<Option<Vec<u8>>, MaskStoreError>,
    patches: &PatchStore,
    style: &MaskStyle,
) -> (r: Result<bool, String>)
    requires
        mask is Ok && mask->Ok_0 is Some ==> composable(
            old(frame)@.len() as int,
            w as int,
            h as int,
            all_corrected(mask->Ok_0->0@, patches@, idx),
            *style,
        ),
    ensures
        match mask {
            Err(e) => r is Err && r->Err_0@ == error_text(e) && final(frame)@ == old(frame)@,
            Ok(None) => r == Ok::<bool, String>(false) && final(frame)@ == old(frame)@,
            Ok(Some(m)) => r == Ok::<bool, String>(true) && final(frame)@ == composed(
                old(frame)@,
                w as int,
                h as int,
                all_corrected(m@, patches@, idx),
                *style,
            ),
        },
{
    match mask {
        Err(e) => Err(e.message()),
        Ok(None) => Ok(false),
        Ok(Some(m)) => {
            let mut m = m;
            patches.apply(idx, m.as_mut_slice());
            apply(frame, w, h, m.as_slice(), style);
            Ok(true)
        },
    }
}

/// The frames of corrections.
pub open spec fn frames_of(ps: Seq<PatchView>) -> Seq<u64> {
    ps.map_values(|p: PatchView| p.frame)
}

/// The two stages do what one would: a frame without corrections comes out as if the mask that was made of it had been
/// applied at once.
pub proof fn law_two_stages_agree(
    frame: Seq<u8>,
    w: int,
    h: int,
    mask: Seq<u8>,
    patches: Seq<PatchView>,
    idx: u64,
    style: MaskStyle,
)
    requires
        mask.len() == w * h,
        forall|k: int| 0 <= k < mask.len() ==> mask[k] <= 1,
        runs_of(mask).len() < 0x1_0000_0000,
        forall|i: int| 0 <= i < patches.len() ==> (#[trigger] patches[i]).frame != idx,
    ensures
        mask_file_ok(rle_bytes(mask), w * h),
        composed(frame, w, h, all_corrected(mask_at(rle_bytes(mask), 0), patches, idx), style) == composed(
            frame,
            w,
            h,
            mask,
            style,
        ),
{
    law_mask_file_round_trip(mask, w * h);
    law_other_frames_untouched(mask, patches, idx);
}

/// How many frames have corrections.
pub fn corrected_frames(patches: &PatchStore) -> (n: usize)
    ensures
        n == firsts(frames_of(patches@)).len(),
{
    let mut seen: Vec<u64> = Vec::new();
    let ghost all = frames_of(patches@);
    assert(all.take(0) =~= Seq::<u64>::empty());
    let count: usize = patches.patches.len();
    for i in 0..count
        invariant
            count == patches.patches@.len(),
            count == all.len(),
            all == frames_of(patches@),
            seen@ == firsts(all.take(i as int)),
    {
        let f: u64 = patches.patches[i].frame;
        assert(patches@[i as int] == patches.patches@[i as int]@);
        assert(all[i as int] == f);
        assert(all.take(i + 1).drop_last() =~= all.take(i as int));
        assert(all.take(i + 1).last() == f);
        let mut there: bool = false;
        for j in 0..seen.len()
            invariant
                there == exists|k: int| 0 <= k < j && #[trigger] seen@[k] == f,
        {
            if seen[j] == f {
                there = true;
            }
        }
        assert(there == seen@.contains(f)) by {
            if there {
                let k = choose|k: int| 0 <= k < seen@.len() && #[trigger] seen@[k] == f;
                assert(seen@[k] == f);
            }
            if seen@.contains(f) {
                let k = choose|k: int| 0 <= k < seen@.len() && seen@[k] == f;
                assert(seen@[k] == f);
            }
        }
        if !there {
            seen.push(f);
        }
    }
    assert(all.take(all.len() as int) =~= all);
    seen.len()
}

/// The mask of a frame is set exactly where that of an instance is.
pub proof fn law_merged(list: Seq<ArchiveInstance>, len: int, n: int, k: int)
    requires
        0 <= n <= list.len(),
        0 <= k < len,
    ensures
        merged_upto(list, len, n).len() == len,
        merged_upto(list, len, n)[k] != 0 <==> exists|i: int| 0 <= i < n && k < (#[trigger] list[i]).mask@.len() && list[i].mask@[k] != 0,
    decreases n,
{
    if n > 0 {
        law_merged(list, len, n - 1, k);
        let was = merged_upto(list, len, n - 1);
        crate::track::law_union(was, list[n - 1].mask@, k);
        if was[k] != 0 {
            let i = choose|i: int| 0 <= i < n - 1 && k < (#[trigger] list[i]).mask@.len() && list[i].mask@[k] != 0;
            assert(k < list[i].mask@.len());
        }
        if k < list[n - 1].mask@.len() && list[n - 1].mask@[k] != 0 {
            assert(list[n - 1].mask@[k] != 0);
        }
    }
}

} // verus!
