//! The mask cache between the analysis of a video and its rendering.
//!
//! A cache directory holds for each analysed frame its mask, `frame_00000000.mask`, and the instances that
//! make it up, `frame_00000000.inst`; besides the corrections made by hand, `patches.bin`, and the size of
//! the video, `meta.json`. This module knows the names and the contents of these files; who owns the
//! directory reads and writes them.
use crate::bytes::{law_le_round_trip, le, le_at, lemma_le_len, lemma_pow256, push_le, read_le};
use crate::media::Platform;
use crate::paths::{join, joined};
use crate::rle::{
    holds_mask, law_loose_round_trip, law_rle_round_trip, law_rle_size, loose_end, loose_mask, mask_at,
    mask_end, rle_bytes, rle_decode, rle_decode_any, rle_encode, run_count, runs_of,
};
use crate::text::{
    append, chars_of, dec, dec_padded, decimal, decimal_padded, ends_with, has_prefix, has_suffix, law_padded_round_trip, parse_number, parsed, slice, starts_with, texts,
};
use vstd::prelude::*;

verus! {

/// The size of the video that a cache belongs to, and how far its analysis has come.
#[derive(Debug, Clone, Copy, PartialEq, Eq, Structural)]
pub struct MaskMeta {
    pub width: u32,
    pub height: u32,
    /// The next frame to analyse.
    pub frames: u64,
}

/// Why a cache cannot be used.
#[derive(Debug)]
pub enum MaskStoreError {
    NoDir(String),
    NoMeta,
    SizeMismatch { cached: u32, cached_h: u32, got: u32, got_h: u32 },
    Io(String),
    Corrupt(u64),
}

/// What an error says.
pub open spec fn error_text(e: MaskStoreError) -> Seq<char> {
    match e {
        MaskStoreError::NoDir(d) => "mask 目录不存在: "@ + d@,
        MaskStoreError::NoMeta => "meta.json 缺失或损坏（先运行 analyze）"@,
        MaskStoreError::SizeMismatch { cached, cached_h, got, got_h } => "mask 缓存与视频不符：缓存 "@ + dec(
            cached as nat,
        ) + "×"@ + dec(cached_h as nat) + "，视频 "@ + dec(got as nat) + "×"@ + dec(got_h as nat),
        MaskStoreError::Io(m) => "I/O: "@ + m@,
        MaskStoreError::Corrupt(idx) => "帧 "@ + dec(idx as nat) + " 的 mask 文件损坏（RLE 长度不符）"@,
    }
}

impl MaskStoreError {
    /// What the error says.
    pub fn message(&self) -> (s: String)
        ensures
            s@ == error_text(*self),
    {
        let mut s = String::new();
        match self {
            MaskStoreError::NoDir(d) => {
                append(&mut s, "mask 目录不存在: ");
                append(&mut s, d.as_str());
            },
            MaskStoreError::NoMeta => {
                append(&mut s, "meta.json 缺失或损坏（先运行 analyze）");
            },
            MaskStoreError::SizeMismatch { cached, cached_h, got, got_h } => {
                append(&mut s, "mask 缓存与视频不符：缓存 ");
                append(&mut s, decimal(*cached as u64).as_str());
                append(&mut s, "×");
                append(&mut s, decimal(*cached_h as u64).as_str());
                append(&mut s, "，视频 ");
                append(&mut s, decimal(*got as u64).as_str());
                append(&mut s, "×");
                append(&mut s, decimal(*got_h as u64).as_str());
            },
            MaskStoreError::Io(m) => {
                append(&mut s, "I/O: ");
                append(&mut s, m.as_str());
            },
            MaskStoreError::Corrupt(idx) => {
                append(&mut s, "帧 ");
                append(&mut s, decimal(*idx).as_str());
                append(&mut s, " 的 mask 文件损坏（RLE 长度不符）");
            },
        }
        assert(s@ =~= error_text(*self));
        s
    }
}

/// The name of the file of frame `idx` with the given ending.
pub open spec fn frame_file(idx: nat, ending: Seq<char>) -> Seq<char> {
    "frame_"@ + dec_padded(idx, 8) + ending
}

/// The frame whose mask a file of the given name holds.
pub open spec fn frame_index_of(name: Seq<char>) -> Option<nat> {
    if has_prefix(name, "frame_"@) && has_suffix(name.subrange("frame_"@.len() as int, name.len() as int), ".mask"@) {
        parsed(name.subrange("frame_"@.len() as int, name.len() - ".mask"@.len()), u64::MAX as nat)
    } else {
        None
    }
}

/// The frame whose mask a file of the given name holds.
pub fn frame_index(name: &str) -> (r: Option<u64>)
    ensures
        r is Some <==> frame_index_of(name@) is Some,
        r is Some ==> r->0 == frame_index_of(name@)->0,
{
    let c = chars_of(name);
    let head = chars_of("frame_");
    let tail = chars_of(".mask");
    if !starts_with(&c, &head) {
        return None;
    }
    let rest = slice(&c, head.len(), c.len());
    if !ends_with(&rest, &tail) {
        return None;
    }
    let body = slice(&c, head.len(), c.len() - tail.len());
    parse_number(&body, u64::MAX)
}

/// The file that a frame is stored in is recognised as the file of that frame.
pub proof fn law_frame_file_found(idx: u64)
    ensures
        frame_index_of(frame_file(idx as nat, ".mask"@)) == Some(idx as nat),
{
    let name = frame_file(idx as nat, ".mask"@);
    let h = "frame_"@;
    let d = dec_padded(idx as nat, 8);
    let t = ".mask"@;
    assert(name.subrange(0, h.len() as int) =~= h);
    assert(0 + h.len() == h.len());
    let rest = name.subrange(h.len() as int, name.len() as int);
    assert(rest =~= d + t);
    assert(rest.subrange(rest.len() - t.len(), rest.len() - t.len() + t.len()) =~= t);
    assert(name.subrange(h.len() as int, name.len() - t.len()) =~= d);
    law_padded_round_trip(idx as nat, 8, u64::MAX as nat);
}

/// A cache directory.
#[derive(Debug)]
pub struct MaskStore {
    pub platform: Platform,
    pub dir: String,
}

impl MaskStore {
    /// The cache in the given directory.
    pub fn new(platform: Platform, dir: &str) -> (r: MaskStore)
        ensures
            r.platform == platform,
            r.dir@ == dir@,
    {
        MaskStore { platform, dir: dir.to_owned() }
    }

    fn frame_named(&self, idx: u64, ending: &str) -> (r: String)
        ensures
            r@ == joined(self.platform, self.dir@, frame_file(idx as nat, ending@)),
    {
        let mut name = String::new();
        append(&mut name, "frame_");
        append(&mut name, decimal_padded(idx, 8).as_str());
        append(&mut name, ending);
        assert(name@ =~= frame_file(idx as nat, ending@));
        join(self.platform, self.dir.as_str(), name.as_str())
    }

    /// The file with the mask of a frame.
    pub fn frame_path(&self, idx: u64) -> (r: String)
        ensures
            r@ == joined(self.platform, self.dir@, frame_file(idx as nat, ".mask"@)),
    {
        self.frame_named(idx, ".mask")
    }

    /// The file into which the mask of a frame is written before it takes its place.
    pub fn frame_tmp_path(&self, idx: u64) -> (r: String)
        ensures
            r@ == joined(self.platform, self.dir@, frame_file(idx as nat, ".tmp"@)),
    {
        self.frame_named(idx, ".tmp")
    }

    /// The file with the instances of a frame.
    pub fn inst_path(&self, idx: u64) -> (r: String)
        ensures
            r@ == joined(self.platform, self.dir@, frame_file(idx as nat, ".inst"@)),
    {
        self.frame_named(idx, ".inst")
    }

    /// The file into which the instances of a frame are written before they take their place.
    pub fn inst_tmp_path(&self, idx: u64) -> (r: String)
        ensures
            r@ == joined(self.platform, self.dir@, frame_file(idx as nat, ".inst.tmp"@)),
    {
        self.frame_named(idx, ".inst.tmp")
    }

    /// The file with the size of the video.
    pub fn meta_path(&self) -> (r: String)
        ensures
            r@ == joined(self.platform, self.dir@, "meta.json"@),
    {
        join(self.platform, self.dir.as_str(), "meta.json")
    }

    /// Whether the cache can be rendered over a video of the given size. `present` tells whether the
    /// directory is there, `meta` is what its `meta.json` holds, if anything.
    pub fn verify(&self, present: bool, meta: Option<MaskMeta>, width: u32, height: u32) -> (r: Result<
        MaskMeta,
        MaskStoreError,
    >)
        ensures
            match r {
                Ok(m) => present && meta == Some(m) && m.width == width && m.height == height,
                Err(MaskStoreError::NoDir(d)) => !present && d@ == self.dir@,
                Err(MaskStoreError::NoMeta) => present && meta is None,
                Err(MaskStoreError::SizeMismatch { cached, cached_h, got, got_h }) => present && meta is Some && (
                meta->0.width != width || meta->0.height != height) && cached == meta->0.width && cached_h
                    == meta->0.height && got == width && got_h == height,
                Err(_) => false,
            },
    {
        if !present {
            return Err(MaskStoreError::NoDir(self.dir.clone()));
        }
        match meta {
            None => Err(MaskStoreError::NoMeta),
            Some(m) => {
                if m.width != width || m.height != height {
                    Err(
                        MaskStoreError::SizeMismatch {
                            cached: m.width,
                            cached_h: m.height,
                            got: width,
                            got_h: height,
                        },
                    )
                } else {
                    Ok(m)
                }
            },
        }
    }

    /// Stores the mask of frame `idx`: the bytes of the file with the mask, and what is to be known of the cache, which was
    /// `meta`, once that file is there: the next frame is the one behind `idx`.
    pub fn save_mask(&self, idx: u64, meta: &MaskMeta, mask: &[u8]) -> (r: (Vec<u8>, MaskMeta))
        requires
            idx < u64::MAX,
        ensures
            r.0@ == rle_bytes(mask@),
            r.1 == (MaskMeta { width: meta.width, height: meta.height, frames: (idx + 1) as u64 }),
    {
        let mut buf: Vec<u8> = Vec::new();
        rle_encode(mask, &mut buf);
        assert(buf@ =~= rle_bytes(mask@));
        (buf, MaskMeta { width: meta.width, height: meta.height, frames: idx + 1 })
    }

    /// The mask of frame `idx` of a `w` by `h` video, from the bytes of its file; without a file there is
    /// none. The file holds the mask and nothing else.
    pub fn load_mask(&self, idx: u64, file: Option<&[u8]>, w: usize, h: usize) -> (r: Result<
        Option<Vec<u8>>,
        MaskStoreError,
    >)
        requires
            w * h <= usize::MAX,
        ensures
            file is None ==> r == Ok::<Option<Vec<u8>>, MaskStoreError>(None),
            file is Some ==> match r {
                Ok(m) => m is Some && mask_file_ok(file->0@, w * h) && m->0@ == mask_at(file->0@, 0),
                Err(e) => !mask_file_ok(file->0@, w * h) && e == MaskStoreError::Corrupt(idx),
            },
    {
        match file {
            None => Ok(None),
            Some(bytes) => {
                let mut off: usize = 0;
                match rle_decode(bytes, &mut off, w * h) {
                    None => Err(MaskStoreError::Corrupt(idx)),
                    Some(m) => {
                        if off != bytes.len() {
                            Err(MaskStoreError::Corrupt(idx))
                        } else {
                            Ok(Some(m))
                        }
                    },
                }
            },
        }
    }

    /// How many frames the cache has, given the names of the files in its directory: one more than the
    /// greatest frame with a mask.
    pub fn analyzed_frames(&self, names: &Vec<String>) -> (n: u64)
        requires
            forall|i: int|
                0 <= i < names@.len() && frame_index_of(#[trigger] names@[i]@) is Some ==> frame_index_of(
                    names@[i]@,
                )->0 < u64::MAX,
        ensures
            frames_stored(texts(names@), n as nat),
    {
        let mut n: u64 = 0;
        for k in 0..names.len()
            invariant
                forall|i: int|
                    0 <= i < names@.len() && frame_index_of(#[trigger] names@[i]@) is Some ==> frame_index_of(
                        names@[i]@,
                    )->0 < u64::MAX,
                forall|i: int|
                    0 <= i < k && frame_index_of(#[trigger] names@[i]@) is Some ==> frame_index_of(names@[i]@)->0
                        < n,
                n > 0 ==> exists|i: int|
                    0 <= i < k && frame_index_of(#[trigger] names@[i]@) == Some((n - 1) as nat),
        {
            match frame_index(names[k].as_str()) {
                Some(idx) => {
                    assert(frame_index_of(names@[k as int]@) is Some);
                    if idx >= n {
                        n = idx + 1;
                        assert(frame_index_of(names@[k as int]@) == Some((n - 1) as nat));
                    }
                },
                None => {},
            }
        }
        proof {
            let t = texts(names@);
            assert forall|i: int| 0 <= i < t.len() && frame_index_of(#[trigger] t[i]) is Some implies frame_index_of(
                t[i],
            )->0 < n by {
                assert(t[i] == names@[i]@);
            }
            if n > 0 {
                let i = choose|i: int|
                    0 <= i < names@.len() && frame_index_of(#[trigger] names@[i]@) == Some((n - 1) as nat);
                assert(frame_index_of(t[i]) == Some((n - 1) as nat));
            }
        }
        n
    }
}

/// Whether `n` is one more than the greatest frame among the masks with the given names, and 0 if there is none.
pub open spec fn frames_stored(names: Seq<Seq<char>>, n: nat) -> bool {
    &&& forall|i: int|
        0 <= i < names.len() && frame_index_of(#[trigger] names[i]) is Some ==> frame_index_of(names[i])->0 < n
    &&& n > 0 ==> exists|i: int| 0 <= i < names.len() && frame_index_of(#[trigger] names[i]) == Some((n - 1) as nat)
}

/// An analysis goes on where it was left: after the masks of the first `n` frames have been stored, beside files of any
/// other names, the next frame is frame `n`, and no other.
pub proof fn law_goes_on_where_left(names: Seq<Seq<char>>, n: u64, next: nat)
    requires
        forall|k: u64| k < n ==> names.contains(#[trigger] frame_file(k as nat, ".mask"@)),
        forall|i: int|
            0 <= i < names.len() && frame_index_of(#[trigger] names[i]) is Some ==> frame_index_of(names[i])->0 < n,
    ensures
        frames_stored(names, next) <==> next == n,
{
    if n > 0 {
        let k = (n - 1) as u64;
        law_frame_file_found(k);
        assert(names.contains(frame_file(k as nat, ".mask"@)));
        let i = choose|i: int| 0 <= i < names.len() && names[i] == frame_file(k as nat, ".mask"@);
        assert(frame_index_of(names[i]) == Some(k as nat));
    }
}

/// Whether a file holds a mask of `area` ones and zeros, and nothing else.
pub open spec fn mask_file_ok(s: Seq<u8>, area: int) -> bool {
    holds_mask(s, 0, area) && mask_end(s, 0) == s.len()
}

/// The mask that was saved is the mask that is loaded.
pub proof fn law_mask_file_round_trip(mask: Seq<u8>, area: int)
    requires
        mask.len() == area,
        forall|i: int| 0 <= i < mask.len() ==> mask[i] <= 1,
        runs_of(mask).len() < 0x1_0000_0000,
    ensures
        mask_file_ok(rle_bytes(mask), area),
        mask_at(rle_bytes(mask), 0) == mask,
{
    let none = Seq::<u8>::empty();
    law_rle_round_trip(none, mask, none);
    assert(none + rle_bytes(mask) + none =~= rle_bytes(mask));
}

/// A file that has lost its end is not taken for a mask.
pub proof fn law_cut_mask_file_refused(mask: Seq<u8>, area: int, n: int)
    requires
        0 <= n < rle_bytes(mask).len(),
        runs_of(mask).len() < 0x1_0000_0000,
    ensures
        !mask_file_ok(rle_bytes(mask).take(n), area),
{
    let s = rle_bytes(mask).take(n);
    let k = runs_of(mask).len();
    if n >= 4 {
        lemma_pow256();
        law_le_round_trip(k, 4);
        law_rle_size(mask);
        assert(s.subrange(0, 4) =~= le(k, 4));
        assert(run_count(s, 0) == k);
    }
}

/// One instance of a frame: a person, or a face on its own. `score` and `xyxy` are the bits of
/// single-precision numbers.
#[derive(Debug, Clone)]
pub struct InstanceRecord {
    pub id: u64,
    pub kind: u8,
    pub score: u32,
    pub xyxy: [u32; 4],
    pub mask: Vec<u8>,
}

/// What an instance says.
#[verifier::ext_equal]
pub struct InstanceView {
    pub id: u64,
    pub kind: u8,
    pub score: u32,
    pub xyxy: Seq<u32>,
    pub mask: Seq<u8>,
}

impl View for InstanceRecord {
    type V = InstanceView;

    open spec fn view(&self) -> InstanceView {
        InstanceView { id: self.id, kind: self.kind, score: self.score, xyxy: self.xyxy@, mask: self.mask@ }
    }
}

/// What the instances of a list say.
pub open spec fn instances(v: Seq<InstanceRecord>) -> Seq<InstanceView> {
    v.map_values(|r: InstanceRecord| r@)
}

/// The bytes of an instance before its mask.
#[verifier::opaque]
pub open spec fn instance_head(v: InstanceView) -> Seq<u8> {
    le(v.id as nat, 8).push(v.kind) + le(v.score as nat, 4) + le(v.xyxy[0] as nat, 4) + le(v.xyxy[1] as nat, 4)
        + le(v.xyxy[2] as nat, 4) + le(v.xyxy[3] as nat, 4)
}

/// The bytes of a list of instances.
pub open spec fn instance_bytes(vs: Seq<InstanceView>) -> Seq<u8>
    decreases vs.len(),
{
    if vs.len() == 0 {
        Seq::empty()
    } else {
        instance_bytes(vs.drop_last()) + instance_head(vs.last()) + rle_bytes(vs.last().mask)
    }
}

/// The file of a frame's instances.
pub open spec fn instance_file(vs: Seq<InstanceView>) -> Seq<u8> {
    le((vs.len() % 0x1_0000_0000) as nat, 4) + instance_bytes(vs)
}

/// The instance stored at `off`, whose mask has `area` pixels, and where it ends.
#[verifier::opaque]
pub open spec fn instance_at(s: Seq<u8>, off: int, area: int) -> Option<(InstanceView, int)> {
    if off + 29 > s.len() || !holds_mask(s, off + 29, area) {
        None
    } else {
        Some(
            (
                InstanceView {
                    id: le_at(s, off, 8) as u64,
                    kind: s[off + 8],
                    score: le_at(s, off + 9, 4) as u32,
                    xyxy: seq![
                        le_at(s, off + 13, 4) as u32,
                        le_at(s, off + 17, 4) as u32,
                        le_at(s, off + 21, 4) as u32,
                        le_at(s, off + 25, 4) as u32,
                    ],
                    mask: mask_at(s, off + 29),
                },
                mask_end(s, off + 29),
            ),
        )
    }
}

/// The first `n` instances stored from `off` on, and where they end.
pub open spec fn instances_at(s: Seq<u8>, off: int, n: int, area: int) -> Option<(Seq<InstanceView>, int)>
    decreases n,
{
    if n <= 0 {
        Some((Seq::empty(), off))
    } else {
        match instances_at(s, off, n - 1, area) {
            None => None,
            Some((vs, end)) => match instance_at(s, end, area) {
                None => None,
                Some((v, e)) => Some((vs.push(v), e)),
            },
        }
    }
}

/// What the file of a frame's instances says, if it is sound.
pub open spec fn instances_in(s: Seq<u8>, area: int) -> Option<Seq<InstanceView>> {
    if s.len() < 4 {
        None
    } else {
        match instances_at(s, 4, le_at(s, 0, 4) as int, area) {
            None => None,
            Some((vs, end)) => Some(vs),
        }
    }
}

proof fn lemma_instances_stop(s: Seq<u8>, off: int, i: int, n: int, area: int)
    requires
        i <= n,
        instances_at(s, off, i, area) is None,
    ensures
        instances_at(s, off, n, area) is None,
    decreases n - i,
{
    if i < n {
        lemma_instances_stop(s, off, i, n - 1, area);
    }
}

impl MaskStore {
    /// The bytes of the file with a frame's instances.
    pub fn save_instances(&self, list: &Vec<InstanceRecord>) -> (r: Vec<u8>)
        ensures
            r@ == instance_file(instances(list@)),
    {
        let ghost vs = instances(list@);
        let mut buf: Vec<u8> = Vec::new();
        push_le(&mut buf, list.len() as u64 % 0x1_0000_0000, 4);
        let ghost head = buf@;
        assert(vs.take(0) =~= Seq::<InstanceView>::empty());
        assert(head =~= le((vs.len() % 0x1_0000_0000) as nat, 4));
        assert(buf@ =~= head + instance_bytes(vs.take(0)));
        for i in 0..list.len()
            invariant
                vs == instances(list@),
                buf@ == head + instance_bytes(vs.take(i as int)),
        {
            assert(vs.take(i + 1).drop_last() =~= vs.take(i as int));
            let ghost before = buf@;
            let inst = &list[i];
            assert(vs[i as int] == inst@);
            push_le(&mut buf, inst.id, 8);
            buf.push(inst.kind);
            push_le(&mut buf, inst.score as u64, 4);
            push_le(&mut buf, inst.xyxy[0] as u64, 4);
            push_le(&mut buf, inst.xyxy[1] as u64, 4);
            push_le(&mut buf, inst.xyxy[2] as u64, 4);
            push_le(&mut buf, inst.xyxy[3] as u64, 4);
            proof {
                reveal(instance_head);
            }
            assert(buf@ =~= before + instance_head(inst@));
            rle_encode(&inst.mask, &mut buf);
            assert(buf@ =~= head + instance_bytes(vs.take(i + 1)));
        }
        assert(vs.take(vs.len() as int) =~= vs);
        buf
    }

    /// The instances of frame `idx` of a `w` by `h` video, from the bytes of their file; without a file
    /// there are none.
    pub fn load_instances(&self, idx: u64, file: Option<&[u8]>, w: usize, h: usize) -> (r: Result<
        Option<Vec<InstanceRecord>>,
        MaskStoreError,
    >)
        requires
            w * h <= usize::MAX,
        ensures
            file is None ==> r == Ok::<Option<Vec<InstanceRecord>>, MaskStoreError>(None),
            file is Some ==> match r {
                Ok(list) => list is Some && instances_in(file->0@, w * h) == Some(instances(list->0@)),
                Err(e) => instances_in(file->0@, w * h) is None && e == MaskStoreError::Corrupt(idx),
            },
    {
        match file {
            None => Ok(None),
            Some(bytes) => match read_instances(bytes, w * h) {
                Some(list) => Ok(Some(list)),
                None => Err(MaskStoreError::Corrupt(idx)),
            },
        }
    }
}

fn read_instances(bytes: &[u8], area: usize) -> (r: Option<Vec<InstanceRecord>>)
    ensures
        r is Some <==> instances_in(bytes@, area as int) is Some,
        r is Some ==> instances(r->0@) == instances_in(bytes@, area as int)->0,
{
    let ghost s = bytes@;
    assert(bytes.len() == s.len());
    if bytes.len() < 4 {
        return None;
    }
    let n: u64 = read_le(bytes, 0, 4);
    let mut out: Vec<InstanceRecord> = Vec::new();
    let mut off: usize = 4;
    let mut i: u64 = 0;
    assert(instances(out@) =~= Seq::<InstanceView>::empty());
    while i < n
        invariant
            s == bytes@,
            bytes.len() == s.len(),
            i <= n,
            n == le_at(s, 0, 4),
            s.len() >= 4,
            instances_at(s, 4, i as int, area as int) == Some((instances(out@), off as int)),
        decreases n - i,
    {
        proof {
            reveal(instance_at);
        }
        if bytes.len() < 29 || off > bytes.len() - 29 {
            proof {
                lemma_instances_stop(s, 4, i + 1, n as int, area as int);
            }
            return None;
        }
        proof {
            lemma_pow256();
        }
        let id: u64 = read_le(bytes, off, 8);
        let kind: u8 = bytes[off + 8];
        let score: u64 = read_le(bytes, off + 9, 4);
        let x1: u64 = read_le(bytes, off + 13, 4);
        let y1: u64 = read_le(bytes, off + 17, 4);
        let x2: u64 = read_le(bytes, off + 21, 4);
        let y2: u64 = read_le(bytes, off + 25, 4);
        let mut pos: usize = off + 29;
        let ghost at = off as int;
        match rle_decode(bytes, &mut pos, area) {
            None => {
                proof {
                    lemma_instances_stop(s, 4, i + 1, n as int, area as int);
                }
                return None;
            },
            Some(mask) => {
                let ghost before = instances(out@);
                let inst = InstanceRecord {
                    id,
                    kind,
                    score: score as u32,
                    xyxy: [x1 as u32, y1 as u32, x2 as u32, y2 as u32],
                    mask,
                };
                let ghost v = inst@;
                proof {
                    assert(v =~= (instance_at(s, at, area as int)->0).0);
                }
                out.push(inst);
                assert(instances(out@) =~= before.push(v));
                off = pos;
            },
        }
        i = i + 1;
    }
    Some(out)
}

proof fn lemma_instance_bytes_add(a: Seq<InstanceView>, b: Seq<InstanceView>)
    ensures
        instance_bytes(a + b) == instance_bytes(a) + instance_bytes(b),
    decreases b.len(),
{
    if b.len() == 0 {
        assert(a + b =~= a);
        assert(instance_bytes(a) + instance_bytes(b) =~= instance_bytes(a));
    } else {
        lemma_instance_bytes_add(a, b.drop_last());
        assert((a + b).drop_last() =~= a + b.drop_last());
        assert(instance_bytes(a + b) =~= instance_bytes(a) + instance_bytes(b));
    }
}

/// Whether an instance can be stored: four corner coordinates, a mask of `area` ones and zeros with fewer
/// than 2 to the power of 32 runs.
pub open spec fn storable(v: InstanceView, area: int) -> bool {
    &&& v.xyxy.len() == 4
    &&& v.mask.len() == area
    &&& forall|i: int| 0 <= i < v.mask.len() ==> v.mask[i] <= 1
    &&& runs_of(v.mask).len() < 0x1_0000_0000
}

proof fn lemma_instance_read(prefix: Seq<u8>, v: InstanceView, suffix: Seq<u8>, area: int)
    requires
        storable(v, area),
    ensures
        ({
            let s = prefix + instance_head(v) + rle_bytes(v.mask) + suffix;
            instance_at(s, prefix.len() as int, area) == Some(
                (v, (prefix.len() + instance_head(v).len() + rle_bytes(v.mask).len()) as int),
            )
        }),
{
    reveal(instance_head);
    reveal(instance_at);
    let hd = instance_head(v);
    let s = prefix + hd + rle_bytes(v.mask) + suffix;
    let off = prefix.len() as int;
    lemma_pow256();
    law_le_round_trip(v.id as nat, 8);
    law_le_round_trip(v.score as nat, 4);
    law_le_round_trip(v.xyxy[0] as nat, 4);
    law_le_round_trip(v.xyxy[1] as nat, 4);
    law_le_round_trip(v.xyxy[2] as nat, 4);
    law_le_round_trip(v.xyxy[3] as nat, 4);
    assert(hd.len() == 29);
    law_rle_round_trip(prefix + hd, v.mask, suffix);
    assert(prefix + hd + rle_bytes(v.mask) + suffix =~= s);
    assert(s.subrange(off, off + 8) =~= le(v.id as nat, 8));
    assert(s[off + 8] == v.kind);
    assert(s.subrange(off + 9, off + 9 + 4) =~= le(v.score as nat, 4));
    assert(s.subrange(off + 13, off + 13 + 4) =~= le(v.xyxy[0] as nat, 4));
    assert(s.subrange(off + 17, off + 17 + 4) =~= le(v.xyxy[1] as nat, 4));
    assert(s.subrange(off + 21, off + 21 + 4) =~= le(v.xyxy[2] as nat, 4));
    assert(s.subrange(off + 25, off + 25 + 4) =~= le(v.xyxy[3] as nat, 4));
    assert((instance_at(s, off, area)->0).0 =~= v);
}

proof fn lemma_regroup(a: Seq<u8>, b: Seq<u8>, c: Seq<u8>, d: Seq<u8>, e: Seq<u8>)
    ensures
        a + ((b + c + d) + e) == a + b + c + d + e,
{
    assert(a + ((b + c + d) + e) =~= a + b + c + d + e);
}

proof fn lemma_instances_step(
    s: Seq<u8>,
    k: int,
    before: Seq<InstanceView>,
    prefix: Seq<u8>,
    v: InstanceView,
    suffix: Seq<u8>,
    area: int,
)
    requires
        0 < k,
        storable(v, area),
        instances_at(s, 4, k - 1, area) == Some((before, prefix.len() as int)),
        s == prefix + instance_head(v) + rle_bytes(v.mask) + suffix,
    ensures
        instances_at(s, 4, k, area) == Some(
            (before.push(v), (prefix.len() + instance_head(v).len() + rle_bytes(v.mask).len()) as int),
        ),
{
    lemma_instance_read(prefix, v, suffix, area);
}

proof fn lemma_instances_read(vs: Seq<InstanceView>, area: int, k: int)
    requires
        0 <= k <= vs.len() < 0x1_0000_0000,
        forall|i: int| 0 <= i < vs.len() ==> storable(#[trigger] vs[i], area),
    ensures
        instances_at(instance_file(vs), 4, k, area) == Some(
            (vs.take(k), 4 + instance_bytes(vs.take(k)).len() as int),
        ),
    decreases k,
{
    let s = instance_file(vs);
    let head = le(vs.len() as nat, 4);
    lemma_le_len(vs.len() as nat, 4);
    if k == 0 {
        assert(vs.take(0) =~= Seq::<InstanceView>::empty());
    } else {
        lemma_instances_read(vs, area, k - 1);
        let v = vs[k - 1];
        let before = vs.take(k - 1);
        let after = vs.skip(k);
        let hd = instance_head(v);
        let mb = rle_bytes(v.mask);
        let ib = instance_bytes(before);
        let ia = instance_bytes(after);
        assert(vs =~= vs.take(k) + after);
        lemma_instance_bytes_add(vs.take(k), after);
        assert(vs.take(k).drop_last() =~= before);
        lemma_regroup(head, ib, hd, mb, ia);
        lemma_instances_step(s, k, before, head + ib, v, ia, area);
        assert(before.push(v) =~= vs.take(k));
    }
}

/// The instances that were saved are the instances that are loaded, in order.
pub proof fn law_instance_file_round_trip(vs: Seq<InstanceView>, area: int)
    requires
        vs.len() < 0x1_0000_0000,
        forall|i: int| 0 <= i < vs.len() ==> storable(#[trigger] vs[i], area),
    ensures
        instances_in(instance_file(vs), area) == Some(vs),
{
    let s = instance_file(vs);
    lemma_pow256();
    law_le_round_trip(vs.len() as nat, 4);
    assert(s.subrange(0, 4) =~= le(vs.len() as nat, 4));
    lemma_instances_read(vs, area, vs.len() as int);
    assert(vs.take(vs.len() as int) =~= vs);
}

/// What a correction does with its pixels.
#[derive(Debug, Clone, Copy, PartialEq, Eq, Structural)]
pub enum PatchOp {
    Add,
    Erase,
}

/// A correction of the mask of one frame.
#[derive(Debug, Clone)]
pub struct Patch {
    pub frame: u64,
    pub op: PatchOp,
    pub mask: Vec<u8>,
}

/// What a correction says.
#[verifier::ext_equal]
pub struct PatchView {
    pub frame: u64,
    pub op: PatchOp,
    pub mask: Seq<u8>,
}

impl View for Patch {
    type V = PatchView;

    open spec fn view(&self) -> PatchView {
        PatchView { frame: self.frame, op: self.op, mask: self.mask@ }
    }
}

/// The corrections of a video, in the order in which they were made.
#[derive(Debug, Clone)]
pub struct PatchStore {
    pub patches: Vec<Patch>,
}

impl View for PatchStore {
    type V = Seq<PatchView>;

    open spec fn view(&self) -> Seq<PatchView> {
        self.patches@.map_values(|p: Patch| p@)
    }
}

/// The byte that stands for what a correction does.
pub open spec fn op_byte(op: PatchOp) -> u8 {
    match op {
        PatchOp::Add => 0,
        PatchOp::Erase => 1,
    }
}

/// What the byte of a correction stands for.
pub open spec fn op_of(b: u8) -> PatchOp {
    if b == 0 {
        PatchOp::Add
    } else {
        PatchOp::Erase
    }
}

/// The bytes of a correction before its mask.
pub open spec fn patch_head(p: PatchView) -> Seq<u8> {
    le(p.frame as nat, 8).push(op_byte(p.op))
}

/// The bytes of a list of corrections.
pub open spec fn patch_bytes(ps: Seq<PatchView>) -> Seq<u8>
    decreases ps.len(),
{
    if ps.len() == 0 {
        Seq::empty()
    } else {
        patch_bytes(ps.drop_last()) + patch_head(ps.last()) + rle_bytes(ps.last().mask)
    }
}

/// The file of the corrections: its version, their number, the corrections.
pub open spec fn patch_file(ps: Seq<PatchView>) -> Seq<u8> {
    le(1, 4) + le((ps.len() % 0x1_0000_0000) as nat, 4) + patch_bytes(ps)
}

/// The correction stored at `off`, and where it ends. Of a mask whose end is missing, what is there counts.
#[verifier::opaque]
pub open spec fn patch_at(s: Seq<u8>, off: int) -> Option<(PatchView, int)> {
    if off + 9 > s.len() || loose_mask(s, off + 9).len() > usize::MAX {
        None
    } else {
        Some(
            (
                PatchView {
                    frame: le_at(s, off, 8) as u64,
                    op: op_of(s[off + 8]),
                    mask: loose_mask(s, off + 9),
                },
                loose_end(s, off + 9),
            ),
        )
    }
}

/// The first `n` corrections stored from `off` on, and where they end.
pub open spec fn patches_at(s: Seq<u8>, off: int, n: int) -> Option<(Seq<PatchView>, int)>
    decreases n,
{
    if n <= 0 {
        Some((Seq::empty(), off))
    } else {
        match patches_at(s, off, n - 1) {
            None => None,
            Some((ps, end)) => match patch_at(s, end) {
                None => None,
                Some((p, e)) => Some((ps.push(p), e)),
            },
        }
    }
}

/// What the file of the corrections says. A file of another version, or one that breaks off before the head of
/// a correction, says nothing: rather lose the corrections than render wrong ones.
pub open spec fn patches_in(s: Seq<u8>) -> Seq<PatchView> {
    if s.len() < 8 || le_at(s, 0, 4) != 1 {
        Seq::empty()
    } else {
        match patches_at(s, 8, le_at(s, 4, 4) as int) {
            None => Seq::empty(),
            Some((ps, end)) => ps,
        }
    }
}

/// The corrections of all frames but one.
pub open spec fn without_frame(ps: Seq<PatchView>, frame: u64) -> Seq<PatchView>
    decreases ps.len(),
{
    if ps.len() == 0 {
        Seq::empty()
    } else if ps.last().frame == frame {
        without_frame(ps.drop_last(), frame)
    } else {
        without_frame(ps.drop_last(), frame).push(ps.last())
    }
}

/// A mask after a correction: its pixels are added or erased, bit by bit. A correction of another frame, or
/// of another size, does nothing.
pub open spec fn corrected(mask: Seq<u8>, p: PatchView, frame: u64) -> Seq<u8> {
    if p.frame != frame || p.mask.len() != mask.len() {
        mask
    } else {
        Seq::new(
            mask.len(),
            |i: int|
                match p.op {
                    PatchOp::Add => mask[i] | p.mask[i],
                    PatchOp::Erase => mask[i] & !p.mask[i],
                },
        )
    }
}

/// A mask after all corrections, first to last.
pub open spec fn all_corrected(mask: Seq<u8>, ps: Seq<PatchView>, frame: u64) -> Seq<u8>
    decreases ps.len(),
{
    if ps.len() == 0 {
        mask
    } else {
        corrected(all_corrected(mask, ps.drop_last(), frame), ps.last(), frame)
    }
}

proof fn lemma_patches_stop(s: Seq<u8>, off: int, i: int, n: int)
    requires
        i <= n,
        patches_at(s, off, i) is None,
    ensures
        patches_at(s, off, n) is None,
    decreases n - i,
{
    if i < n {
        lemma_patches_stop(s, off, i, n - 1);
    }
}

impl Default for PatchStore {
    fn default() -> (r: PatchStore)
        ensures
            r@ == Seq::<PatchView>::empty(),
    {
        let r = PatchStore { patches: Vec::new() };
        assert(r@ =~= Seq::<PatchView>::empty());
        r
    }
}

impl PatchStore {
    /// The corrections in a file of the given bytes; without a file there are none.
    pub fn load(file: Option<&[u8]>) -> (r: PatchStore)
        ensures
            r@ == match file {
                Some(bytes) => patches_in(bytes@),
                None => Seq::empty(),
            },
    {
        match file {
            None => PatchStore::default(),
            Some(bytes) => match read_patches(bytes) {
                Some(patches) => PatchStore { patches },
                None => PatchStore::default(),
            },
        }
    }

    /// The bytes of the file with the corrections.
    pub fn save(&self) -> (r: Vec<u8>)
        ensures
            r@ == patch_file(self@),
    {
        let ghost ps = self@;
        let mut buf: Vec<u8> = Vec::new();
        push_le(&mut buf, 1, 4);
        push_le(&mut buf, self.patches.len() as u64 % 0x1_0000_0000, 4);
        let ghost head = buf@;
        assert(head =~= le(1, 4) + le((ps.len() % 0x1_0000_0000) as nat, 4));
        assert(ps.take(0) =~= Seq::<PatchView>::empty());
        assert(buf@ =~= head + patch_bytes(ps.take(0)));
        for i in 0..self.patches.len()
            invariant
                ps == self@,
                buf@ == head + patch_bytes(ps.take(i as int)),
        {
            assert(ps.take(i + 1).drop_last() =~= ps.take(i as int));
            let ghost before = buf@;
            let p = &self.patches[i];
            assert(ps[i as int] == p@);
            push_le(&mut buf, p.frame, 8);
            let b: u8 = match p.op {
                PatchOp::Add => 0,
                PatchOp::Erase => 1,
            };
            buf.push(b);
            assert(buf@ =~= before + patch_head(p@));
            rle_encode(&p.mask, &mut buf);
            assert(buf@ =~= head + patch_bytes(ps.take(i + 1)));
        }
        assert(ps.take(ps.len() as int) =~= ps);
        buf
    }

    /// Adds a correction; gives the bytes of the new file.
    pub fn push(&mut self, patch: Patch) -> (r: Vec<u8>)
        ensures
            final(self)@ == old(self)@.push(patch@),
            r@ == patch_file(final(self)@),
    {
        let ghost before = self@;
        let ghost p = patch@;
        self.patches.push(patch);
        assert(self@ =~= before.push(p));
        self.save()
    }

    /// Drops all corrections of a frame; gives the bytes of the new file.
    pub fn clear_frame(&mut self, frame: u64) -> (r: Vec<u8>)
        ensures
            final(self)@ == without_frame(old(self)@, frame),
            r@ == patch_file(final(self)@),
    {
        let ghost all = self@;
        let ghost list = self.patches@;
        let mut rest: Vec<Patch> = Vec::new();
        rest.append(&mut self.patches);
        assert(rest@ =~= list);
        let mut front: Vec<Patch> = Vec::new();
        while rest.len() > 0
            invariant
                rest@ == list.take(rest@.len() as int),
                rest@.len() + front@.len() == list.len(),
                forall|i: int| 0 <= i < front@.len() ==> #[trigger] front@[i] == list[list.len() - 1 - i],
            decreases rest@.len(),
        {
            let ghost k = rest@.len();
            match rest.pop() {
                Some(p) => {
                    front.push(p);
                },
                None => {},
            }
            assert(rest@ =~= list.take(k - 1));
        }
        assert(all.take(0) =~= Seq::<PatchView>::empty());
        let mut back = PatchStore { patches: Vec::new() };
        assert(back@ =~= Seq::<PatchView>::empty());
        while front.len() > 0
            invariant
                front@.len() <= list.len(),
                all == list.map_values(|p: Patch| p@),
                forall|i: int| 0 <= i < front@.len() ==> #[trigger] front@[i] == list[list.len() - 1 - i],
                back@ == without_frame(all.take(list.len() - front@.len()), frame),
            decreases front@.len(),
        {
            let ghost i = list.len() - front@.len();
            assert(all.take(i + 1).drop_last() =~= all.take(i));
            match front.pop() {
                Some(p) => {
                    assert(p == list[i]);
                    assert(p@ == all[i]);
                    let ghost before = back@;
                    let ghost v = p@;
                    if p.frame != frame {
                        back.patches.push(p);
                        assert(back@ =~= before.push(v));
                    }
                },
                None => {},
            }
        }
        assert(all.take(list.len() as int) =~= all);
        self.patches = back.patches;
        assert(self@ =~= without_frame(all, frame));
        self.save()
    }

    /// Applies the corrections of a frame to its mask.
    pub fn apply(&self, frame: u64, mask: &mut [u8])
        ensures
            final(mask)@ == all_corrected(old(mask)@, self@, frame),
    {
        let ghost ps = self@;
        let ghost m = old(mask)@;
        assert(ps.take(0) =~= Seq::<PatchView>::empty());
        for i in 0..self.patches.len()
            invariant
                ps == self@,
                mask@ == all_corrected(m, ps.take(i as int), frame),
        {
            assert(ps.take(i + 1).drop_last() =~= ps.take(i as int));
            let p = &self.patches[i];
            assert(ps[i as int] == p@);
            correct(mask, p, frame);
        }
        assert(ps.take(ps.len() as int) =~= ps);
    }
}

fn correct(mask: &mut [u8], p: &Patch, frame: u64)
    ensures
        final(mask)@ == corrected(old(mask)@, p@, frame),
{
    if p.frame != frame || p.mask.len() != mask.len() {
        return;
    }
    let ghost m = mask@;
    let n: usize = p.mask.len();
    for i in 0..n
        invariant
            n == m.len(),
            mask@.len() == n,
            p.mask@.len() == n,
            forall|j: int| 0 <= j < i ==> #[trigger] mask@[j] == corrected(m, p@, p.frame)[j],
            forall|j: int| i <= j < n ==> #[trigger] mask@[j] == m[j],
    {
        let v: u8 = p.mask[i];
        let o: u8 = mask[i];
        mask[i] = match p.op {
            PatchOp::Add => o | v,
            PatchOp::Erase => o & !v,
        };
    }
    assert(mask@ =~= corrected(m, p@, frame));
}

fn read_patches(bytes: &[u8]) -> (r: Option<Vec<Patch>>)
    ensures
        r is None ==> patches_in(bytes@) == Seq::<PatchView>::empty(),
        r is Some ==> r->0@.map_values(|p: Patch| p@) == patches_in(bytes@),
{
    let ghost s = bytes@;
    assert(bytes.len() == s.len());
    if bytes.len() < 8 {
        return None;
    }
    let version: u64 = read_le(bytes, 0, 4);
    let n: u64 = read_le(bytes, 4, 4);
    if version != 1 {
        return None;
    }
    let mut store = PatchStore { patches: Vec::new() };
    let mut off: usize = 8;
    let mut i: u64 = 0;
    assert(store@ =~= Seq::<PatchView>::empty());
    while i < n
        invariant
            s == bytes@,
            bytes.len() == s.len(),
            i <= n,
            n == le_at(s, 4, 4),
            le_at(s, 0, 4) == 1,
            s.len() >= 8,
            patches_at(s, 8, i as int) == Some((store@, off as int)),
        decreases n - i,
    {
        proof {
            reveal(patch_at);
        }
        if bytes.len() < 9 || off > bytes.len() - 9 {
            proof {
                lemma_patches_stop(s, 8, i + 1, n as int);
            }
            return None;
        }
        proof {
            lemma_pow256();
        }
        let frame: u64 = read_le(bytes, off, 8);
        let op = if bytes[off + 8] == 0 { PatchOp::Add } else { PatchOp::Erase };
        let mut pos: usize = off + 9;
        let ghost at = off as int;
        match rle_decode_any(bytes, &mut pos) {
            None => {
                proof {
                    lemma_patches_stop(s, 8, i + 1, n as int);
                }
                return None;
            },
            Some(mask) => {
                let ghost before = store@;
                let p = Patch { frame, op, mask };
                let ghost v = p@;
                proof {
                    assert(v =~= (patch_at(s, at)->0).0);
                }
                store.patches.push(p);
                assert(store@ =~= before.push(v));
                off = pos;
            },
        }
        i = i + 1;
    }
    Some(store.patches)
}

/// Whether a correction can be stored: a mask of ones and zeros with fewer than 2 to the power of 32 runs.
pub open spec fn patch_storable(p: PatchView) -> bool {
    &&& p.mask.len() <= usize::MAX
    &&& forall|i: int| 0 <= i < p.mask.len() ==> p.mask[i] <= 1
    &&& runs_of(p.mask).len() < 0x1_0000_0000
}

proof fn lemma_patch_bytes_add(a: Seq<PatchView>, b: Seq<PatchView>)
    ensures
        patch_bytes(a + b) == patch_bytes(a) + patch_bytes(b),
    decreases b.len(),
{
    if b.len() == 0 {
        assert(a + b =~= a);
        assert(patch_bytes(a) + patch_bytes(b) =~= patch_bytes(a));
    } else {
        lemma_patch_bytes_add(a, b.drop_last());
        assert((a + b).drop_last() =~= a + b.drop_last());
        assert(patch_bytes(a + b) =~= patch_bytes(a) + patch_bytes(b));
    }
}

proof fn lemma_patch_read(prefix: Seq<u8>, p: PatchView, suffix: Seq<u8>)
    requires
        patch_storable(p),
    ensures
        ({
            let s = prefix + patch_head(p) + rle_bytes(p.mask) + suffix;
            patch_at(s, prefix.len() as int) == Some(
                (p, (prefix.len() + patch_head(p).len() + rle_bytes(p.mask).len()) as int),
            )
        }),
{
    reveal(patch_at);
    let hd = patch_head(p);
    let s = prefix + hd + rle_bytes(p.mask) + suffix;
    let off = prefix.len() as int;
    lemma_pow256();
    law_le_round_trip(p.frame as nat, 8);
    law_loose_round_trip(prefix + hd, p.mask, suffix);
    assert(s.subrange(off, off + 8) =~= le(p.frame as nat, 8));
    assert(s[off + 8] == op_byte(p.op));
    assert((patch_at(s, off)->0).0 =~= p);
}

proof fn lemma_patches_step(
    s: Seq<u8>,
    k: int,
    before: Seq<PatchView>,
    prefix: Seq<u8>,
    p: PatchView,
    suffix: Seq<u8>,
)
    requires
        0 < k,
        patch_storable(p),
        patches_at(s, 8, k - 1) == Some((before, prefix.len() as int)),
        s == prefix + patch_head(p) + rle_bytes(p.mask) + suffix,
    ensures
        patches_at(s, 8, k) == Some(
            (before.push(p), (prefix.len() + patch_head(p).len() + rle_bytes(p.mask).len()) as int),
        ),
{
    lemma_patch_read(prefix, p, suffix);
}

proof fn lemma_patches_read(ps: Seq<PatchView>, k: int)
    requires
        0 <= k <= ps.len() < 0x1_0000_0000,
        forall|i: int| 0 <= i < ps.len() ==> patch_storable(#[trigger] ps[i]),
    ensures
        patches_at(patch_file(ps), 8, k) == Some((ps.take(k), 8 + patch_bytes(ps.take(k)).len() as int)),
    decreases k,
{
    let s = patch_file(ps);
    let head = le(1, 4) + le(ps.len() as nat, 4);
    lemma_le_len(1, 4);
    lemma_le_len(ps.len() as nat, 4);
    if k == 0 {
        assert(ps.take(0) =~= Seq::<PatchView>::empty());
    } else {
        lemma_patches_read(ps, k - 1);
        let p = ps[k - 1];
        let before = ps.take(k - 1);
        let after = ps.skip(k);
        let hd = patch_head(p);
        let mb = rle_bytes(p.mask);
        let ib = patch_bytes(before);
        let ia = patch_bytes(after);
        assert(ps =~= ps.take(k) + after);
        lemma_patch_bytes_add(ps.take(k), after);
        assert(ps.take(k).drop_last() =~= before);
        lemma_regroup(head, ib, hd, mb, ia);
        lemma_patches_step(s, k, before, head + ib, p, ia);
        assert(before.push(p) =~= ps.take(k));
    }
}

/// The corrections that were saved are the corrections that are loaded, in order.
pub proof fn law_patch_file_round_trip(ps: Seq<PatchView>)
    requires
        ps.len() < 0x1_0000_0000,
        forall|i: int| 0 <= i < ps.len() ==> patch_storable(#[trigger] ps[i]),
    ensures
        patches_in(patch_file(ps)) == ps,
{
    let s = patch_file(ps);
    lemma_pow256();
    law_le_round_trip(1, 4);
    law_le_round_trip(ps.len() as nat, 4);
    assert(s.subrange(0, 4) =~= le(1, 4));
    assert(s.subrange(4, 8) =~= le(ps.len() as nat, 4));
    lemma_patches_read(ps, ps.len() as int);
    assert(ps.take(ps.len() as int) =~= ps);
}

/// Corrections of other frames leave a mask as it is.
pub proof fn law_other_frames_untouched(mask: Seq<u8>, ps: Seq<PatchView>, frame: u64)
    requires
        forall|i: int| 0 <= i < ps.len() ==> (#[trigger] ps[i]).frame != frame,
    ensures
        all_corrected(mask, ps, frame) == mask,
    decreases ps.len(),
{
    if ps.len() > 0 {
        assert(ps.last() == ps[ps.len() - 1]);
        assert forall|i: int| 0 <= i < ps.drop_last().len() implies (#[trigger] ps.drop_last()[i]).frame
            != frame by {
            assert(ps.drop_last()[i] == ps[i]);
        }
        law_other_frames_untouched(mask, ps.drop_last(), frame);
    }
}

/// Once its corrections have been dropped, a frame's mask stays as it is; those of other frames still count.
pub proof fn law_clear_frame_undoes(mask: Seq<u8>, ps: Seq<PatchView>, frame: u64, other: u64)
    ensures
        all_corrected(mask, without_frame(ps, frame), frame) == mask,
        other != frame ==> all_corrected(mask, without_frame(ps, frame), other) == all_corrected(mask, ps, other),
    decreases ps.len(),
{
    if ps.len() > 0 {
        let m = ps.drop_last();
        law_clear_frame_undoes(mask, m, frame, other);
        if ps.last().frame != frame {
            assert(without_frame(ps, frame).drop_last() =~= without_frame(m, frame));
        }
    }
}

/// Corrections are applied in the order in which they were made.
pub proof fn law_later_correction_wins(mask: Seq<u8>, ps: Seq<PatchView>, p: PatchView)
    ensures
        all_corrected(mask, ps.push(p), p.frame) == corrected(all_corrected(mask, ps, p.frame), p, p.frame),
{
    assert(ps.push(p).drop_last() =~= ps);
}

/// On masks of ones and zeros, adding sets exactly the pixels of the correction besides those that were set,
/// and erasing clears exactly them.
pub proof fn law_correction_of_binary(mask: Seq<u8>, p: PatchView, i: int)
    requires
        p.mask.len() == mask.len(),
        0 <= i < mask.len(),
        mask[i] <= 1,
        p.mask[i] <= 1,
    ensures
        p.op == PatchOp::Add ==> corrected(mask, p, p.frame)[i] == if mask[i] == 1 || p.mask[i] == 1 {
            1u8
        } else {
            0u8
        },
        p.op == PatchOp::Erase ==> corrected(mask, p, p.frame)[i] == if p.mask[i] == 1 {
            0u8
        } else {
            mask[i]
        },
{
    let a = mask[i];
    let b = p.mask[i];
    assert(a <= 1 && b <= 1 ==> (a | b) == (if a == 1 || b == 1 {
        1u8
    } else {
        0u8
    })) by (bit_vector);
    assert(a <= 1 && b <= 1 ==> (a & !b) == (if b == 1 {
        0u8
    } else {
        a
    })) by (bit_vector);
}

/// The name of the file of a frame: `frame_`, the number of the frame in at least eight digits, and the ending.
pub proof fn law_frame_name(idx: nat, ending: Seq<char>)
    ensures
        ({
            let name = frame_file(idx, ending);
            let d = if dec(idx).len() < 8 {
                8
            } else {
                dec(idx).len() as int
            };
            &&& name.len() == 6 + d + ending.len()
            &&& name[0] == 'f' && name[1] == 'r' && name[2] == 'a' && name[3] == 'm' && name[4] == 'e' && name[5] == '_'
            &&& forall|i: int| 6 <= i < 6 + d - dec(idx).len() ==> #[trigger] name[i] == '0'
            &&& name.subrange(6 + d - dec(idx).len(), 6 + d) == dec(idx)
            &&& name.skip(6 + d) == ending
        }),
{
    reveal_strlit("frame_");
    let name = frame_file(idx, ending);
    let p = dec_padded(idx, 8);
    crate::text::law_decimal_round_trip(idx);
    assert(p.len() > 0);
    crate::text::law_padded(idx, 8, 0);
    let d = p.len() as int;
    assert(name =~= "frame_"@ + p + ending);
    assert forall|i: int| 6 <= i < 6 + d - dec(idx).len() implies #[trigger] name[i] == '0' by {
        crate::text::law_padded(idx, 8, i - 6);
    }
    assert forall|i: int| 0 <= i < dec(idx).len() implies #[trigger] name[6 + d - dec(idx).len() + i] == dec(idx)[i] by {
        crate::text::law_padded(idx, 8, d - dec(idx).len() + i);
    }
    assert(name.subrange(6 + d - dec(idx).len(), 6 + d) =~= dec(idx));
    assert(name.skip(6 + d) =~= ending);
}

/// Where the fields of an instance stand before its mask: eight bytes for its number, one for its kind, four for its score, four for each
/// corner, all with the lowest byte first.
pub proof fn law_instance_head(v: InstanceView, k: int)
    requires
        0 <= k < 4,
    ensures
        instance_head(v).len() == 29,
        instance_head(v).subrange(0, 8) == le(v.id as nat, 8),
        instance_head(v)[8] == v.kind,
        instance_head(v).subrange(9, 13) == le(v.score as nat, 4),
        instance_head(v).subrange(13 + 4 * k, 17 + 4 * k) == le(v.xyxy[k] as nat, 4),
{
    reveal(instance_head);
    let hd = instance_head(v);
    lemma_le_len(v.id as nat, 8);
    lemma_le_len(v.score as nat, 4);
    lemma_le_len(v.xyxy[0] as nat, 4);
    lemma_le_len(v.xyxy[1] as nat, 4);
    lemma_le_len(v.xyxy[2] as nat, 4);
    lemma_le_len(v.xyxy[3] as nat, 4);
    assert(hd.subrange(0, 8) =~= le(v.id as nat, 8));
    assert(hd.subrange(9, 13) =~= le(v.score as nat, 4));
    assert(hd.subrange(13, 17) =~= le(v.xyxy[0] as nat, 4));
    assert(hd.subrange(17, 21) =~= le(v.xyxy[1] as nat, 4));
    assert(hd.subrange(21, 25) =~= le(v.xyxy[2] as nat, 4));
    assert(hd.subrange(25, 29) =~= le(v.xyxy[3] as nat, 4));
}

/// The file of instances begins with their number in four bytes, the lowest first; each instance stands behind those before it, and its
/// mask behind its other fields.
pub proof fn law_instance_file(vs: Seq<InstanceView>, v: InstanceView)
    requires
        vs.len() + 1 < 0x1_0000_0000,
    ensures
        instance_file(Seq::empty()) == seq![0u8, 0u8, 0u8, 0u8],
        instance_file(vs.push(v)).take(4) == le((vs.len() + 1) as nat, 4),
        instance_file(vs.push(v)).skip(4) == instance_file(vs).skip(4) + instance_head(v) + rle_bytes(v.mask),
{
    lemma_le_len(vs.len() as nat, 4);
    lemma_le_len((vs.len() + 1) as nat, 4);
    assert(vs.push(v).drop_last() =~= vs);
    assert(instance_file(vs.push(v)).take(4) =~= le((vs.len() + 1) as nat, 4));
    assert(instance_file(vs).skip(4) =~= instance_bytes(vs));
    assert(instance_file(vs.push(v)).skip(4) =~= instance_bytes(vs.push(v)));
    crate::bytes::law_bytes(0);
    assert(instance_file(Seq::empty()) =~= seq![0u8, 0u8, 0u8, 0u8]);
}

/// How an instance is read from byte `off` on: its fields stand as they are written, and its mask behind them. It cannot be read if its
/// fields are not all there or there is no sound mask behind them.
pub proof fn law_instance_is_read(s: Seq<u8>, off: int, area: int)
    requires
        0 <= off,
    ensures
        instance_at(s, off, area) is Some <==> off + 29 <= s.len() && holds_mask(s, off + 29, area),
        instance_at(s, off, area) is Some ==> {
            let (v, end) = instance_at(s, off, area)->0;
            &&& v.id == le_at(s, off, 8)
            &&& v.kind == s[off + 8]
            &&& v.score == le_at(s, off + 9, 4)
            &&& v.xyxy.len() == 4
            &&& v.xyxy[0] == le_at(s, off + 13, 4)
            &&& v.xyxy[1] == le_at(s, off + 17, 4)
            &&& v.xyxy[2] == le_at(s, off + 21, 4)
            &&& v.xyxy[3] == le_at(s, off + 25, 4)
            &&& v.mask == mask_at(s, off + 29)
            &&& end == mask_end(s, off + 29)
        },
{
    reveal(instance_at);
    lemma_pow256();
    if off + 29 <= s.len() {
        crate::bytes::lemma_un_le_bound(s.subrange(off, off + 8));
        crate::bytes::lemma_un_le_bound(s.subrange(off + 9, off + 13));
        crate::bytes::lemma_un_le_bound(s.subrange(off + 13, off + 17));
        crate::bytes::lemma_un_le_bound(s.subrange(off + 17, off + 21));
        crate::bytes::lemma_un_le_bound(s.subrange(off + 21, off + 25));
        crate::bytes::lemma_un_le_bound(s.subrange(off + 25, off + 29));
    }
}

/// The file of corrections begins with the version, which is 1, and their number, each in four bytes, the lowest first. Each correction is
/// the number of its frame in eight bytes, a byte that is 0 if it adds and 1 if it erases, and its mask.
pub proof fn law_patch_file(ps: Seq<PatchView>, p: PatchView)
    requires
        ps.len() + 1 < 0x1_0000_0000,
    ensures
        patch_file(Seq::empty()) == seq![1u8, 0u8, 0u8, 0u8, 0u8, 0u8, 0u8, 0u8],
        patch_file(ps.push(p)).take(4) == seq![1u8, 0u8, 0u8, 0u8],
        patch_file(ps.push(p)).subrange(4, 8) == le((ps.len() + 1) as nat, 4),
        patch_file(ps.push(p)).skip(8) == patch_file(ps).skip(8) + le(p.frame as nat, 8) + seq![
            if p.op == PatchOp::Add {
                0u8
            } else {
                1u8
            },
        ] + rle_bytes(p.mask),
{
    lemma_le_len(ps.len() as nat, 4);
    lemma_le_len((ps.len() + 1) as nat, 4);
    crate::bytes::law_bytes(1);
    crate::bytes::law_bytes(0);
    assert(le(1, 4) =~= seq![1u8, 0u8, 0u8, 0u8]);
    assert(le(0, 4) =~= seq![0u8, 0u8, 0u8, 0u8]);
    assert(ps.push(p).drop_last() =~= ps);
    assert(patch_file(ps.push(p)).take(4) =~= le(1, 4));
    assert(patch_file(ps.push(p)).subrange(4, 8) =~= le((ps.len() + 1) as nat, 4));
    assert(patch_file(ps).skip(8) =~= patch_bytes(ps));
    assert(patch_file(ps.push(p)).skip(8) =~= patch_bytes(ps.push(p)));
    assert(patch_file(Seq::empty()) =~= seq![1u8, 0u8, 0u8, 0u8, 0u8, 0u8, 0u8, 0u8]);
    let b = if p.op == PatchOp::Add {
        0u8
    } else {
        1u8
    };
    assert(patch_bytes(ps.push(p)) =~= patch_bytes(ps) + le(p.frame as nat, 8) + seq![b] + rle_bytes(p.mask));
}

/// How a correction is read from byte `off` on: the number of its frame, what it does, and what is there of its mask.
pub proof fn law_patch_is_read(s: Seq<u8>, off: int)
    requires
        0 <= off,
    ensures
        off + 9 > s.len() ==> patch_at(s, off) is None,
        off + 9 <= s.len() && loose_mask(s, off + 9).len() <= usize::MAX ==> patch_at(s, off) is Some && {
            let (p, end) = patch_at(s, off)->0;
            &&& p.frame == le_at(s, off, 8)
            &&& (p.op == PatchOp::Add <==> s[off + 8] == 0)
            &&& p.mask == loose_mask(s, off + 9)
            &&& end == loose_end(s, off + 9)
        },
{
    reveal(patch_at);
    lemma_pow256();
    if off + 9 <= s.len() {
        crate::bytes::lemma_un_le_bound(s.subrange(off, off + 8));
    }
}

/// A file of corrections of another version, or that has not even its head, says nothing.
pub proof fn law_other_version(s: Seq<u8>)
    requires
        s.len() < 8 || s[0] != 1 || s[1] != 0 || s[2] != 0 || s[3] != 0,
    ensures
        patches_in(s) == Seq::<PatchView>::empty(),
{
    if s.len() >= 8 {
        crate::bytes::law_bytes_worth(s, 0);
    }
}

/// When the corrections of a frame are dropped, exactly those of the other frames stay, in their order.
pub proof fn law_without_frame(ps: Seq<PatchView>, frame: u64) -> (at: Seq<int>)
    ensures
        at.len() == without_frame(ps, frame).len(),
        forall|i: int|
            0 <= i < at.len() ==> 0 <= #[trigger] at[i] < ps.len() && without_frame(ps, frame)[i] == ps[at[i]] && ps[at[i]].frame != frame,
        forall|i: int, j: int| 0 <= i < j < at.len() ==> #[trigger] at[i] < #[trigger] at[j],
        forall|k: int| 0 <= k < ps.len() && (#[trigger] ps[k]).frame != frame ==> at.contains(k),
    decreases ps.len(),
{
    if ps.len() == 0 {
        Seq::empty()
    } else {
        let rest = ps.drop_last();
        let was = law_without_frame(rest, frame);
        let n = ps.len() - 1;
        let at = if ps.last().frame == frame {
            was
        } else {
            was.push(n)
        };
        assert forall|i: int| 0 <= i < at.len() implies 0 <= #[trigger] at[i] < ps.len() && without_frame(ps, frame)[i] == ps[at[i]] && ps[at[i]].frame
            != frame by {
            if i < was.len() {
                assert(was[i] == at[i]);
                assert(rest[was[i]] == ps[at[i]]);
            }
        }
        assert forall|k: int| 0 <= k < ps.len() && (#[trigger] ps[k]).frame != frame implies at.contains(k) by {
            if k < n {
                assert(rest[k] == ps[k]);
                assert(was.contains(k));
                let i = choose|i: int| 0 <= i < was.len() && was[i] == k;
                assert(at[i] == k);
            } else {
                assert(at[at.len() - 1] == k);
            }
        }
        at
    }
}

/// How far a video has been analysed: one more than the greatest frame with a mask, and nothing if there is none.
pub proof fn law_frames_stored(names: Seq<Seq<char>>, n: nat, i: int)
    requires
        frames_stored(names, n),
        0 <= i < names.len(),
        frame_index_of(names[i]) is Some,
    ensures
        frame_index_of(names[i])->0 < n,
        (forall|j: int| 0 <= j < names.len() && frame_index_of(#[trigger] names[j]) is Some ==> frame_index_of(names[j])->0 <= frame_index_of(
            names[i],
        )->0) ==> n == frame_index_of(names[i])->0 + 1,
{
}

/// A file with anything behind its mask holds no mask.
pub proof fn law_nothing_behind_the_mask(mask: Seq<u8>, area: int, more: Seq<u8>)
    requires
        mask.len() == area,
        forall|i: int| 0 <= i < mask.len() ==> mask[i] <= 1,
        runs_of(mask).len() < 0x1_0000_0000,
        more.len() > 0,
    ensures
        !mask_file_ok(rle_bytes(mask) + more, area),
{
    let none = Seq::<u8>::empty();
    law_rle_round_trip(none, mask, more);
    assert(none + rle_bytes(mask) + more =~= rle_bytes(mask) + more);
}

/// Corrections are made one after the other: without any the mask stays, and a further one is made to what the others left. One of another
/// frame or size changes nothing; a pixel that is added is set, and one that is erased is cleared, whatever it was.
pub proof fn law_corrections(mask: Seq<u8>, ps: Seq<PatchView>, p: PatchView, frame: u64, i: int)
    requires
        0 <= i < mask.len(),
        mask[i] <= 1,
        p.mask.len() == mask.len() ==> p.mask[i] <= 1,
    ensures
        all_corrected(mask, Seq::empty(), frame) == mask,
        all_corrected(mask, ps.push(p), frame) == corrected(all_corrected(mask, ps, frame), p, frame),
        p.frame != frame || p.mask.len() != mask.len() ==> corrected(mask, p, frame) == mask,
        p.frame == frame && p.mask.len() == mask.len() ==> {
            let now = corrected(mask, p, frame);
            &&& now.len() == mask.len()
            &&& p.op == PatchOp::Add ==> (now[i] == 1 <==> mask[i] == 1 || p.mask[i] == 1)
            &&& p.op == PatchOp::Erase ==> (now[i] == 1 <==> mask[i] == 1 && p.mask[i] == 0)
            &&& now[i] <= 1
        },
{
    assert(ps.push(p).drop_last() =~= ps);
    if p.frame == frame && p.mask.len() == mask.len() {
        let a = mask[i];
        let b = p.mask[i];
        assert(a <= 1 && b <= 1 ==> ((a | b) == 1 <==> a == 1 || b == 1) && (a | b) <= 1 && ((a & !b) == 1 <==> a == 1 && b == 0)
            && (a & !b) <= 1) by (bit_vector);
    }
}

} // verus!
