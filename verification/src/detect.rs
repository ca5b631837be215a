//! Detected people and faces, and what is decided about them.
use crate::compose::Region;
use crate::text::{append, dec, decimal, same};
use vstd::prelude::*;

verus! {

/// One person or face that was found in a frame.
///
/// The score and the corners of the box are the bits of single-precision numbers. A score is not negative, so
/// its bits are also its key (see [`crate::rank`]).
#[derive(Debug, Clone)]
pub struct PersonInstance {
    pub score: u32,
    pub xyxy: [u32; 4],
    /// One byte per pixel of the frame; nonzero where the instance is.
    pub mask: Vec<u8>,
}

/// The edge of the square that face models and the smaller person models take in.
pub const INPUT_SIZE: usize = 640;

/// How a model lists its candidates.
#[derive(Debug, Clone, Copy, PartialEq, Eq, Structural)]
pub enum OutputLayout {
    /// Column by column, with a score for each class; one thing may be listed more than once.
    Anchor,
    /// Row by row, with the class; each thing is listed once.
    E2E,
}

/// What a model takes in and gives out.
#[derive(Debug, Clone, Copy, PartialEq, Eq, Structural)]
pub struct ModelIo {
    pub layout: OutputLayout,
    /// The edge of the square that it takes in.
    pub input_size: usize,
    /// The edge of its masks, if it gives masks.
    pub proto_size: Option<usize>,
}

/// Why nothing could be detected.
#[derive(Debug)]
pub enum DetectError {
    /// There is no model at this path.
    ModelNotFound(String),
    /// The runtime says so.
    Ort(String),
    /// The model takes in or gives out something else than expected.
    BadModel,
    /// The output has this shape, which is not the one expected.
    BadOutput { actual: Vec<i64> },
}

/// A number in decimal, with a sign if it is negative.
pub open spec fn signed_dec(v: i64) -> Seq<char> {
    if v < 0 {
        "-"@ + dec((-(v as int)) as nat)
    } else {
        dec(v as nat)
    }
}

/// The first `n` numbers of a list, separated by commas.
pub open spec fn listed(s: Seq<i64>, n: int) -> Seq<char>
    decreases n,
{
    if n <= 0 {
        Seq::empty()
    } else if n == 1 {
        signed_dec(s[0])
    } else {
        listed(s, n - 1) + ", "@ + signed_dec(s[n - 1])
    }
}

/// What an error says.
pub open spec fn error_text(e: DetectError) -> Seq<char> {
    match e {
        DetectError::ModelNotFound(p) => "模型文件不存在: "@ + p@ + "（可用 scripts/export_models.sh 生成）"@,
        DetectError::Ort(m) => "ort 错误: "@ + m@,
        DetectError::BadModel => "模型输入/输出形状无法识别（期望 images [N,3,S,S] + output0/output1）"@,
        DetectError::BadOutput { actual } => "模型输出形状异常：output0 期望 [1,116,N]，实际 ["@ + listed(
            actual@,
            actual@.len() as int,
        ) + "]"@,
    }
}

fn append_signed(s: &mut String, v: i64)
    ensures
        final(s)@ == old(s)@ + signed_dec(v),
{
    let ghost start = s@;
    if v < 0 {
        append(s, "-");
        let n: u64 = if v == i64::MIN { 0x8000_0000_0000_0000u64 } else { (-v) as u64 };
        append(s, decimal(n).as_str());
        assert(s@ =~= start + signed_dec(v));
    } else {
        append(s, decimal(v as u64).as_str());
    }
}

impl DetectError {
    /// What the error says.
    pub fn message(&self) -> (s: String)
        ensures
            s@ == error_text(*self),
    {
        let mut s = String::new();
        match self {
            DetectError::ModelNotFound(p) => {
                append(&mut s, "模型文件不存在: ");
                append(&mut s, p.as_str());
                append(&mut s, "（可用 scripts/export_models.sh 生成）");
            },
            DetectError::Ort(m) => {
                append(&mut s, "ort 错误: ");
                append(&mut s, m.as_str());
            },
            DetectError::BadModel => {
                append(&mut s, "模型输入/输出形状无法识别（期望 images [N,3,S,S] + output0/output1）");
            },
            DetectError::BadOutput { actual } => {
                append(&mut s, "模型输出形状异常：output0 期望 [1,116,N]，实际 [");
                let ghost head = s@;
                assert(s@ =~= head + listed(actual@, 0));
                for i in 0..actual.len()
                    invariant
                        s@ == head + listed(actual@, i as int),
                {
                    if i > 0 {
                        append(&mut s, ", ");
                    }
                    append_signed(&mut s, actual[i]);
                    assert(s@ =~= head + listed(actual@, i + 1));
                }
                append(&mut s, "]");
            },
        }
        assert(s@ =~= error_text(*self));
        s
    }
}

/// Whether the shape of an input is that of a picture with three planes, square and not empty.
pub open spec fn input_ok(d: Option<Seq<i64>>) -> bool {
    d is Some && d->0.len() == 4 && d->0[1] == 3 && d->0[2] > 0 && d->0[2] == d->0[3]
}

/// Whether the shape of an output is that of a list of candidates.
pub open spec fn output_ok(d: Option<Seq<i64>>) -> bool {
    d is Some && d->0.len() == 3 && d->0[1] > 0 && d->0[2] > 0
}

/// The edge of the masks, if an output of this shape holds masks.
pub open spec fn mask_edge(d: Option<Seq<i64>>) -> Option<usize> {
    if d is Some && d->0.len() == 4 && d->0[1] == 32 && d->0[2] == d->0[3] && d->0[2] > 0 {
        Some(d->0[2] as usize)
    } else {
        None
    }
}

/// The shape of an input or output.
pub open spec fn shape_of(d: Option<Vec<i64>>) -> Option<Seq<i64>> {
    match d {
        Some(v) => Some(v@),
        None => None,
    }
}

/// Finds out what a model takes in and gives out, from the shapes of its first input and of the outputs `output0` and
/// `output1`.
pub fn probe_io(input: &Option<Vec<i64>>, out0: &Option<Vec<i64>>, out1: &Option<Vec<i64>>) -> (r: Result<
    ModelIo,
    DetectError,
>)
    ensures
        r is Ok <==> input_ok(shape_of(*input)) && output_ok(shape_of(*out0)),
        r is Err ==> r->Err_0 is BadModel,
        r is Ok ==> r->Ok_0 == (ModelIo {
            layout: if shape_of(*out0)->0[1] > shape_of(*out0)->0[2] {
                OutputLayout::E2E
            } else {
                OutputLayout::Anchor
            },
            input_size: shape_of(*input)->0[2] as usize,
            proto_size: mask_edge(shape_of(*out1)),
        }),
{
    let input_size: usize = match input {
        None => {
            return Err(DetectError::BadModel);
        },
        Some(d) => {
            if d.len() != 4 || d[1] != 3 || d[2] <= 0 || d[2] != d[3] {
                return Err(DetectError::BadModel);
            }
            d[2] as usize
        },
    };
    let layout = match out0 {
        None => {
            return Err(DetectError::BadModel);
        },
        Some(d) => {
            if d.len() != 3 || d[1] <= 0 || d[2] <= 0 {
                return Err(DetectError::BadModel);
            }
            if d[1] > d[2] {
                OutputLayout::E2E
            } else {
                OutputLayout::Anchor
            }
        },
    };
    let proto_size: Option<usize> = match out1 {
        None => None,
        Some(d) => {
            if d.len() == 4 && d[1] == 32 && d[2] == d[3] && d[2] > 0 {
                Some(d[2] as usize)
            } else {
                None
            }
        },
    };
    Ok(ModelIo { layout, input_size, proto_size })
}

/// The edge of the square that a face model takes in, from the shape of its input: 640, if the shape does not say.
pub fn face_input_size(input: &Option<Vec<i64>>) -> (n: usize)
    ensures
        n == ({
            let d = shape_of(*input);
            if d is Some && d->0.len() == 4 && d->0[2] > 0 && d->0[2] == d->0[3] {
                d->0[2] as usize
            } else {
                INPUT_SIZE
            }
        }),
{
    match input {
        Some(d) => {
            if d.len() == 4 && d[2] > 0 && d[2] == d[3] {
                return d[2] as usize;
            }
        },
        None => {},
    }
    INPUT_SIZE
}

/// How a face model gives out its faces.
#[derive(Debug, Clone, Copy, PartialEq, Eq, Structural)]
pub enum FaceLayout {
    /// Column by column.
    YoloAnchor,
    /// Cell by cell, on three grids.
    YuNet,
}

/// Whether the first `n` names hold `cls_8`.
pub open spec fn names_grid(names: Seq<String>) -> bool {
    exists|i: int| 0 <= i < names.len() && (#[trigger] names[i])@ == "cls_8"@
}

/// How a face model with outputs of these names gives out its faces.
pub fn face_layout(names: &Vec<String>) -> (l: FaceLayout)
    ensures
        l == (if names_grid(names@) {
            FaceLayout::YuNet
        } else {
            FaceLayout::YoloAnchor
        }),
{
    for i in 0..names.len()
        invariant
            forall|j: int| 0 <= j < i ==> (#[trigger] names@[j])@ != "cls_8"@,
    {
        if same(names[i].as_str(), "cls_8") {
            return FaceLayout::YuNet;
        }
    }
    FaceLayout::YoloAnchor
}

/// The part of a `w` by `h` frame that a box takes up, at least one pixel wide and one pixel high.
pub open spec fn measured(xyxy: [usize; 4], w: int, h: int) -> Region {
    Region {
        x1: xyxy[0],
        y1: xyxy[1],
        x2: (if xyxy[2] > w {
            if w < xyxy[0] + 1 {
                xyxy[0] + 1
            } else {
                w
            }
        } else if xyxy[2] < xyxy[0] + 1 {
            xyxy[0] + 1
        } else {
            xyxy[2] as int
        }) as usize,
        y2: (if xyxy[3] > h {
            if h < xyxy[1] + 1 {
                xyxy[1] + 1
            } else {
                h
            }
        } else if xyxy[3] < xyxy[1] + 1 {
            xyxy[1] + 1
        } else {
            xyxy[3] as int
        }) as usize,
    }
}

/// The part of a frame that a box takes up.
pub fn rect_of(xyxy: [usize; 4], w: usize, h: usize) -> (g: Region)
    requires
        xyxy[0] < usize::MAX,
        xyxy[1] < usize::MAX,
    ensures
        g == measured(xyxy, w as int, h as int),
        g.x1 < g.x2,
        g.y1 < g.y2,
{
    let x2: usize = if xyxy[2] > w { w } else { xyxy[2] };
    let y2: usize = if xyxy[3] > h { h } else { xyxy[3] };
    Region {
        x1: xyxy[0],
        y1: xyxy[1],
        x2: if x2 < xyxy[0] + 1 { xyxy[0] + 1 } else { x2 },
        y2: if y2 < xyxy[1] + 1 { xyxy[1] + 1 } else { y2 },
    }
}

/// Whether cell `k` of a buffer with rows of `w` cells lies in the part `x1..x2` of one of the rows `y1..y2`.
pub open spec fn in_rows(g: Region, w: int, k: int) -> bool {
    exists|y: int| g.y1 <= y < g.y2 && #[trigger] (y * w) + g.x1 <= k < y * w + g.x2
}

/// A mask of `n` pixels, in rows of `w`, that is set in `g` and clear elsewhere.
pub open spec fn row_block(g: Region, w: int, n: int) -> Seq<u8> {
    Seq::new(
        n as nat,
        |k: int|
            if in_rows(g, w, k) {
                1u8
            } else {
                0u8
            },
    )
}

/// Whether the part of a `w` by `h` frame that a box takes up lies inside it.
pub open spec fn row_block_fits(xyxy: [usize; 4], w: int, h: int) -> bool {
    let g = measured(xyxy, w, h);
    &&& xyxy[0] < usize::MAX
    &&& xyxy[1] < usize::MAX
    &&& w * h <= usize::MAX
    &&& (g.y2 - 1) * w + g.x2 <= w * h
}

/// A mask that is set in a box and clear elsewhere. The first two corners of the box are rounded down, the others up.
pub fn rect_mask(xyxy: [usize; 4], w: usize, h: usize) -> (m: Vec<u8>)
    requires
        row_block_fits(xyxy, w as int, h as int),
    ensures
        m@ == row_block(measured(xyxy, w as int, h as int), w as int, w * h),
{
    let g = rect_of(xyxy, w, h);
    let mut m: Vec<u8> = vec![0u8; w * h];
    let ghost n = w * h;
    assert(m@ =~= row_block(Region { y2: g.y1, ..g }, w as int, n));
    for y in g.y1..g.y2
        invariant
            n == w * h,
            n <= usize::MAX,
            g.y1 < g.y2,
            g.x1 < g.x2,
            (g.y2 - 1) * w + g.x2 <= n,
            m@ == row_block(Region { y2: y, ..g }, w as int, n),
    {
        let ghost done = Region { y2: y, ..g };
        let ghost next = Region { y2: (y + 1) as usize, ..g };
        proof {
            assert(0 <= y * w <= (g.y2 - 1) * w) by (nonlinear_arith)
                requires
                    0 <= y <= g.y2 - 1,
                    0 <= w,
            ;
        }
        let at: usize = y * w;
        for x in g.x1..g.x2
            invariant
                n <= usize::MAX,
                at == y * w,
                at + g.x2 <= n,
                m@.len() == n,
                forall|k: int|
                    0 <= k < n ==> #[trigger] m@[k] == (if in_rows(done, w as int, k) || (at + g.x1 <= k < at + x) {
                        1u8
                    } else {
                        0u8
                    }),
        {
            m.set(at + x, 1);
        }
        assert forall|k: int| 0 <= k < n implies #[trigger] m@[k] == row_block(next, w as int, n)[k] by {
            if in_rows(done, w as int, k) {
                let r = choose|r: int| done.y1 <= r < done.y2 && #[trigger] (r * w) + done.x1 <= k < r * w + done.x2;
                assert(next.y1 <= r < next.y2 && (r * w) + next.x1 <= k < r * w + next.x2);
            }
            if at + g.x1 <= k < at + g.x2 {
                assert(next.y1 <= y < next.y2 && (y * w) + next.x1 <= k < y * w + next.x2);
            }
            if in_rows(next, w as int, k) {
                let r = choose|r: int| next.y1 <= r < next.y2 && #[trigger] (r * w) + next.x1 <= k < r * w + next.x2;
                if r < y {
                    assert(done.y1 <= r < done.y2 && (r * w) + done.x1 <= k < r * w + done.x2);
                }
            }
        }
        assert(m@ =~= row_block(next, w as int, n));
    }
    m
}

// Which faces to believe.
/// The first `n` faces that are kept: a face with a score of at least `thr`, or one whose middle lies in (or just beside)
/// a person.
pub open spec fn gated_upto(scores: Seq<u32>, hosted: Seq<bool>, thr: u32, n: int) -> Seq<usize>
    decreases n,
{
    if n <= 0 {
        Seq::empty()
    } else if scores[n - 1] >= thr || hosted[n - 1] {
        gated_upto(scores, hosted, thr, n - 1).push((n - 1) as usize)
    } else {
        gated_upto(scores, hosted, thr, n - 1)
    }
}

/// Which faces are kept, from the keys of their scores and whether each lies in a person.
pub fn gate_faces(scores: &[u32], hosted: &[bool], thr: u32) -> (kept: Vec<usize>)
    requires
        scores@.len() == hosted@.len(),
    ensures
        kept@ == gated_upto(scores@, hosted@, thr, scores@.len() as int),
{
    let mut kept: Vec<usize> = Vec::new();
    for i in 0..scores.len()
        invariant
            scores@.len() == hosted@.len(),
            kept@ == gated_upto(scores@, hosted@, thr, i as int),
    {
        if scores[i] >= thr || hosted[i] {
            kept.push(i);
        }
    }
    kept
}

/// The least ratio of the width and the height of a face: the bits of 0.5.
pub const FACE_RATIO_MIN: u32 = 0x3F00_0000;

/// The greatest ratio of the width and the height of a face: the bits of 1.8.
pub const FACE_RATIO_MAX: u32 = 0x3FE6_6666;

/// The greatest part of a person's height that a face takes up: the bits of 0.5.
pub const FACE_SHARE_MAX: u32 = 0x3F00_0000;

/// The shape of a face: whether it has a width and a height at all, the key of their ratio, in which people its middle
/// lies, and the key of the part of each person's height that it takes up (none, if the person has no height).
pub struct FaceShape {
    pub solid: bool,
    pub ratio: u32,
    pub inside: Vec<bool>,
    pub shares: Vec<Option<u32>>,
}

/// Whether a face takes up too much of the first person from the `from`-th on in whom its middle lies.
pub open spec fn too_large(inside: Seq<bool>, shares: Seq<Option<u32>>, from: int) -> bool
    decreases inside.len() - from,
{
    if from >= inside.len() {
        false
    } else if inside[from] {
        shares[from] is Some && shares[from]->0 > FACE_SHARE_MAX
    } else {
        too_large(inside, shares, from + 1)
    }
}

/// Whether a face may be one, by its shape.
pub open spec fn plausible(f: FaceShape) -> bool {
    f.solid && FACE_RATIO_MIN <= f.ratio <= FACE_RATIO_MAX && !too_large(f.inside@, f.shares@, 0)
}

/// The first `n` faces that may be some.
pub open spec fn plausible_upto(f: Seq<FaceShape>, n: int) -> Seq<usize>
    decreases n,
{
    if n <= 0 {
        Seq::empty()
    } else if plausible(f[n - 1]) {
        plausible_upto(f, n - 1).push((n - 1) as usize)
    } else {
        plausible_upto(f, n - 1)
    }
}

fn is_too_large(f: &FaceShape) -> (r: bool)
    requires
        f.inside@.len() == f.shares@.len(),
    ensures
        r == too_large(f.inside@, f.shares@, 0),
{
    for i in 0..f.inside.len()
        invariant
            f.inside@.len() == f.shares@.len(),
            too_large(f.inside@, f.shares@, 0) == too_large(f.inside@, f.shares@, i as int),
    {
        if f.inside[i] {
            return match f.shares[i] {
                Some(s) => s > FACE_SHARE_MAX,
                None => false,
            };
        }
    }
    false
}

/// Which faces may be some, by their shapes.
pub fn filter_implausible_faces(f: &Vec<FaceShape>) -> (kept: Vec<usize>)
    requires
        forall|i: int| 0 <= i < f@.len() ==> (#[trigger] f@[i]).inside@.len() == f@[i].shares@.len(),
    ensures
        kept@ == plausible_upto(f@, f@.len() as int),
{
    let mut kept: Vec<usize> = Vec::new();
    for i in 0..f.len()
        invariant
            forall|i: int| 0 <= i < f@.len() ==> (#[trigger] f@[i]).inside@.len() == f@[i].shares@.len(),
            kept@ == plausible_upto(f@, i as int),
    {
        assert(f@[i as int].inside@.len() == f@[i as int].shares@.len());
        if f[i].solid && FACE_RATIO_MIN <= f[i].ratio && f[i].ratio <= FACE_RATIO_MAX && !is_too_large(&f[i]) {
            kept.push(i);
        }
    }
    kept
}

proof fn lemma_too_large(inside: Seq<bool>, shares: Seq<Option<u32>>, from: int)
    requires
        0 <= from <= inside.len(),
    ensures
        forall|i: int|
            from <= i < inside.len() && #[trigger] inside[i] && (forall|j: int| from <= j < i ==> !inside[j]) ==> too_large(
                inside,
                shares,
                from,
            ) == (shares[i] is Some && shares[i]->0 > FACE_SHARE_MAX),
        (forall|i: int| from <= i < inside.len() ==> !inside[i]) ==> !too_large(inside, shares, from),
    decreases inside.len() - from,
{
    if from < inside.len() && !inside[from] {
        lemma_too_large(inside, shares, from + 1);
    }
}

/// Which faces are kept by their shapes: in their order, exactly those that are solid, whose width is at least half of the height and
/// at most 1.8 of it, and that take up no more than half of the height of the first person in whom their middle lies, wherever in the
/// list that person stands. A face in no person, or in one without a height, is not too large.
pub proof fn law_plausible_faces(f: Seq<FaceShape>, n: int)
    requires
        0 <= n <= f.len() <= usize::MAX,
    ensures
        ({
            let kept = plausible_upto(f, n);
            &&& forall|a: int, b: int| 0 <= a < b < kept.len() ==> #[trigger] kept[a] < #[trigger] kept[b]
            &&& forall|a: int| 0 <= a < kept.len() ==> #[trigger] kept[a] < n
            &&& forall|k: int|
                0 <= k < n && !((#[trigger] f[k]).solid && 0x3F00_0000 <= f[k].ratio <= 0x3FE6_6666) ==> !kept.contains(k as usize)
            &&& forall|k: int, i: int|
                0 <= k < n && 0 <= i < (#[trigger] f[k]).inside@.len() && #[trigger] f[k].inside@[i] && (forall|j: int|
                    0 <= j < i ==> !f[k].inside@[j]) && f[k].shares@[i] is Some && f[k].shares@[i]->0 > 0x3F00_0000 ==> !kept.contains(
                    k as usize,
                )
            &&& forall|k: int, i: int|
                0 <= k < n && (#[trigger] f[k]).solid && 0x3F00_0000 <= f[k].ratio <= 0x3FE6_6666 && 0 <= i < f[k].inside@.len()
                    && #[trigger] f[k].inside@[i] && (forall|j: int| 0 <= j < i ==> !f[k].inside@[j]) && (f[k].shares@[i] is None
                    || f[k].shares@[i]->0 <= 0x3F00_0000) ==> kept.contains(k as usize)
            &&& forall|k: int|
                0 <= k < n && (#[trigger] f[k]).solid && 0x3F00_0000 <= f[k].ratio <= 0x3FE6_6666 && (forall|j: int|
                    0 <= j < f[k].inside@.len() ==> !f[k].inside@[j]) ==> kept.contains(k as usize)
        }),
    decreases n,
{
    lemma_plausible(f, n);
    let kept = plausible_upto(f, n);
    assert forall|k: int| 0 <= k < n implies kept.contains(k as usize) == plausible(#[trigger] f[k]) by {}
    assert forall|k: int, i: int|
        0 <= k < n && 0 <= i < (#[trigger] f[k]).inside@.len() && #[trigger] f[k].inside@[i] && (forall|j: int|
            0 <= j < i ==> !f[k].inside@[j]) implies too_large(f[k].inside@, f[k].shares@, 0) == (f[k].shares@[i] is Some && f[k].shares@[i]->0
        > 0x3F00_0000) by {
        lemma_too_large(f[k].inside@, f[k].shares@, 0);
    }
    assert forall|k: int| 0 <= k < n && (forall|j: int| 0 <= j < (#[trigger] f[k]).inside@.len() ==> !f[k].inside@[j]) implies !too_large(
        f[k].inside@,
        f[k].shares@,
        0,
    ) by {
        lemma_too_large(f[k].inside@, f[k].shares@, 0);
    }
}

proof fn lemma_plausible(f: Seq<FaceShape>, n: int)
    requires
        0 <= n <= f.len() <= usize::MAX,
    ensures
        ({
            let kept = plausible_upto(f, n);
            &&& forall|a: int, b: int| 0 <= a < b < kept.len() ==> #[trigger] kept[a] < #[trigger] kept[b]
            &&& forall|a: int| 0 <= a < kept.len() ==> #[trigger] kept[a] < n
            &&& forall|k: int| 0 <= k < n ==> kept.contains(k as usize) == plausible(#[trigger] f[k])
        }),
    decreases n,
{
    if n > 0 {
        lemma_plausible(f, n - 1);
        let was = plausible_upto(f, n - 1);
        let kept = plausible_upto(f, n);
        assert forall|k: int| 0 <= k < n implies kept.contains(k as usize) == plausible(#[trigger] f[k]) by {
            if was.contains(k as usize) {
                let i = choose|i: int| 0 <= i < was.len() && was[i] == k as usize;
                assert(kept[i] == k as usize);
            }
            if kept.contains(k as usize) {
                let i = choose|i: int| 0 <= i < kept.len() && kept[i] == k as usize;
                if i < was.len() {
                    assert(was[i] == k as usize);
                }
            }
            if k == n - 1 && plausible(f[k]) {
                assert(kept[kept.len() - 1] == k as usize);
            }
        }
    }
}

/// Which faces are kept: in their order, exactly those that have a score of at least `thr` or lie in a person.
pub proof fn law_gated_faces(scores: Seq<u32>, hosted: Seq<bool>, thr: u32, n: int)
    requires
        0 <= n <= usize::MAX,
    ensures
        ({
            let kept = gated_upto(scores, hosted, thr, n);
            &&& forall|a: int, b: int| 0 <= a < b < kept.len() ==> #[trigger] kept[a] < #[trigger] kept[b]
            &&& forall|a: int| 0 <= a < kept.len() ==> #[trigger] kept[a] < n
            &&& forall|k: int| 0 <= k < n ==> kept.contains(k as usize) == (#[trigger] scores[k] >= thr || hosted[k])
        }),
    decreases n,
{
    if n > 0 {
        law_gated_faces(scores, hosted, thr, n - 1);
        let was = gated_upto(scores, hosted, thr, n - 1);
        let kept = gated_upto(scores, hosted, thr, n);
        assert forall|k: int| 0 <= k < n implies kept.contains(k as usize) == (#[trigger] scores[k] >= thr || hosted[k]) by {
            if was.contains(k as usize) {
                let i = choose|i: int| 0 <= i < was.len() && was[i] == k as usize;
                assert(kept[i] == k as usize);
            }
            if kept.contains(k as usize) {
                let i = choose|i: int| 0 <= i < kept.len() && kept[i] == k as usize;
                if i < was.len() {
                    assert(was[i] == k as usize);
                }
            }
            if k == n - 1 && (scores[k] >= thr || hosted[k]) {
                assert(kept[kept.len() - 1] == k as usize);
            }
        }
    }
}

/// The part of a frame that a box takes up begins where the box does and ends where the box or the frame does, whichever comes first,
/// but is at least one pixel wide and one pixel high.
pub proof fn law_measured(xyxy: [usize; 4], w: int, h: int, x: int, y: int)
    requires
        0 <= w <= usize::MAX,
        0 <= h <= usize::MAX,
        xyxy[0] < usize::MAX,
        xyxy[1] < usize::MAX,
    ensures
        measured(xyxy, w, h).has(x, y) <==> {
            &&& xyxy[0] <= x
            &&& xyxy[1] <= y
            &&& (x < xyxy[2] && x < w) || x == xyxy[0]
            &&& (y < xyxy[3] && y < h) || y == xyxy[1]
        },
{
}

/// The mask of a box is set exactly in the box.
pub proof fn law_rect_mask(xyxy: [usize; 4], w: int, h: int, x: int, y: int)
    requires
        0 <= x < w <= usize::MAX,
        0 <= y < h <= usize::MAX,
        xyxy[0] < w,
        xyxy[1] < h,
        xyxy[0] < xyxy[2],
        xyxy[1] < xyxy[3],
    ensures
        row_block(measured(xyxy, w, h), w, w * h).len() == w * h,
        row_block(measured(xyxy, w, h), w, w * h)[y * w + x] == (if xyxy[0] <= x < xyxy[2] && xyxy[1] <= y < xyxy[3] {
            1u8
        } else {
            0u8
        }),
{
    crate::grid::lemma_cell(w, h, x, y);
    let g = measured(xyxy, w, h);
    let k = y * w + x;
    if g.has(x, y) {
        assert(g.y1 <= y < g.y2 && (y * w) + g.x1 <= k < y * w + g.x2);
    }
    if in_rows(g, w, k) {
        let r = choose|r: int| g.y1 <= r < g.y2 && #[trigger] (r * w) + g.x1 <= k < r * w + g.x2;
        assert(r == y) by (nonlinear_arith)
            requires
                r * w <= y * w + x,
                y * w + x < r * w + w,
                0 <= x < w,
        ;
    }
}

/// A face model gives out its faces by grids if any of its outputs, the first among them, is called `cls_8`, and by anchors if none is.
pub proof fn law_face_layout(names: Seq<String>, i: int)
    requires
        0 <= i < names.len(),
    ensures
        names[i]@ == seq!['c', 'l', 's', '_', '8'] ==> names_grid(names),
        (forall|j: int| 0 <= j < names.len() ==> (#[trigger] names[j])@ != seq!['c', 'l', 's', '_', '8']) ==> !names_grid(names),
{
    reveal_strlit("cls_8");
    assert("cls_8"@ =~= seq!['c', 'l', 's', '_', '8']);
}

/// How numbers are listed: one after the other, with a comma and a space between two and nothing before the first.
pub proof fn law_listed(s: Seq<i64>, n: int)
    requires
        0 < n < s.len(),
    ensures
        listed(s, 0).len() == 0,
        listed(s, 1) == signed_dec(s[0]),
        listed(s, n + 1) == listed(s, n) + seq![',', ' '] + signed_dec(s[n]),
{
    reveal_strlit(", ");
    assert(", "@ =~= seq![',', ' ']);
}

/// An output holds masks if it has four dimensions, with 32 channels and a square of some size, whose edge is that of the masks.
pub proof fn law_mask_edge(a: i64, c: i64, h: i64, w: i64, other: Seq<i64>)
    ensures
        c == 32 && h == w && h > 0 ==> mask_edge(Some(seq![a, c, h, w])) == Some(h as usize),
        c != 32 || h != w || h <= 0 ==> mask_edge(Some(seq![a, c, h, w])) is None,
        other.len() != 4 ==> mask_edge(Some(other)) is None,
        mask_edge(None) is None,
{
    let d = seq![a, c, h, w];
    assert(d.len() == 4 && d[1] == c && d[2] == h && d[3] == w);
}

} // verus!
