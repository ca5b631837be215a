//! Reading detections out of the numbers that a model returns.
//!
//! Numbers are the bits of single-precision numbers. What is computed from them is left to the caller; here it is
//! decided which of them belong to a detection, and which detections are good enough.
use crate::detect::{DetectError, ModelIo, OutputLayout};
use vstd::prelude::*;

verus! {

/// Rows of an output that lists its candidates column by column: the box, a score for each class, the mask.
pub const ROWS: usize = 116;

/// How many numbers describe a mask.
pub const PROTO_DIM: usize = 32;

/// Rows of the output of a face model: the box, the score, five points with their scores.
pub const FACE_ROWS: usize = 20;

/// The bits of one half.
pub const HALF: u32 = 0x3F00_0000;

/// Whether bits are those of a number, infinite ones among them, and not of what is none.
pub open spec fn is_number(bits: u32) -> bool {
    bits <= 0x7F80_0000 || 0x8000_0000 <= bits <= 0xFF80_0000
}

/// An integer that is ordered as the number with the given bits is among numbers.
pub open spec fn order_key(bits: u32) -> int {
    if bits < 0x8000_0000 {
        bits as int
    } else {
        0x8000_0000 - bits
    }
}

/// An integer that is ordered as the number with the given bits is among numbers.
pub fn key(bits: u32) -> (k: i64)
    ensures
        k == order_key(bits),
{
    if bits < 0x8000_0000 {
        bits as i64
    } else {
        0x8000_0000i64 - bits as i64
    }
}

/// Whether one number is less than another. What is no number is neither less nor greater than anything.
pub open spec fn below(a: u32, b: u32) -> bool {
    is_number(a) && is_number(b) && order_key(a) < order_key(b)
}

/// Whether one number is not less than another. What is no number does not compare.
pub open spec fn reaches(a: u32, b: u32) -> bool {
    is_number(a) && is_number(b) && order_key(a) >= order_key(b)
}

fn tell_number(bits: u32) -> (r: bool)
    ensures
        r == is_number(bits),
{
    bits <= 0x7F80_0000 || (0x8000_0000 <= bits && bits <= 0xFF80_0000)
}

/// Whether one number is less than another, from their bits.
pub fn is_below(a: u32, b: u32) -> (r: bool)
    ensures
        r == below(a, b),
{
    tell_number(a) && tell_number(b) && key(a) < key(b)
}

/// Whether one number is not less than another, from their bits.
pub fn does_reach(a: u32, b: u32) -> (r: bool)
    ensures
        r == reaches(a, b),
{
    tell_number(a) && tell_number(b) && key(a) >= key(b)
}

/// A candidate as the model gives it: the four numbers of its box, its score, and the numbers of its mask.
pub struct Candidate {
    pub geometry: [u32; 4],
    pub score: u32,
    pub coeffs: Vec<u32>,
}

/// What a candidate is.
#[verifier::ext_equal]
pub struct CandidateView {
    pub geometry: [u32; 4],
    pub score: u32,
    pub coeffs: Seq<u32>,
}

impl View for Candidate {
    type V = CandidateView;

    open spec fn view(&self) -> CandidateView {
        CandidateView { geometry: self.geometry, score: self.score, coeffs: self.coeffs@ }
    }
}

/// The candidates of a list.
pub open spec fn candidates(s: Seq<Candidate>) -> Seq<CandidateView> {
    s.map_values(|c: Candidate| c@)
}

/// The candidate in column `c` of an output with `n` columns: its box is in the first four rows, the score of a
/// person in the next, the numbers of the mask in the last.
pub open spec fn column(o: Seq<u32>, n: int, c: int) -> CandidateView {
    CandidateView {
        geometry: [o[c], o[n + c], o[2 * n + c], o[3 * n + c]],
        score: o[4 * n + c],
        coeffs: Seq::new(PROTO_DIM as nat, |k: int| o[(84 + k) * n + c]),
    }
}

/// The candidates among the first `upto` columns whose score is not below `conf`.
pub open spec fn columns(o: Seq<u32>, n: int, conf: u32, upto: int) -> Seq<CandidateView>
    decreases upto,
{
    if upto <= 0 {
        Seq::empty()
    } else if below(o[4 * n + (upto - 1)], conf) {
        columns(o, n, conf, upto - 1)
    } else {
        columns(o, n, conf, upto - 1).push(column(o, n, upto - 1))
    }
}

proof fn lemma_index(n: int, rows: int, r: int, c: int)
    requires
        0 <= c < n,
        0 <= r < rows,
    ensures
        0 <= r * n,
        r * n + c < rows * n,
{
    assert(0 <= r * n && r * n + n <= rows * n) by (nonlinear_arith)
        requires
            0 <= r,
            r + 1 <= rows,
            0 < n,
    ;
}

/// The people among `n` candidates that are listed column by column.
pub fn decode_person_anchor(o: &[u32], n: usize, conf: u32) -> (r: Vec<Candidate>)
    requires
        ROWS * n <= o@.len(),
    ensures
        candidates(r@) == columns(o@, n as int, conf, n as int),
{
    let mut r: Vec<Candidate> = Vec::new();
    assert(o.len() == o@.len());
    assert(candidates(r@) =~= columns(o@, n as int, conf, 0));
    for c in 0..n
        invariant
            ROWS * n <= o@.len() <= usize::MAX,
            candidates(r@) == columns(o@, n as int, conf, c as int),
    {
        proof {
            lemma_index(n as int, ROWS as int, 4, c as int);
            lemma_index(n as int, ROWS as int, 3, c as int);
            lemma_index(n as int, ROWS as int, 2, c as int);
        }
        let score: u32 = o[4 * n + c];
        if !is_below(score, conf) {
            let mut coeffs: Vec<u32> = Vec::new();
            for k in 0..PROTO_DIM
                invariant
                    ROWS * n <= o@.len() <= usize::MAX,
                    c < n,
                    coeffs@.len() == k,
                    forall|j: int| 0 <= j < k ==> coeffs@[j] == #[trigger] column(o@, n as int, c as int).coeffs[j],
            {
                proof {
                    lemma_index(n as int, ROWS as int, 84 + k, c as int);
                }
                coeffs.push(o[(84 + k) * n + c]);
            }
            let geometry: [u32; 4] = [o[c], o[n + c], o[2 * n + c], o[3 * n + c]];
            let d = Candidate { geometry, score, coeffs };
            assert(d@.coeffs =~= column(o@, n as int, c as int).coeffs);
            assert(d@ == column(o@, n as int, c as int));
            let ghost before = candidates(r@);
            r.push(d);
            assert(candidates(r@) =~= before.push(d@));
        }
    }
    r
}

/// Whether a number is zero.
pub open spec fn is_zero(bits: u32) -> bool {
    bits == 0 || bits == 0x8000_0000
}

/// The candidate in a row that begins at `b`: the box, the score, the class, and as many numbers of the mask as the
/// row holds; the others are zero.
pub open spec fn line(o: Seq<u32>, b: int, stride: int) -> CandidateView {
    CandidateView {
        geometry: [o[b], o[b + 1], o[b + 2], o[b + 3]],
        score: o[b + 4],
        coeffs: Seq::new(
            PROTO_DIM as nat,
            |k: int|
                if k < stride - 6 {
                    o[b + 6 + k]
                } else {
                    0
                },
        ),
    }
}

/// The people among the first `upto` rows whose score is not below `conf`.
pub open spec fn lines(o: Seq<u32>, stride: int, conf: u32, upto: int) -> Seq<CandidateView>
    decreases upto,
{
    if upto <= 0 {
        Seq::empty()
    } else {
        let b = (upto - 1) * stride;
        let before = lines(o, stride, conf, upto - 1);
        if is_zero(o[b + 5]) && !below(o[b + 4], conf) {
            before.push(line(o, b, stride))
        } else {
            before
        }
    }
}

/// The people among `rows` candidates that are listed row by row, `stride` numbers each.
pub fn decode_person_e2e(o: &[u32], rows: usize, stride: usize, conf: u32) -> (r: Vec<Candidate>)
    requires
        6 <= stride <= 6 + PROTO_DIM,
        rows * stride <= o@.len(),
    ensures
        candidates(r@) == lines(o@, stride as int, conf, rows as int),
{
    let mut r: Vec<Candidate> = Vec::new();
    assert(o.len() == o@.len());
    assert(candidates(r@) =~= lines(o@, stride as int, conf, 0));
    for i in 0..rows
        invariant
            6 <= stride <= 6 + PROTO_DIM,
            rows * stride <= o@.len() <= usize::MAX,
            candidates(r@) == lines(o@, stride as int, conf, i as int),
    {
        proof {
            lemma_index(stride as int, rows as int, i as int, stride - 1);
        }
        let b: usize = i * stride;
        let class: u32 = o[b + 5];
        let score: u32 = o[b + 4];
        if (class == 0 || class == 0x8000_0000) && !is_below(score, conf) {
            let mut coeffs: Vec<u32> = Vec::new();
            for k in 0..PROTO_DIM
                invariant
                    6 <= stride <= 6 + PROTO_DIM,
                    b + stride <= o@.len() <= usize::MAX,
                    coeffs@.len() == k,
                    forall|j: int| 0 <= j < k ==> coeffs@[j] == #[trigger] line(o@, b as int, stride as int).coeffs[j],
            {
                let v: u32 = if k < stride - 6 { o[b + 6 + k] } else { 0 };
                coeffs.push(v);
            }
            let geometry: [u32; 4] = [o[b], o[b + 1], o[b + 2], o[b + 3]];
            let d = Candidate { geometry, score, coeffs };
            assert(d@.coeffs =~= line(o@, b as int, stride as int).coeffs);
            assert(d@ == line(o@, b as int, stride as int));
            let ghost before = candidates(r@);
            r.push(d);
            assert(candidates(r@) =~= before.push(d@));
        }
    }
    r
}

/// A face as the model gives it: the four numbers of its box, its score, and the eyes, if both were seen well.
#[derive(Debug, Clone, Copy, PartialEq, Eq)]
pub struct FaceCandidate {
    pub geometry: [u32; 4],
    pub score: u32,
    pub eyes: Option<[u32; 4]>,
}

/// The face in column `c` of an output with `n` columns. The points of the eyes come first; each has a score.
pub open spec fn face_column(o: Seq<u32>, n: int, c: int) -> FaceCandidate {
    FaceCandidate {
        geometry: [o[c], o[n + c], o[2 * n + c], o[3 * n + c]],
        score: o[4 * n + c],
        eyes: if reaches(o[7 * n + c], HALF) && reaches(o[10 * n + c], HALF) {
            Some([o[5 * n + c], o[6 * n + c], o[8 * n + c], o[9 * n + c]])
        } else {
            None
        },
    }
}

/// The faces among the first `upto` columns whose score is not below `conf`.
pub open spec fn face_columns(o: Seq<u32>, n: int, conf: u32, upto: int) -> Seq<FaceCandidate>
    decreases upto,
{
    if upto <= 0 {
        Seq::empty()
    } else if below(o[4 * n + (upto - 1)], conf) {
        face_columns(o, n, conf, upto - 1)
    } else {
        face_columns(o, n, conf, upto - 1).push(face_column(o, n, upto - 1))
    }
}

/// The faces among `n` candidates that are listed column by column.
pub fn decode_face(o: &[u32], n: usize, conf: u32) -> (r: Vec<FaceCandidate>)
    requires
        FACE_ROWS * n <= o@.len(),
    ensures
        r@ == face_columns(o@, n as int, conf, n as int),
{
    let mut r: Vec<FaceCandidate> = Vec::new();
    assert(o.len() == o@.len());
    for c in 0..n
        invariant
            FACE_ROWS * n <= o@.len() <= usize::MAX,
            r@ == face_columns(o@, n as int, conf, c as int),
    {
        proof {
            lemma_index(n as int, FACE_ROWS as int, 10, c as int);
        }
        let score: u32 = o[4 * n + c];
        if !is_below(score, conf) {
            let eyes: Option<[u32; 4]> = if does_reach(o[7 * n + c], HALF) && does_reach(o[10 * n + c], HALF) {
                Some([o[5 * n + c], o[6 * n + c], o[8 * n + c], o[9 * n + c]])
            } else {
                None
            };
            r.push(FaceCandidate { geometry: [o[c], o[n + c], o[2 * n + c], o[3 * n + c]], score, eyes });
        }
    }
    r
}

/// How an output is laid out: how many numbers a candidate has, and how many candidates there are.
pub open spec fn person_layout(io: ModelIo, batch: int, shape: Seq<i64>) -> Option<(usize, usize)> {
    if shape.len() != 3 || shape[0] != batch {
        None
    } else {
        match io.layout {
            OutputLayout::Anchor => if shape[1] != ROWS {
                None
            } else {
                Some((ROWS, shape[2] as usize))
            },
            OutputLayout::E2E => if shape[2] < 6 || shape[2] > 6 + PROTO_DIM {
                None
            } else {
                Some((shape[2] as usize, shape[1] as usize))
            },
        }
    }
}

fn copy_shape(shape: &[i64]) -> (v: Vec<i64>)
    ensures
        v@ == shape@,
{
    vstd::slice::slice_to_vec(shape)
}

/// How the output of a person model for a batch of frames is laid out.
pub fn person_output(io: ModelIo, batch: usize, shape: &[i64]) -> (r: Result<(usize, usize), DetectError>)
    requires
        batch <= i64::MAX,
        forall|i: int| 0 <= i < shape@.len() ==> 0 <= #[trigger] shape@[i],
    ensures
        match person_layout(io, batch as int, shape@) {
            Some(p) => r == Ok::<(usize, usize), DetectError>(p),
            None => r is Err && r->Err_0 is BadOutput && r->Err_0->actual@ == shape@,
        },
        io.layout is Anchor ==> (r is Ok <==> shape@.len() == 3 && shape@[0] == batch && shape@[1] == 116),
        io.layout is Anchor && r is Ok ==> r->Ok_0.0 == 116 && r->Ok_0.1 == shape@[2] as usize,
        io.layout is E2E ==> (r is Ok <==> shape@.len() == 3 && shape@[0] == batch && 6 <= shape@[2] <= 38),
        io.layout is E2E && r is Ok ==> r->Ok_0.0 == shape@[2] && r->Ok_0.1 == shape@[1] as usize,
{
    if shape.len() != 3 || shape[0] != batch as i64 {
        return Err(DetectError::BadOutput { actual: copy_shape(shape) });
    }
    match io.layout {
        OutputLayout::Anchor => {
            if shape[1] != ROWS as i64 {
                return Err(DetectError::BadOutput { actual: copy_shape(shape) });
            }
            Ok((ROWS, shape[2] as usize))
        },
        OutputLayout::E2E => {
            if shape[2] < 6 || shape[2] > 6 + PROTO_DIM as i64 {
                return Err(DetectError::BadOutput { actual: copy_shape(shape) });
            }
            Ok((shape[2] as usize, shape[1] as usize))
        },
    }
}

/// Checks that the output of masks for a batch of frames has the shape that was found when the model was loaded.
pub fn proto_output(proto_size: usize, batch: usize, shape: &[i64]) -> (r: Result<(), DetectError>)
    requires
        batch <= i64::MAX,
        proto_size <= i64::MAX,
    ensures
        r is Ok <==> shape@.len() == 4 && shape@[0] == batch && shape@[1] == 32 && shape@[2] == proto_size,
        r is Err ==> r->Err_0 is BadOutput && r->Err_0->actual@ == shape@,
{
    if shape.len() != 4 || shape[0] != batch as i64 || shape[1] != PROTO_DIM as i64 || shape[2] != proto_size as i64 {
        return Err(DetectError::BadOutput { actual: copy_shape(shape) });
    }
    Ok(())
}

/// How many faces the output of a face model for a batch of frames lists.
pub fn face_output(batch: usize, shape: &[i64]) -> (r: Result<usize, DetectError>)
    requires
        batch <= i64::MAX,
        forall|i: int| 0 <= i < shape@.len() ==> 0 <= #[trigger] shape@[i],
    ensures
        r is Ok <==> shape@.len() == 3 && shape@[0] == batch && shape@[1] == 20,
        r is Ok ==> r->Ok_0 == shape@[2] as usize,
        r is Err ==> r->Err_0 is BadOutput && r->Err_0->actual@ == shape@,
{
    if shape.len() != 3 || shape[0] != batch as i64 || shape[1] != FACE_ROWS as i64 {
        return Err(DetectError::BadOutput { actual: copy_shape(shape) });
    }
    Ok(shape[2] as usize)
}

/// Whether an output of a grid model has `n` cells with `each` numbers.
pub fn grid_output_ok(shape: &[i64], n: usize, each: usize) -> (ok: bool)
    requires
        n <= i64::MAX,
        each <= i64::MAX,
    ensures
        ok == (shape@ == seq![1i64, n as i64, each as i64]),
{
    let ok: bool = shape.len() == 3 && shape[0] == 1 && shape[1] == n as i64 && shape[2] == each as i64;
    proof {
        if ok {
            assert(shape@ =~= seq![1i64, n as i64, each as i64]);
        } else if shape@ == seq![1i64, n as i64, each as i64] {
            assert(shape@.len() == 3 && shape@[0] == 1 && shape@[1] == n && shape@[2] == each);
        }
    }
    ok
}

/// The row and the column of a cell of a square grid with `cols` columns.
pub fn grid_cell(i: usize, cols: usize) -> (r: (usize, usize))
    requires
        0 < cols,
    ensures
        r.0 * cols + r.1 == i,
        r.1 < cols,
{
    let r: (usize, usize) = (i / cols, i % cols);
    assert(r.0 * cols + r.1 == i) by (nonlinear_arith)
        requires
            r.0 == i / cols,
            r.1 == i % cols,
            0 < cols,
    ;
    r
}

/// How numbers are ordered by their bits: those without a sign as the bits are, those with a sign the other way round and before
/// all others, and the two zeros are equal. What is no number does not compare.
pub proof fn law_numbers_in_order(a: u32, b: u32)
    ensures
        a <= 0x7F80_0000 && b <= 0x7F80_0000 ==> (below(a, b) <==> a < b) && (reaches(a, b) <==> a >= b),
        0x8000_0000 <= a <= 0xFF80_0000 && 0x8000_0000 <= b <= 0xFF80_0000 ==> (below(a, b) <==> a > b) && (reaches(a, b) <==> a <= b),
        0x8000_0000 < a <= 0xFF80_0000 && b <= 0x7F80_0000 ==> below(a, b) && !reaches(a, b) && !below(b, a) && reaches(b, a),
        a == 0x8000_0000 && b == 0 ==> !below(a, b) && !below(b, a) && reaches(a, b) && reaches(b, a),
        a == 0x8000_0000 && 0 < b <= 0x7F80_0000 ==> below(a, b) && !below(b, a) && !reaches(a, b) && reaches(b, a),
        0x7F80_0000 < a < 0x8000_0000 || a > 0xFF80_0000 ==> !below(a, b) && !below(b, a) && !reaches(a, b) && !reaches(b, a),
{
}

/// The people in an output that is listed column by column are, in their order, those of the columns whose score is not below
/// `conf`: the box is in the first four rows, the score in the fifth, the numbers of the mask from row 84 on. `cols` are the columns.
pub proof fn law_columns(o: Seq<u32>, n: int, conf: u32, upto: int) -> (cols: Seq<int>)
    requires
        0 <= upto,
    ensures
        cols.len() == columns(o, n, conf, upto).len(),
        forall|i: int| 0 <= i < cols.len() ==> 0 <= #[trigger] cols[i] < upto && !below(o[4 * n + cols[i]], conf),
        forall|i: int, j: int| 0 <= i < j < cols.len() ==> #[trigger] cols[i] < #[trigger] cols[j],
        forall|c: int| 0 <= c < upto && !below(#[trigger] o[4 * n + c], conf) ==> cols.contains(c),
        forall|i: int|
            0 <= i < cols.len() ==> {
                let d = #[trigger] columns(o, n, conf, upto)[i];
                &&& d.geometry[0] == o[cols[i]]
                &&& d.geometry[1] == o[n + cols[i]]
                &&& d.geometry[2] == o[2 * n + cols[i]]
                &&& d.geometry[3] == o[3 * n + cols[i]]
                &&& d.score == o[4 * n + cols[i]]
                &&& d.coeffs.len() == 32
                &&& forall|k: int| 0 <= k < 32 ==> #[trigger] d.coeffs[k] == o[(84 + k) * n + cols[i]]
            },
    decreases upto,
{
    if upto <= 0 {
        Seq::empty()
    } else {
        let was = law_columns(o, n, conf, upto - 1);
        let c = upto - 1;
        let before = columns(o, n, conf, c);
        let cols = if below(o[4 * n + c], conf) {
            was
        } else {
            was.push(c)
        };
        let now = columns(o, n, conf, upto);
        assert forall|i: int| 0 <= i < cols.len() implies {
            let d = #[trigger] now[i];
            &&& d.geometry[0] == o[cols[i]]
            &&& d.geometry[1] == o[n + cols[i]]
            &&& d.geometry[2] == o[2 * n + cols[i]]
            &&& d.geometry[3] == o[3 * n + cols[i]]
            &&& d.score == o[4 * n + cols[i]]
            &&& d.coeffs.len() == 32
            &&& forall|k: int| 0 <= k < 32 ==> #[trigger] d.coeffs[k] == o[(84 + k) * n + cols[i]]
        } by {
            if i < was.len() {
                assert(now[i] == before[i]);
            } else {
                assert(now[i] == column(o, n, c));
            }
        }
        assert forall|b: int| 0 <= b < upto && !below(#[trigger] o[4 * n + b], conf) implies cols.contains(b) by {
            if b < c {
                assert(was.contains(b));
                let i = choose|i: int| 0 <= i < was.len() && was[i] == b;
                assert(cols[i] == b);
            } else {
                assert(cols[cols.len() - 1] == b);
            }
        }
        cols
    }
}

/// The people in an output that is listed row by row are, in their order, those of the rows whose class is zero and whose score is
/// not below `conf`: a row holds the box, the score, the class, and the numbers of the mask, as many as there is room for; the others
/// are zero. `rows` are the rows.
pub proof fn law_lines(o: Seq<u32>, stride: int, conf: u32, upto: int) -> (rows: Seq<int>)
    requires
        0 <= upto,
    ensures
        rows.len() == lines(o, stride, conf, upto).len(),
        forall|i: int|
            0 <= i < rows.len() ==> {
                &&& 0 <= #[trigger] rows[i] < upto
                &&& !below(o[rows[i] * stride + 4], conf)
                &&& o[rows[i] * stride + 5] == 0 || o[rows[i] * stride + 5] == 0x8000_0000
            },
        forall|i: int, j: int| 0 <= i < j < rows.len() ==> #[trigger] rows[i] < #[trigger] rows[j],
        forall|r: int|
            0 <= r < upto && !below(#[trigger] o[r * stride + 4], conf) && (o[r * stride + 5] == 0 || o[r * stride + 5] == 0x8000_0000)
                ==> rows.contains(r),
        forall|i: int|
            0 <= i < rows.len() ==> {
                let d = #[trigger] lines(o, stride, conf, upto)[i];
                let b = rows[i] * stride;
                &&& d.geometry[0] == o[b]
                &&& d.geometry[1] == o[b + 1]
                &&& d.geometry[2] == o[b + 2]
                &&& d.geometry[3] == o[b + 3]
                &&& d.score == o[b + 4]
                &&& d.coeffs.len() == 32
                &&& forall|k: int| 0 <= k < 32 && k < stride - 6 ==> #[trigger] d.coeffs[k] == o[b + 6 + k]
                &&& forall|k: int| 0 <= k < 32 && k >= stride - 6 ==> #[trigger] d.coeffs[k] == 0
            },
    decreases upto,
{
    if upto <= 0 {
        Seq::empty()
    } else {
        let was = law_lines(o, stride, conf, upto - 1);
        let c = upto - 1;
        let before = lines(o, stride, conf, c);
        let rows = if is_zero(o[c * stride + 5]) && !below(o[c * stride + 4], conf) {
            was.push(c)
        } else {
            was
        };
        let now = lines(o, stride, conf, upto);
        assert forall|i: int| 0 <= i < rows.len() implies {
            let d = #[trigger] now[i];
            let b = rows[i] * stride;
            &&& d.geometry[0] == o[b]
            &&& d.geometry[1] == o[b + 1]
            &&& d.geometry[2] == o[b + 2]
            &&& d.geometry[3] == o[b + 3]
            &&& d.score == o[b + 4]
            &&& d.coeffs.len() == 32
            &&& forall|k: int| 0 <= k < 32 && k < stride - 6 ==> #[trigger] d.coeffs[k] == o[b + 6 + k]
            &&& forall|k: int| 0 <= k < 32 && k >= stride - 6 ==> #[trigger] d.coeffs[k] == 0
        } by {
            if i < was.len() {
                assert(now[i] == before[i]);
            } else {
                assert(now[i] == line(o, c * stride, stride));
            }
        }
        assert forall|r: int|
            0 <= r < upto && !below(#[trigger] o[r * stride + 4], conf) && (o[r * stride + 5] == 0 || o[r * stride + 5] == 0x8000_0000) implies rows.contains(
            r,
        ) by {
            if r < c {
                assert(was.contains(r));
                let i = choose|i: int| 0 <= i < was.len() && was[i] == r;
                assert(rows[i] == r);
            } else {
                assert(rows[rows.len() - 1] == r);
            }
        }
        rows
    }
}

/// The faces in an output are, in their order, those of the columns whose score is not below `conf`: the box is in the first four
/// rows, the score in the fifth; then come the points, each with a score. The first two are the eyes, and they are taken if both
/// scores reach one half. `cols` are the columns.
pub proof fn law_face_columns(o: Seq<u32>, n: int, conf: u32, upto: int) -> (cols: Seq<int>)
    requires
        0 <= upto,
    ensures
        cols.len() == face_columns(o, n, conf, upto).len(),
        forall|i: int| 0 <= i < cols.len() ==> 0 <= #[trigger] cols[i] < upto && !below(o[4 * n + cols[i]], conf),
        forall|i: int, j: int| 0 <= i < j < cols.len() ==> #[trigger] cols[i] < #[trigger] cols[j],
        forall|c: int| 0 <= c < upto && !below(#[trigger] o[4 * n + c], conf) ==> cols.contains(c),
        forall|i: int|
            0 <= i < cols.len() ==> {
                let d = #[trigger] face_columns(o, n, conf, upto)[i];
                let c = cols[i];
                &&& d.geometry[0] == o[c]
                &&& d.geometry[1] == o[n + c]
                &&& d.geometry[2] == o[2 * n + c]
                &&& d.geometry[3] == o[3 * n + c]
                &&& d.score == o[4 * n + c]
                &&& d.eyes is Some <==> 0x3F00_0000 <= o[7 * n + c] <= 0x7F80_0000 && 0x3F00_0000 <= o[10 * n + c] <= 0x7F80_0000
                &&& d.eyes is Some ==> d.eyes->0[0] == o[5 * n + c] && d.eyes->0[1] == o[6 * n + c] && d.eyes->0[2] == o[8 * n + c]
                    && d.eyes->0[3] == o[9 * n + c]
            },
    decreases upto,
{
    if upto <= 0 {
        Seq::empty()
    } else {
        let was = law_face_columns(o, n, conf, upto - 1);
        let c = upto - 1;
        let before = face_columns(o, n, conf, c);
        let cols = if below(o[4 * n + c], conf) {
            was
        } else {
            was.push(c)
        };
        let now = face_columns(o, n, conf, upto);
        assert forall|i: int| 0 <= i < cols.len() implies {
            let d = #[trigger] now[i];
            let c = cols[i];
            &&& d.geometry[0] == o[c]
            &&& d.geometry[1] == o[n + c]
            &&& d.geometry[2] == o[2 * n + c]
            &&& d.geometry[3] == o[3 * n + c]
            &&& d.score == o[4 * n + c]
            &&& d.eyes is Some <==> 0x3F00_0000 <= o[7 * n + c] <= 0x7F80_0000 && 0x3F00_0000 <= o[10 * n + c] <= 0x7F80_0000
            &&& d.eyes is Some ==> d.eyes->0[0] == o[5 * n + c] && d.eyes->0[1] == o[6 * n + c] && d.eyes->0[2] == o[8 * n + c]
                && d.eyes->0[3] == o[9 * n + c]
        } by {
            if i < was.len() {
                assert(now[i] == before[i]);
            } else {
                assert(now[i] == face_column(o, n, c));
            }
        }
        assert forall|b: int| 0 <= b < upto && !below(#[trigger] o[4 * n + b], conf) implies cols.contains(b) by {
            if b < c {
                assert(was.contains(b));
                let i = choose|i: int| 0 <= i < was.len() && was[i] == b;
                assert(cols[i] == b);
            } else {
                assert(cols[cols.len() - 1] == b);
            }
        }
        cols
    }
}

} // verus!
