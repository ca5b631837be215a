//! Looking for what a text describes: what is handed to the model beside the picture.
use vstd::prelude::*;

verus! {

/// The edge of the square that the model takes in.
pub const GD_SIZE: usize = 800;

/// How many tokens the text has, with those that fill it up.
pub const TEXT_LEN: usize = 16;

/// The tokens of the text `person.`, between the marks for its beginning and end.
pub const TEXT_IDS: [i64; 16] = [101, 2711, 1012, 102, 0, 0, 0, 0, 0, 0, 0, 0, 0, 0, 0, 0];

/// How many tokens the text has, without those that fill it up.
pub const TEXT_VALID: usize = 4;

/// Which tokens count.
pub fn attention_mask() -> (m: Vec<i64>)
    ensures
        m@ == Seq::new(
            16,
            |i: int|
                if i < 4 {
                    1i64
                } else {
                    0i64
                },
        ),
{
    let mut m: Vec<i64> = Vec::new();
    for i in 0..TEXT_LEN
        invariant
            m@.len() == i,
            forall|j: int|
                0 <= j < i ==> m@[j] == (if j < 4 {
                    1i64
                } else {
                    0i64
                }),
    {
        m.push(if i < TEXT_VALID { 1 } else { 0 });
    }
    assert(m@ =~= Seq::new(
        16,
        |i: int|
            if i < 4 {
                1i64
            } else {
                0i64
            },
    ));
    m
}

/// Which pixels of the square show the frame, which takes up `vw` by `vh` of them.
pub fn pixel_mask(vw: usize, vh: usize) -> (m: Vec<i64>)
    requires
        vw <= 800,
        vh <= 800,
    ensures
        m@ == Seq::new(
            800 * 800,
            |k: int|
                if k % 800 < vw && k / 800 < vh {
                    1i64
                } else {
                    0i64
                },
        ),
{
    let mut m: Vec<i64> = Vec::new();
    for k in 0..GD_SIZE * GD_SIZE
        invariant
            m@.len() == k,
            forall|j: int|
                0 <= j < k ==> m@[j] == (if j % 800 < vw && j / 800 < vh {
                    1i64
                } else {
                    0i64
                }),
    {
        m.push(if k % GD_SIZE < vw && k / GD_SIZE < vh { 1 } else { 0 });
    }
    assert(m@ =~= Seq::new(
        800 * 800,
        |k: int|
            if k % 800 < vw && k / 800 < vh {
                1i64
            } else {
                0i64
            },
    ));
    m
}

/// Whether the outputs of the model are scores and boxes.
pub fn outputs_ok(scores: &[i64], boxes: &[i64]) -> (ok: bool)
    ensures
        ok == (scores@.len() == 3 && boxes@.len() == 3 && boxes@[2] == 4),
{
    scores.len() == 3 && boxes.len() == 3 && boxes[2] == 4
}

} // verus!
