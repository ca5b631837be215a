//! Trying again: when a decoder, an encoder or the graphics card fails, the next choice is tried.
use crate::pipe::PipelineError;
use vstd::prelude::*;

verus! {

/// How a run ended, as far as it matters for what is tried next.
#[derive(Debug, Clone, Copy, PartialEq, Eq, Structural)]
pub enum RunEnd {
    Finished,
    Cancelled,
    EncoderFailed,
    /// The decoder failed after so many frames.
    DecoderFailed { frames: u64 },
    /// Changing frames failed after so many frames.
    TransformFailed { frames: u64 },
    /// Anything else.
    Failed,
}

/// How a run that failed ended.
pub open spec fn end_for(e: PipelineError) -> RunEnd {
    match e {
        PipelineError::Cancelled { .. } => RunEnd::Cancelled,
        PipelineError::EncoderFailed { .. } => RunEnd::EncoderFailed,
        PipelineError::DecoderFailed { frames, .. } => RunEnd::DecoderFailed { frames },
        PipelineError::TransformFailed { frames, .. } => RunEnd::TransformFailed { frames },
        _ => RunEnd::Failed,
    }
}

/// How a run that failed ended.
pub fn end_of(e: &PipelineError) -> (r: RunEnd)
    ensures
        r == end_for(*e),
{
    match e {
        PipelineError::Cancelled { .. } => RunEnd::Cancelled,
        PipelineError::EncoderFailed { .. } => RunEnd::EncoderFailed,
        PipelineError::DecoderFailed { frames, .. } => RunEnd::DecoderFailed { frames: *frames },
        PipelineError::TransformFailed { frames, .. } => RunEnd::TransformFailed { frames: *frames },
        _ => RunEnd::Failed,
    }
}

/// What is tried: with or without the graphics card, the way of decoding, and the encoder.
#[derive(Debug, Clone, Copy, PartialEq, Eq, Structural)]
pub struct Attempt {
    /// Whether the models run without the graphics card.
    pub on_cpu: bool,
    pub decoder: usize,
    pub encoder: usize,
}

/// What comes after a run.
#[derive(Debug, Clone, Copy, PartialEq, Eq, Structural)]
pub enum Then {
    /// It is done.
    Done,
    /// It was cancelled.
    Stopped,
    /// This is tried.
    Again(Attempt),
    /// Nothing is left to try; the last attempt's trouble is reported.
    GiveUp,
    /// It failed in a way that trying again does not mend; its error is reported.
    Fail,
}

/// What comes after a run, where there are so many ways of decoding and encoders:
/// an encoder that fails is followed by the next one;
/// a decoder that fails before the first frame is followed by the next one, with the first encoder again;
/// if changing frames fails before the first frame, everything is tried again without the graphics card.
pub open spec fn followed_by(a: Attempt, end: RunEnd, decoders: int, encoders: int) -> Then {
    match end {
        RunEnd::Finished => Then::Done,
        RunEnd::Cancelled => Then::Stopped,
        RunEnd::EncoderFailed => if a.encoder + 1 < encoders {
            Then::Again(Attempt { encoder: (a.encoder + 1) as usize, ..a })
        } else {
            Then::Fail
        },
        RunEnd::DecoderFailed { frames } => if frames != 0 {
            Then::Fail
        } else if a.decoder + 1 < decoders {
            Then::Again(Attempt { decoder: (a.decoder + 1) as usize, encoder: 0, ..a })
        } else {
            Then::GiveUp
        },
        RunEnd::TransformFailed { frames } => if frames == 0 && !a.on_cpu {
            Then::Again(Attempt { on_cpu: true, decoder: 0, encoder: 0 })
        } else {
            Then::Fail
        },
        RunEnd::Failed => Then::Fail,
    }
}

/// What comes after a run.
pub fn next_attempt(a: Attempt, end: RunEnd, decoders: usize, encoders: usize) -> (t: Then)
    requires
        a.decoder < decoders,
        a.encoder < encoders,
    ensures
        t == followed_by(a, end, decoders as int, encoders as int),
{
    match end {
        RunEnd::Finished => Then::Done,
        RunEnd::Cancelled => Then::Stopped,
        RunEnd::EncoderFailed => if a.encoder + 1 < encoders {
            Then::Again(Attempt { on_cpu: a.on_cpu, decoder: a.decoder, encoder: a.encoder + 1 })
        } else {
            Then::Fail
        },
        RunEnd::DecoderFailed { frames } => if frames != 0 {
            Then::Fail
        } else if a.decoder + 1 < decoders {
            Then::Again(Attempt { on_cpu: a.on_cpu, decoder: a.decoder + 1, encoder: 0 })
        } else {
            Then::GiveUp
        },
        RunEnd::TransformFailed { frames } => if frames == 0 && !a.on_cpu {
            Then::Again(Attempt { on_cpu: true, decoder: 0, encoder: 0 })
        } else {
            Then::Fail
        },
        RunEnd::Failed => Then::Fail,
    }
}

/// How many attempts there are up to and with this one, if none is left out.
pub open spec fn turn(a: Attempt, decoders: int, encoders: int) -> int {
    (if a.on_cpu {
        decoders * encoders
    } else {
        0
    }) + a.decoder * encoders + a.encoder
}

/// Trying again comes to an end: each attempt has a later turn than the one before, and there are no more turns than twice
/// the number of decoders times the number of encoders.
pub proof fn law_attempts_end(a: Attempt, end: RunEnd, decoders: int, encoders: int)
    requires
        a.decoder < decoders <= usize::MAX,
        a.encoder < encoders <= usize::MAX,
    ensures
        0 <= turn(a, decoders, encoders) < 2 * (decoders * encoders),
        followed_by(a, end, decoders, encoders) is Again ==> ({
            let b = followed_by(a, end, decoders, encoders)->0;
            b.decoder < decoders && b.encoder < encoders && turn(a, decoders, encoders) < turn(b, decoders, encoders)
        }),
{
    assert(0 <= a.decoder * encoders && a.decoder * encoders + encoders <= decoders * encoders) by (nonlinear_arith)
        requires
            0 <= a.decoder,
            a.decoder + 1 <= decoders,
            0 < encoders,
    ;
    assert((a.decoder + 1) * encoders == a.decoder * encoders + encoders) by (nonlinear_arith);
    assert(0 * encoders == 0);
}

/// A run that has put out frames is not tried again for the sake of its decoder or of the graphics card.
pub proof fn law_no_second_try_after_frames(a: Attempt, end: RunEnd, decoders: int, encoders: int)
    requires
        match end {
            RunEnd::DecoderFailed { frames } => frames > 0,
            RunEnd::TransformFailed { frames } => frames > 0,
            _ => false,
        },
    ensures
        followed_by(a, end, decoders, encoders) == Then::Fail,
{
}

/// The encoder that is tried after a run with the `i`-th of `n` encoders, if only another encoder may help.
pub fn next_encoder(i: usize, n: usize, end: RunEnd) -> (r: Option<usize>)
    requires
        i < n,
    ensures
        r == (if end == RunEnd::EncoderFailed && i + 1 < n {
            Some((i + 1) as usize)
        } else {
            None
        }),
{
    if end == RunEnd::EncoderFailed && i + 1 < n {
        Some(i + 1)
    } else {
        None
    }
}

/// What is tried next. After an encoder that failed: the same with the next encoder, or nothing if it was the last. After a decoder that
/// failed before any frame: the same with the next decoder and the first encoder, or nothing if it was the last. After frames could not
/// be changed from the first one on: everything from the beginning without the graphics card, unless it is not used already. After all
/// else: nothing.
pub proof fn law_what_is_tried_next(a: Attempt, frames: u64, decoders: int, encoders: int)
    requires
        a.decoder < decoders <= usize::MAX,
        a.encoder < encoders <= usize::MAX,
    ensures
        followed_by(a, RunEnd::Finished, decoders, encoders) is Done,
        followed_by(a, RunEnd::Cancelled, decoders, encoders) is Stopped,
        followed_by(a, RunEnd::Failed, decoders, encoders) is Fail,
        a.encoder + 1 == encoders ==> followed_by(a, RunEnd::EncoderFailed, decoders, encoders) is Fail,
        a.encoder + 1 < encoders ==> ({
            let t = followed_by(a, RunEnd::EncoderFailed, decoders, encoders);
            t is Again && t->Again_0.encoder == a.encoder + 1 && t->Again_0.decoder == a.decoder && t->Again_0.on_cpu == a.on_cpu
        }),
        a.decoder + 1 == decoders ==> followed_by(a, RunEnd::DecoderFailed { frames: 0 }, decoders, encoders) is GiveUp,
        a.decoder + 1 < decoders ==> ({
            let t = followed_by(a, RunEnd::DecoderFailed { frames: 0 }, decoders, encoders);
            t is Again && t->Again_0.encoder == 0 && t->Again_0.decoder == a.decoder + 1 && t->Again_0.on_cpu == a.on_cpu
        }),
        a.on_cpu ==> followed_by(a, RunEnd::TransformFailed { frames: 0 }, decoders, encoders) is Fail,
        !a.on_cpu ==> ({
            let t = followed_by(a, RunEnd::TransformFailed { frames: 0 }, decoders, encoders);
            t is Again && t->Again_0.encoder == 0 && t->Again_0.decoder == 0 && t->Again_0.on_cpu
        }),
        frames > 0 ==> followed_by(a, RunEnd::DecoderFailed { frames }, decoders, encoders) is Fail,
        frames > 0 ==> followed_by(a, RunEnd::TransformFailed { frames }, decoders, encoders) is Fail,
{
}

/// How a run ended, by its error: that it was cancelled, or which part failed and after how many frames.
pub proof fn law_end_for(e: PipelineError)
    ensures
        end_for(e) is Cancelled <==> e is Cancelled,
        end_for(e) is EncoderFailed <==> e is EncoderFailed,
        end_for(e) is DecoderFailed <==> e is DecoderFailed,
        e is DecoderFailed ==> end_for(e)->DecoderFailed_frames == e->DecoderFailed_frames,
        end_for(e) is TransformFailed <==> e is TransformFailed,
        e is TransformFailed ==> end_for(e)->TransformFailed_frames == e->TransformFailed_frames,
        !(end_for(e) is Finished),
{
}

} // verus!
