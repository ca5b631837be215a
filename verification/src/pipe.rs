//! From one video to another: a decoder hands out frames, they are changed in batches, an encoder takes them in.
//!
//! What is decided about such a run is here: how the two tools are called, how frames are put together in batches, when
//! the run is over, and what is said of it in the end.
use crate::job::JobCancel;
use crate::media::{
    auto_bitrate, decode_cmd, decode_cmd_mjpeg, decode_head, drain_null_cmd, encode_cmd, encode_words, frames_in,
    is_mp4, is_mp4_file, maybe, rate_for, EncodeOptions, FrameFormat, Platform,
};
use crate::probe::{error_text as probe_text, maybe_text, signed, tail, tail_of, ProbeError};
use crate::text::{append, chars_of, dec, decimal, lowered, same, same_ignoring_case, texts};
use vstd::prelude::*;

verus! {

/// A flag that stops a run.
pub type CancelFlag = JobCancel;

/// How a video is to be processed.
pub struct PipelineOptions {
    /// The way of decoding; none is without help of the graphics card.
    pub hwaccel: Option<String>,
    pub encoder: String,
    /// The bit rate, or `auto`.
    pub bitrate: String,
    /// How many frames are changed at a time; the last batch may be smaller.
    pub batch_size: usize,
    /// Stops the run.
    pub cancel: Option<CancelFlag>,
    pub frame_format: FrameFormat,
}

/// How a run fails.
#[derive(Debug)]
pub enum PipelineError {
    Probe(ProbeError),
    SpawnDecoder(String),
    SpawnEncoder(String),
    DecoderFailed { frames: u64, stderr: String },
    EncoderFailed { frames: u64, stderr: String },
    TransformFailed { frames: u64, reason: String },
    Cancelled { frames: u64 },
    FrameCountMismatch { decoded: u64, encoded: u64 },
}

/// What an error says.
pub open spec fn error_text(e: PipelineError) -> Seq<char> {
    match e {
        PipelineError::Probe(p) => "探测失败: "@ + probe_text(p),
        PipelineError::SpawnDecoder(m) => "解码 ffmpeg 启动失败: "@ + m@,
        PipelineError::SpawnEncoder(m) => "编码 ffmpeg 启动失败: "@ + m@,
        PipelineError::DecoderFailed { frames, stderr } => "解码中断（已读 "@ + dec(frames as nat) + " 帧）: "@ + stderr@,
        PipelineError::EncoderFailed { frames, stderr } => "编码中断（已写 "@ + dec(frames as nat) + " 帧）: "@ + stderr@,
        PipelineError::TransformFailed { frames, reason } => "处理失败（帧 "@ + dec(frames as nat) + "）: "@ + reason@,
        PipelineError::Cancelled { frames } => "已取消（完成 "@ + dec(frames as nat) + " 帧）"@,
        PipelineError::FrameCountMismatch { decoded, encoded } => "帧数不一致：解码 "@ + dec(decoded as nat)
            + " 帧，编码 "@ + dec(encoded as nat) + " 帧"@,
    }
}

fn framed(s: &mut String, head: &str, n: u64, middle: &str, rest: &str)
    ensures
        final(s)@ == old(s)@ + head@ + dec(n as nat) + middle@ + rest@,
{
    append(s, head);
    append(s, decimal(n).as_str());
    append(s, middle);
    append(s, rest);
}

impl PipelineError {
    /// What the error says.
    pub fn message(&self) -> (s: String)
        ensures
            s@ == error_text(*self),
    {
        let mut s = String::new();
        match self {
            PipelineError::Probe(p) => {
                append(&mut s, "探测失败: ");
                append(&mut s, p.message().as_str());
            },
            PipelineError::SpawnDecoder(m) => {
                append(&mut s, "解码 ffmpeg 启动失败: ");
                append(&mut s, m.as_str());
            },
            PipelineError::SpawnEncoder(m) => {
                append(&mut s, "编码 ffmpeg 启动失败: ");
                append(&mut s, m.as_str());
            },
            PipelineError::DecoderFailed { frames, stderr } => {
                framed(&mut s, "解码中断（已读 ", *frames, " 帧）: ", stderr.as_str());
            },
            PipelineError::EncoderFailed { frames, stderr } => {
                framed(&mut s, "编码中断（已写 ", *frames, " 帧）: ", stderr.as_str());
            },
            PipelineError::TransformFailed { frames, reason } => {
                framed(&mut s, "处理失败（帧 ", *frames, "）: ", reason.as_str());
            },
            PipelineError::Cancelled { frames } => {
                framed(&mut s, "已取消（完成 ", *frames, " 帧）", "");
                proof {
                    reveal_strlit("");
                }
            },
            PipelineError::FrameCountMismatch { decoded, encoded } => {
                framed(&mut s, "帧数不一致：解码 ", *decoded, " 帧，编码 ", decimal(*encoded).as_str());
                append(&mut s, " 帧");
            },
        }
        assert(s@ =~= error_text(*self));
        s
    }
}

/// What is known of the video that comes in. The frames per second are in decimal.
#[derive(Debug, Clone)]
pub struct Source {
    pub width: u32,
    pub height: u32,
    pub fps: String,
    pub has_audio: bool,
    pub audio_codecs: Vec<String>,
}

/// Whether the family of MP4 cannot hold sound that is encoded like this.
pub open spec fn unfit_sound(codec: Seq<char>) -> bool {
    let c = lowered(codec);
    c == lowered("truehd"@) || c == lowered("mlp"@) || c == lowered("dts"@)
}

/// Whether the sound has to be encoded anew: the new file is of the family of MP4, which cannot hold one of the streams.
pub open spec fn sound_anew(platform: Platform, output: Seq<char>, codecs: Seq<Seq<char>>) -> bool {
    is_mp4(platform, output) && exists|i: int| 0 <= i < codecs.len() && unfit_sound(#[trigger] codecs[i])
}

fn is_unfit_sound(codec: &str) -> (r: bool)
    ensures
        r == unfit_sound(codec@),
{
    let c = chars_of(codec);
    same_ignoring_case(&c, &chars_of("truehd")) || same_ignoring_case(&c, &chars_of("mlp")) || same_ignoring_case(
        &c,
        &chars_of("dts"),
    )
}

/// Whether the sound has to be encoded anew.
pub fn needs_sound_anew(platform: Platform, output: &str, codecs: &Vec<String>) -> (r: bool)
    ensures
        r == sound_anew(platform, output@, texts(codecs@)),
{
    if !is_mp4_file(platform, output) {
        return false;
    }
    let ghost all = texts(codecs@);
    for i in 0..codecs.len()
        invariant
            all == texts(codecs@),
            is_mp4(platform, output@),
            forall|j: int| 0 <= j < i ==> !unfit_sound(#[trigger] all[j]),
    {
        assert(all[i as int] == codecs@[i as int]@);
        if is_unfit_sound(codecs[i].as_str()) {
            assert(unfit_sound(all[i as int]));
            return true;
        }
    }
    false
}

/// Whether `e` is what the encoder is to do for a source, a new file and options.
pub open spec fn encoding_for(platform: Platform, e: EncodeOptions, input: Seq<char>, output: Seq<char>, o: PipelineOptions, m: Source) -> bool {
    &&& e.width == m.width
    &&& e.height == m.height
    &&& e.fps@ == m.fps@
    &&& e.encoder@ == o.encoder@
    &&& maybe_text(e.audio_from) == (if m.has_audio {
        Some(input)
    } else {
        None
    })
    &&& e.bitrate@ == (if lowered(o.bitrate@) == lowered("auto"@) {
        rate_for(
            if m.width > m.height {
                m.width as int
            } else {
                m.height as int
            },
        )
    } else {
        o.bitrate@
    })
    &&& e.audio_transcode == sound_anew(platform, output, texts(m.audio_codecs@))
}

/// The commands of the two tools, and how many bytes a frame has.
pub struct Plan {
    pub decode: Vec<String>,
    pub encode: Vec<String>,
    pub frame_bytes: usize,
}

/// Plans a run: how the decoder and the encoder are called. The encoder `null` drops the frames. `device` is the graphics
/// device, for an encoder that needs one.
pub fn plan(platform: Platform, input: &str, output: &str, o: &PipelineOptions, m: &Source, device: &str) -> (p: Plan)
    requires
        m.width * m.height * 3 <= usize::MAX,
    ensures
        p.frame_bytes == m.width * m.height * 3 / 2,
        texts(p.decode@) == decode_head(input@, maybe_text(o.hwaccel)) + (match o.frame_format {
            FrameFormat::Nv12 => seq!["-f"@, "rawvideo"@, "-pix_fmt"@, "nv12"@, "-"@],
            FrameFormat::Mjpeg => seq!["-f"@, "mjpeg"@, "-q:v"@, "2"@, "-"@],
        }),
        exists|e: EncodeOptions| encoding_for(platform, e, input@, output@, *o, *m) && texts(p.encode@) == (if o.encoder@ == "null"@ {
            frames_in(e) + seq!["-f"@, "null"@, "-"@]
        } else {
            encode_words(platform, output@, e, device@)
        }),
{
    let bitrate: String = if same_ignoring_case(&chars_of(o.bitrate.as_str()), &chars_of("auto")) {
        auto_bitrate(m.width, m.height)
    } else {
        o.bitrate.clone()
    };
    let e = EncodeOptions {
        width: m.width,
        height: m.height,
        fps: m.fps.clone(),
        encoder: o.encoder.clone(),
        audio_from: if m.has_audio {
            Some(input.to_owned())
        } else {
            None
        },
        bitrate,
        audio_transcode: needs_sound_anew(platform, output, &m.audio_codecs),
    };
    let hw: Option<&str> = match &o.hwaccel {
        Some(s) => Some(s.as_str()),
        None => None,
    };
    assert(maybe(hw) == maybe_text(o.hwaccel));
    let decode = match o.frame_format {
        FrameFormat::Nv12 => decode_cmd(input, hw),
        FrameFormat::Mjpeg => decode_cmd_mjpeg(input, hw),
    };
    let encode = if same(o.encoder.as_str(), "null") {
        drain_null_cmd(&e)
    } else {
        encode_cmd(platform, output, &e, device)
    };
    assert(encoding_for(platform, e, input@, output@, *o, *m));
    assert(0 <= m.width * m.height * 3 && 0 <= m.width * m.height) by (nonlinear_arith)
        requires
            0 <= m.width,
            0 <= m.height,
    ;
    let frame_bytes: usize = m.width as usize * m.height as usize * 3 / 2;
    Plan { decode, encode, frame_bytes }
}

// Batches.
/// Frames as sequences of bytes.
pub open spec fn frames(s: Seq<Vec<u8>>) -> Seq<Seq<u8>> {
    s.map_values(|f: Vec<u8>| f@)
}

/// Puts frames together in batches.
pub struct Batcher {
    size: usize,
    held: Vec<Vec<u8>>,
}

/// What a batcher holds: how many frames make a batch, and those that wait.
#[verifier::ext_equal]
pub struct BatcherView {
    pub size: int,
    pub held: Seq<Seq<u8>>,
}

impl View for Batcher {
    type V = BatcherView;

    closed spec fn view(&self) -> BatcherView {
        BatcherView { size: self.size as int, held: frames(self.held@) }
    }
}

impl Batcher {
    /// A batch is never empty, and fewer frames than make a batch wait.
    pub open spec fn wf(&self) -> bool {
        0 < self@.size && self@.held.len() < self@.size
    }

    /// A batcher that holds nothing; a batch has at least one frame.
    pub fn new(size: usize) -> (b: Batcher)
        ensures
            b.wf(),
            b@ == (BatcherView {
                size: if size == 0 {
                    1
                } else {
                    size as int
                },
                held: Seq::empty(),
            }),
    {
        let b = Batcher { size: if size == 0 { 1 } else { size }, held: Vec::new() };
        assert(b@.held =~= Seq::<Seq<u8>>::empty());
        b
    }

    /// Takes in a frame, and hands out a batch if there are enough.
    pub fn push(&mut self, frame: Vec<u8>) -> (r: Option<Vec<Vec<u8>>>)
        requires
            old(self).wf(),
        ensures
            final(self).wf(),
            final(self)@.size == old(self)@.size,
            r is Some <==> old(self)@.held.len() + 1 == old(self)@.size,
            match r {
                Some(b) => frames(b@) == old(self)@.held.push(frame@) && final(self)@.held == Seq::<Seq<u8>>::empty(),
                None => final(self)@.held == old(self)@.held.push(frame@),
            },
    {
        let ghost before = self@.held;
        self.held.push(frame);
        assert(frames(self.held@) =~= before.push(frame@));
        if self.held.len() >= self.size {
            let mut b: Vec<Vec<u8>> = Vec::new();
            b.append(&mut self.held);
            assert(frames(b@) =~= before.push(frame@));
            assert(frames(self.held@) =~= Seq::<Seq<u8>>::empty());
            Some(b)
        } else {
            None
        }
    }

    /// Hands out what is left when no more frames come.
    pub fn finish(&mut self) -> (b: Vec<Vec<u8>>)
        requires
            old(self).wf(),
        ensures
            final(self).wf(),
            final(self)@.size == old(self)@.size,
            frames(b@) == old(self)@.held,
            final(self)@.held == Seq::<Seq<u8>>::empty(),
    {
        let ghost before = self@.held;
        let mut b: Vec<Vec<u8>> = Vec::new();
        b.append(&mut self.held);
        assert(frames(b@) =~= before);
        assert(frames(self.held@) =~= Seq::<Seq<u8>>::empty());
        b
    }
}

/// Batches put one behind the other.
pub open spec fn flat(b: Seq<Seq<Seq<u8>>>) -> Seq<Seq<u8>>
    decreases b.len(),
{
    if b.len() == 0 {
        Seq::empty()
    } else {
        b[0] + flat(b.skip(1))
    }
}

/// Whole batches that have come out, and what is held, after the frames of a list have been taken in.
pub open spec fn taken_in(f: Seq<Seq<u8>>, size: int) -> (Seq<Seq<Seq<u8>>>, Seq<Seq<u8>>)
    decreases f.len(),
{
    if f.len() == 0 {
        (Seq::empty(), Seq::empty())
    } else {
        let (out, held) = taken_in(f.drop_last(), size);
        let more = held.push(f.last());
        if more.len() >= size {
            (out.push(more), Seq::empty())
        } else {
            (out, more)
        }
    }
}

proof fn lemma_flat_push(b: Seq<Seq<Seq<u8>>>, x: Seq<Seq<u8>>)
    ensures
        flat(b.push(x)) == flat(b) + x,
    decreases b.len(),
{
    if b.len() == 0 {
        assert(b.push(x).skip(1) =~= Seq::<Seq<Seq<u8>>>::empty());
        assert(flat(b.push(x).skip(1)) =~= Seq::<Seq<u8>>::empty());
        assert(flat(b.push(x)) =~= flat(b) + x);
    } else {
        assert(b.push(x).skip(1) =~= b.skip(1).push(x));
        lemma_flat_push(b.skip(1), x);
        assert(flat(b.push(x)) =~= flat(b) + x);
    }
}

/// No frame is lost, added or moved by putting frames together in batches; every batch that comes out before the end is
/// full, and fewer frames than make a batch are held.
pub proof fn law_batches(f: Seq<Seq<u8>>, size: int)
    requires
        0 < size,
    ensures
        ({
            let (out, held) = taken_in(f, size);
            &&& flat(out) + held == f
            &&& held.len() < size
            &&& forall|i: int| 0 <= i < out.len() ==> (#[trigger] out[i]).len() == size
        }),
    decreases f.len(),
{
    if f.len() == 0 {
        assert(flat(taken_in(f, size).0) + taken_in(f, size).1 =~= f);
    } else {
        law_batches(f.drop_last(), size);
        let (out, held) = taken_in(f.drop_last(), size);
        let more = held.push(f.last());
        assert((flat(out) + held).push(f.last()) =~= f);
        if more.len() >= size {
            lemma_flat_push(out, more);
            assert(flat(out) + more + Seq::<Seq<u8>>::empty() =~= f);
        } else {
            assert(flat(out) + more =~= f);
        }
    }
}

// The end of a run.
/// What the run does next.
#[derive(Debug, Clone, Copy, PartialEq, Eq, Structural)]
pub enum Step {
    /// The run was cancelled.
    Cancelled,
    /// All frames have been written.
    Finished,
    /// It goes on; say how far it is.
    Report,
}

/// What the run does next. A run that is cancelled is not taken for one that has finished.
pub fn next_step(cancelled: bool, written: bool) -> (s: Step)
    ensures
        s == (if cancelled {
            Step::Cancelled
        } else if written {
            Step::Finished
        } else {
            Step::Report
        }),
{
    if cancelled {
        Step::Cancelled
    } else if written {
        Step::Finished
    } else {
        Step::Report
    }
}

/// What comes to the one who writes frames to the encoder.
#[derive(Debug, Clone, Copy, PartialEq, Eq, Structural)]
pub enum Arrival {
    /// A frame.
    Frame,
    /// Nothing for a while.
    Nothing,
    /// The last frame has come.
    End,
}

/// Whether a frame is written now, or whether it is waited for, or the end.
#[derive(Debug, Clone, Copy, PartialEq, Eq, Structural)]
pub enum WriterStep {
    Write,
    Wait,
    Stop,
}

/// What the one who writes frames does next: a cancelled run stops when no frame comes.
pub fn writer_step(a: Arrival, cancelled: bool) -> (s: WriterStep)
    ensures
        s == (match a {
            Arrival::Frame => WriterStep::Write,
            Arrival::Nothing => if cancelled {
                WriterStep::Stop
            } else {
                WriterStep::Wait
            },
            Arrival::End => WriterStep::Stop,
        }),
{
    match a {
        Arrival::Frame => WriterStep::Write,
        Arrival::Nothing => if cancelled {
            WriterStep::Stop
        } else {
            WriterStep::Wait
        },
        Arrival::End => WriterStep::Stop,
    }
}

/// What came of a run.
pub struct Outcome {
    pub cancelled: bool,
    /// Why frames could not be changed.
    pub transform_error: Option<String>,
    pub encoder_ok: bool,
    pub decoder_ok: bool,
    /// How many frames were read, changed and written.
    pub read: u64,
    pub done: u64,
    pub written: u64,
    pub encoder_stderr: String,
    pub decoder_stderr: String,
    /// Why no more frames were read.
    pub reader_stop: Option<String>,
    /// What the decoder returned when it ended.
    pub decoder_code: Option<i32>,
}

/// What is said of a decoder that failed: why reading stopped, what it returned, and the last it said.
pub open spec fn decoder_report(o: Outcome) -> Seq<char> {
    "[读端] "@ + (match o.reader_stop {
        Some(s) => s@,
        None => Seq::empty(),
    }) + "\n[退出码] "@ + signed(match o.decoder_code {
        Some(c) => c,
        None => -1i32,
    }) + "\n[decoder stderr 尾部]\n"@ + tail(o.decoder_stderr@, 1000)
}

/// Whether `e` is how a run with this outcome fails, if it fails: of several faults the one that causes the others.
pub open spec fn verdict(o: Outcome, r: Result<u64, PipelineError>) -> bool {
    if o.cancelled {
        r == Err::<u64, PipelineError>(PipelineError::Cancelled { frames: o.done })
    } else if o.transform_error is Some {
        r is Err && r->Err_0 is TransformFailed && r->Err_0->TransformFailed_frames == o.done && r->Err_0->reason@
            == o.transform_error->0@
    } else if !o.encoder_ok {
        r is Err && r->Err_0 is EncoderFailed && r->Err_0->EncoderFailed_frames == o.written
            && r->Err_0->EncoderFailed_stderr@ == tail(o.encoder_stderr@, 1000)
    } else if !o.decoder_ok {
        r is Err && r->Err_0 is DecoderFailed && r->Err_0->DecoderFailed_frames == o.read
            && r->Err_0->DecoderFailed_stderr@ == decoder_report(o)
    } else if o.read != o.written {
        r == Err::<u64, PipelineError>(PipelineError::FrameCountMismatch { decoded: o.read, encoded: o.written })
    } else {
        r == Ok::<u64, PipelineError>(o.read)
    }
}

/// Says what came of a run: the number of frames, or how it failed.
pub fn conclude(o: &Outcome) -> (r: Result<u64, PipelineError>)
    ensures
        verdict(*o, r),
{
    if o.cancelled {
        return Err(PipelineError::Cancelled { frames: o.done });
    }
    match &o.transform_error {
        Some(e) => {
            return Err(PipelineError::TransformFailed { frames: o.done, reason: e.clone() });
        },
        None => {},
    }
    if !o.encoder_ok {
        return Err(
            PipelineError::EncoderFailed { frames: o.written, stderr: tail_of(o.encoder_stderr.as_str(), 1000) },
        );
    }
    if !o.decoder_ok {
        let mut s = String::new();
        append(&mut s, "[读端] ");
        match &o.reader_stop {
            Some(m) => {
                append(&mut s, m.as_str());
            },
            None => {},
        }
        append(&mut s, "\n[退出码] ");
        let code: i32 = match o.decoder_code {
            Some(c) => c,
            None => -1,
        };
        if code < 0 {
            append(&mut s, "-");
            append(&mut s, decimal((-(code as i64)) as u64).as_str());
        } else {
            append(&mut s, decimal(code as u64).as_str());
        }
        append(&mut s, "\n[decoder stderr 尾部]\n");
        append(&mut s, tail_of(o.decoder_stderr.as_str(), 1000).as_str());
        assert(s@ =~= decoder_report(*o));
        return Err(PipelineError::DecoderFailed { frames: o.read, stderr: s });
    }
    if o.read != o.written {
        return Err(PipelineError::FrameCountMismatch { decoded: o.read, encoded: o.written });
    }
    Ok(o.read)
}

/// A run succeeds if and only if nothing stopped it and every frame that was read was written.
pub proof fn law_success(o: Outcome, r: Result<u64, PipelineError>)
    requires
        verdict(o, r),
    ensures
        r is Ok <==> !o.cancelled && o.transform_error is None && o.encoder_ok && o.decoder_ok && o.read == o.written,
        r is Ok ==> r->Ok_0 == o.written,
{
}

/// Of several faults the one that causes the others is reported: that the run was cancelled before all else, then that frames could not be
/// changed, then the encoder, then the decoder, and last that not all frames that were read were written. Each is reported with its own
/// count of frames.
pub proof fn law_which_fault(o: Outcome, r: Result<u64, PipelineError>)
    requires
        verdict(o, r),
    ensures
        o.cancelled ==> r is Err && r->Err_0 is Cancelled && r->Err_0->Cancelled_frames == o.done,
        !o.cancelled && o.transform_error is Some ==> r is Err && r->Err_0 is TransformFailed && r->Err_0->TransformFailed_frames == o.done
            && r->Err_0->reason@ == o.transform_error->0@,
        !o.cancelled && o.transform_error is None && !o.encoder_ok ==> r is Err && r->Err_0 is EncoderFailed && r->Err_0->EncoderFailed_frames
            == o.written,
        !o.cancelled && o.transform_error is None && o.encoder_ok && !o.decoder_ok ==> r is Err && r->Err_0 is DecoderFailed
            && r->Err_0->DecoderFailed_frames == o.read,
        !o.cancelled && o.transform_error is None && o.encoder_ok && o.decoder_ok && o.read != o.written ==> r is Err
            && r->Err_0 is FrameCountMismatch && r->Err_0->decoded == o.read && r->Err_0->encoded == o.written,
        o.encoder_stderr@.len() <= 1000 && r is Err && r->Err_0 is EncoderFailed ==> r->Err_0->EncoderFailed_stderr@ == o.encoder_stderr@,
        o.encoder_stderr@.len() > 1000 && r is Err && r->Err_0 is EncoderFailed ==> r->Err_0->EncoderFailed_stderr@ == o.encoder_stderr@.skip(
            o.encoder_stderr@.len() - 1000,
        ),
{
}

/// What the encoder is to do: the size and the rate are those of the source; the sound comes from the source, if it has any, and is encoded
/// anew only if the new file cannot hold it; the rate of bits is the one asked for, or goes by the longer edge if that is left open.
pub proof fn law_encoding(platform: Platform, e: EncodeOptions, input: Seq<char>, output: Seq<char>, o: PipelineOptions, m: Source)
    requires
        encoding_for(platform, e, input, output, o, m),
    ensures
        e.width == m.width && e.height == m.height && e.fps@ == m.fps@ && e.encoder@ == o.encoder@,
        m.has_audio ==> e.audio_from is Some && e.audio_from->0@ == input,
        !m.has_audio ==> e.audio_from is None,
        e.audio_transcode ==> is_mp4(platform, output),
        is_mp4(platform, output) && (exists|i: int| 0 <= i < m.audio_codecs@.len() && unfit_sound((#[trigger] m.audio_codecs@[i])@)) ==> e.audio_transcode,
        (forall|i: int| 0 <= i < m.audio_codecs@.len() ==> !unfit_sound((#[trigger] m.audio_codecs@[i])@)) ==> !e.audio_transcode,
        lowered(o.bitrate@) != lowered("auto"@) ==> e.bitrate@ == o.bitrate@,
        lowered(o.bitrate@) == lowered("auto"@) && m.width >= m.height ==> e.bitrate@ == rate_for(m.width as int),
        lowered(o.bitrate@) == lowered("auto"@) && m.width <= m.height ==> e.bitrate@ == rate_for(m.height as int),
{
    let all = texts(m.audio_codecs@);
    if exists|i: int| 0 <= i < m.audio_codecs@.len() && unfit_sound((#[trigger] m.audio_codecs@[i])@) {
        let i = choose|i: int| 0 <= i < m.audio_codecs@.len() && unfit_sound((#[trigger] m.audio_codecs@[i])@);
        assert(all[i] == m.audio_codecs@[i]@);
        assert(unfit_sound(all[i]));
    }
    if e.audio_transcode {
        let i = choose|i: int| 0 <= i < all.len() && unfit_sound(#[trigger] all[i]);
        assert(all[i] == m.audio_codecs@[i]@);
        assert(unfit_sound(m.audio_codecs@[i]@));
    }
}

/// Sound that the family of MP4 cannot hold is encoded as `truehd`, `mlp` or `dts`, in small or capital letters; all other sound it can hold.
pub proof fn law_unfit_sound(codec: Seq<char>)
    ensures
        unfit_sound(codec) <==> lowered(codec) == seq!['t', 'r', 'u', 'e', 'h', 'd'] || lowered(codec) == seq!['m', 'l', 'p'] || lowered(codec) == seq![
            'd',
            't',
            's',
        ],
{
    reveal_strlit("truehd");
    reveal_strlit("mlp");
    reveal_strlit("dts");
    assert(lowered("truehd"@) =~= seq!['t', 'r', 'u', 'e', 'h', 'd']);
    assert(lowered("mlp"@) =~= seq!['m', 'l', 'p']);
    assert(lowered("dts"@) =~= seq!['d', 't', 's']);
}

/// Frames that are taken in: a frame is held until there are enough for a batch, which then comes out whole.
pub proof fn law_batch_by_batch(f: Seq<Seq<u8>>, x: Seq<u8>, size: int)
    requires
        0 < size,
    ensures
        ({
            let (out, held) = taken_in(f, size);
            let (out2, held2) = taken_in(f.push(x), size);
            &&& held.len() + 1 < size ==> out2 == out && held2 == held.push(x)
            &&& held.len() + 1 >= size ==> out2 == out.push(held.push(x)) && held2.len() == 0
        }),
{
    assert(f.push(x).drop_last() =~= f);
}

} // verus!
