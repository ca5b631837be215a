use automosaic::attempt::{end_of, next_attempt, next_encoder, Attempt, RunEnd, Then};
use automosaic::media::{FrameFormat, Platform, ProbeError};
use automosaic::pipe::{
    conclude, needs_sound_anew, next_step, plan, writer_step, Arrival, Batcher, Outcome, PipelineError,
    PipelineOptions, Source, Step, WriterStep,
};

fn options(encoder: &str, format: FrameFormat) -> PipelineOptions {
    PipelineOptions {
        hwaccel: None,
        encoder: encoder.into(),
        bitrate: "AUTO".into(),
        batch_size: 1,
        cancel: None,
        frame_format: format,
    }
}

fn source(codecs: &[&str]) -> Source {
    Source {
        width: 1920,
        height: 1080,
        fps: "30.000000".into(),
        has_audio: !codecs.is_empty(),
        audio_codecs: codecs.iter().map(|s| s.to_string()).collect(),
    }
}

#[test]
fn runs_are_planned() {
    let p = plan(Platform::Unix, "in.mp4", "out.mp4", &options("libx264", FrameFormat::Nv12), &source(&["aac", "TrueHD"]), "");
    assert_eq!(p.frame_bytes, 1920 * 1080 * 3 / 2);
    assert!(p.decode.join(" ").ends_with("-f rawvideo -pix_fmt nv12 -"));
    let e = p.encode.join(" ");
    assert!(e.contains("-i in.mp4 -map 0:v:0 -c:v libx264"));
    assert!(e.contains("-c:a aac -b:a 192k"));
    let p = plan(Platform::Unix, "in.mp4", "out.mkv", &options("h264_amf", FrameFormat::Mjpeg), &source(&["truehd"]), "");
    assert!(p.decode.join(" ").ends_with("-f mjpeg -q:v 2 -"));
    let e = p.encode.join(" ");
    assert!(e.contains("-b:v 6M") && e.contains("-c:a copy"));
    let p = plan(Platform::Unix, "in.mp4", "x", &options("null", FrameFormat::Nv12), &source(&[]), "");
    assert!(p.encode.join(" ").ends_with("-f null -"));
    let mut o = options("h264_amf", FrameFormat::Nv12);
    o.bitrate = "9M".into();
    o.hwaccel = Some("cuda".into());
    let p = plan(Platform::Unix, "in.mp4", "x", &o, &source(&[]), "");
    assert!(p.encode.join(" ").contains("-b:v 9M"));
    assert!(p.decode.join(" ").contains("-hwaccel cuda"));
}

#[test]
fn sound_that_does_not_fit() {
    let c = |s: &str| vec![s.to_string()];
    assert!(needs_sound_anew(Platform::Unix, "a.MP4", &c("mlp")));
    assert!(needs_sound_anew(Platform::Unix, "a.mov", &c("DTS")));
    assert!(!needs_sound_anew(Platform::Unix, "a.mkv", &c("mlp")));
    assert!(!needs_sound_anew(Platform::Unix, "a.mp4", &c("aac")));
}

#[test]
fn batches_keep_frames_and_order() {
    let mut b = Batcher::new(3);
    let mut out: Vec<Vec<Vec<u8>>> = vec![];
    for i in 0..8u8 {
        if let Some(x) = b.push(vec![i]) {
            out.push(x);
        }
    }
    out.push(b.finish());
    assert_eq!(out.iter().map(|x| x.len()).collect::<Vec<_>>(), [3, 3, 2]);
    assert_eq!(out.concat(), (0..8u8).map(|i| vec![i]).collect::<Vec<_>>());
    assert!(b.finish().is_empty());
    assert_eq!(Batcher::new(0).push(vec![1]), Some(vec![vec![1]]));
}

fn outcome() -> Outcome {
    Outcome {
        cancelled: false,
        transform_error: None,
        encoder_ok: true,
        decoder_ok: true,
        read: 10,
        done: 9,
        written: 10,
        encoder_stderr: "enc".into(),
        decoder_stderr: "dec".into(),
        reader_stop: None,
        decoder_code: None,
    }
}

#[test]
fn what_comes_of_a_run() {
    assert_eq!(conclude(&outcome()).unwrap(), 10);
    let mut o = outcome();
    o.written = 8;
    assert_eq!(conclude(&o).unwrap_err().message(), "帧数不一致：解码 10 帧，编码 8 帧");
    o.decoder_ok = false;
    o.reader_stop = Some("halt".into());
    assert_eq!(
        conclude(&o).unwrap_err().message(),
        "解码中断（已读 10 帧）: [读端] halt\n[退出码] -1\n[decoder stderr 尾部]\ndec"
    );
    o.encoder_ok = false;
    o.encoder_stderr = "x".repeat(1200);
    assert_eq!(conclude(&o).unwrap_err().message(), format!("编码中断（已写 8 帧）: {}", "x".repeat(1000)));
    o.transform_error = Some("why".into());
    assert_eq!(conclude(&o).unwrap_err().message(), "处理失败（帧 9）: why");
    o.cancelled = true;
    assert_eq!(conclude(&o).unwrap_err().message(), "已取消（完成 9 帧）");
}

#[test]
fn run_errors_say_what_is_wrong() {
    let e = PipelineError::Probe(ProbeError::NoVideoStream("v".into()));
    assert_eq!(e.message(), "探测失败: 无视频流: v");
    assert_eq!(PipelineError::SpawnDecoder("a".into()).message(), "解码 ffmpeg 启动失败: a");
    assert_eq!(PipelineError::SpawnEncoder("b".into()).message(), "编码 ffmpeg 启动失败: b");
}

#[test]
fn cancelling_comes_first() {
    assert_eq!(next_step(true, true), Step::Cancelled);
    assert_eq!(next_step(false, true), Step::Finished);
    assert_eq!(next_step(false, false), Step::Report);
    assert_eq!(writer_step(Arrival::Frame, true), WriterStep::Write);
    assert_eq!(writer_step(Arrival::Nothing, true), WriterStep::Stop);
    assert_eq!(writer_step(Arrival::Nothing, false), WriterStep::Wait);
    assert_eq!(writer_step(Arrival::End, false), WriterStep::Stop);
}

#[test]
fn trying_again() {
    let a = Attempt { on_cpu: false, decoder: 0, encoder: 0 };
    assert_eq!(next_attempt(a, RunEnd::Finished, 2, 2), Then::Done);
    assert_eq!(next_attempt(a, RunEnd::Cancelled, 2, 2), Then::Stopped);
    assert_eq!(next_attempt(a, RunEnd::EncoderFailed, 2, 2), Then::Again(Attempt { encoder: 1, ..a }));
    let b = Attempt { on_cpu: false, decoder: 0, encoder: 1 };
    assert_eq!(next_attempt(b, RunEnd::EncoderFailed, 2, 2), Then::Fail);
    let d = RunEnd::DecoderFailed { frames: 0 };
    assert_eq!(next_attempt(b, d, 2, 2), Then::Again(Attempt { on_cpu: false, decoder: 1, encoder: 0 }));
    assert_eq!(next_attempt(Attempt { decoder: 1, ..b }, d, 2, 2), Then::GiveUp);
    assert_eq!(next_attempt(b, RunEnd::DecoderFailed { frames: 1 }, 2, 2), Then::Fail);
    let t = RunEnd::TransformFailed { frames: 0 };
    let cpu = Attempt { on_cpu: true, decoder: 0, encoder: 0 };
    assert_eq!(next_attempt(b, t, 2, 2), Then::Again(cpu));
    assert_eq!(next_attempt(cpu, t, 2, 2), Then::Fail);
    assert_eq!(next_attempt(a, RunEnd::Failed, 2, 2), Then::Fail);
    assert_eq!(next_encoder(0, 2, RunEnd::EncoderFailed), Some(1));
    assert_eq!(next_encoder(1, 2, RunEnd::EncoderFailed), None);
    assert_eq!(next_encoder(0, 2, RunEnd::Failed), None);
}

#[test]
fn ends_of_runs() {
    let s = String::new;
    assert_eq!(end_of(&PipelineError::EncoderFailed { frames: 1, stderr: s() }), RunEnd::EncoderFailed);
    assert_eq!(end_of(&PipelineError::DecoderFailed { frames: 3, stderr: s() }), RunEnd::DecoderFailed { frames: 3 });
    assert_eq!(end_of(&PipelineError::TransformFailed { frames: 0, reason: s() }), RunEnd::TransformFailed { frames: 0 });
    assert_eq!(end_of(&PipelineError::Cancelled { frames: 1 }), RunEnd::Cancelled);
    assert_eq!(end_of(&PipelineError::SpawnEncoder(s())), RunEnd::Failed);
}
