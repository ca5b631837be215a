use automosaic::compose::{ComposeBackend, ComposeCpu, MaskStyle, Region};
use automosaic::detect::PersonInstance;
use automosaic::mosaic::{
    boxes_of_found, can_show, compose_frame, need, preview_size, scale_preview, AdaptiveTuner, MosaicOptions, MosaicPipeline, PreviewSink, Spot,
    TuneAction, ADAPTIVE_WINDOW_NS, PREVIEW_EVERY, PREVIEW_WIDTH,
};

fn test_opts() -> MosaicOptions {
    MosaicOptions {
        conf: 0.35f32.to_bits(),
        face: false,
        face_expand: 0,
        face_roi: false,
        track: true,
        smooth: false,
        landmark_expand: false,
        mask_ema: true,
        ocru: true,
        gmc: false,
        detect_every: 1,
        fps_micro: 0,
        adaptive_skip_max: 0,
        style: MaskStyle::Solid,
    }
}

fn spot(b: [f32; 4]) -> Spot {
    let at = b.map(|v| v as usize);
    Spot {
        edge: [b[0].floor() as i64, b[1].floor() as i64, b[2].ceil() as i64, b[3].ceil() as i64],
        at,
        shifted: at,
        dx: 0,
        dy: 0,
        spread: 0,
        fade_px: 0,
    }
}

fn whole(w: usize, h: usize) -> PersonInstance {
    PersonInstance {
        score: 0.9f32.to_bits(),
        xyxy: [2.0, 2.0, w as f32 - 2.0, h as f32 - 2.0].map(f32::to_bits),
        mask: vec![1u8; w * h],
    }
}

#[test]
fn pipeline_accepts_any_detector_backend() {
    let (w, h) = (32, 32);
    let mut pipe = MosaicPipeline::new(test_opts(), w, h);
    assert_eq!(pipe.need(1), vec![0]);
    let report = pipe.follow(&vec![whole(w, h)], &vec![], &vec![]);
    assert_eq!(report.born, vec![0]);
    let boxes: Vec<[f32; 4]> = pipe.tracks().iter().map(|t| t.xyxy.map(f32::from_bits)).collect();
    let spots: Vec<Spot> = boxes.iter().map(|b| spot(*b)).collect();
    let mask = pipe.mask(&vec![], &spots, false, &vec![]);
    assert!(mask.iter().all(|&v| v == 1));
    assert_eq!(boxes.len(), 1);
    assert_eq!(pipe.advance(1, 0, 0), TuneAction::Nothing);
    assert_eq!(pipe.frame_idx(), 1);
}

struct CountComposer(usize);

impl ComposeBackend for CountComposer {
    fn apply(&mut self, _nv12: &mut [u8], _w: usize, _h: usize, _m: &[u8], _s: &MaskStyle) {
        self.0 += 1;
    }
}

#[test]
fn build_with_composer_routes_frames_through_composer() {
    let (w, h) = (32, 32);
    let mut composer = CountComposer(0);
    let mut f1 = vec![128u8; w * h * 3 / 2];
    let mut f2 = vec![128u8; w * h * 3 / 2];
    let mask = vec![1u8; w * h];
    for f in [&mut f1, &mut f2] {
        assert!(compose_frame(&mut composer, f, w, h, &mask, &MaskStyle::Solid, false).is_none());
    }
    assert_eq!(composer.0, 2);
}

#[test]
fn adaptive_ladder_requires_two_windows_then_reduces_batch_then_skips() {
    let mut t = AdaptiveTuner::new(30_000_000, 1, 3);
    let win = 2_000_000_000;
    let starved_setup = |t: &mut AdaptiveTuner| {
        t.frames = 40;
        t.busy_ns = 1_500_000_000;
    };
    starved_setup(&mut t);
    assert_eq!(t.decide(win), TuneAction::Nothing);
    starved_setup(&mut t);
    assert_eq!(t.decide(win), TuneAction::ReduceBatch);
    assert_eq!(t.effective_every(), 1);
    starved_setup(&mut t);
    assert_eq!(t.decide(win), TuneAction::Nothing);
    starved_setup(&mut t);
    assert_eq!(t.decide(win), TuneAction::SkipIncreased);
    assert_eq!(t.effective_every(), 2);
    starved_setup(&mut t);
    assert_eq!(t.decide(win), TuneAction::Nothing);
    starved_setup(&mut t);
    assert_eq!(t.decide(win), TuneAction::SkipIncreased);
    assert_eq!(t.effective_every(), 3);
    starved_setup(&mut t);
    starved_setup(&mut t);
    assert_eq!(t.decide(win), TuneAction::Nothing);
    assert_eq!(t.effective_every(), 3);
}

#[test]
fn adaptive_does_not_trigger_when_decode_bound_or_healthy() {
    let mut t = AdaptiveTuner::new(30_000_000, 1, 3);
    t.frames = 40;
    t.busy_ns = 500_000_000;
    assert_eq!(t.decide(2_000_000_000), TuneAction::Nothing);
    assert_eq!(t.starved, 0);
    let mut t2 = AdaptiveTuner::new(30_000_000, 1, 3);
    t2.frames = 80;
    t2.busy_ns = 1_800_000_000;
    assert_eq!(t2.decide(2_000_000_000), TuneAction::Nothing);
}

#[test]
fn adaptive_max_zero_disables() {
    let mut t = AdaptiveTuner::new(30_000_000, 1, 0);
    t.frames = 10;
    t.busy_ns = 1_999_000_000;
    t.starved = 1;
    assert_eq!(t.decide(2_000_000_000), TuneAction::Nothing);
}

#[test]
fn windows_are_two_seconds_long() {
    let mut t = AdaptiveTuner::new(0, 0, 2);
    assert_eq!((t.target_micro, t.every, t.enabled), (30_000_000, 1, true));
    assert_eq!(t.note(1, 5, 100), TuneAction::Nothing);
    assert_eq!((t.frames, t.busy_ns, t.window_start), (1, 5, Some(100)));
    assert_eq!(t.note(1, 1_900_000_000, 100 + ADAPTIVE_WINDOW_NS), TuneAction::Nothing);
    assert_eq!((t.frames, t.busy_ns, t.starved), (0, 0, 1));
    assert_eq!(t.note(1, 1_900_000_000, 100 + 2 * ADAPTIVE_WINDOW_NS), TuneAction::ReduceBatch);
    assert!(t.batch_reduced);
}

#[test]
fn frames_are_looked_into_by_their_number() {
    assert_eq!(need(4, 3, 6), vec![2, 5]);
    assert_eq!(need(0, 1, 3), vec![0, 1, 2]);
}

#[test]
fn sizes_of_what_is_shown() {
    assert_eq!(preview_size(1920, 1080), (480, 270));
    assert_eq!(preview_size(320, 240), (320, 240));
    assert_eq!(preview_size(1000, 3), (480, 2));
    assert_eq!((PREVIEW_EVERY, PREVIEW_WIDTH), (8, 480));
    let f = vec![128u8; 4 * 4 * 3 / 2];
    assert_eq!(scale_preview(&f, 4, 4).len(), 4 * 4 * 4);
}

struct Sink(Vec<u64>);

impl PreviewSink for Sink {
    fn wants(&mut self, frame_idx: u64) -> bool {
        frame_idx % PREVIEW_EVERY == 0
    }

    fn emit(&mut self, frame_idx: u64, original: Vec<u8>, processed: Vec<u8>, w: u32, h: u32) {
        assert_eq!(original.len(), (w * h * 4) as usize);
        assert_ne!(original, processed);
        self.0.push(frame_idx);
    }
}

#[test]
fn pictures_before_and_after() {
    let (w, h) = (16, 16);
    let mut sink = Sink(vec![]);
    let mask = vec![1u8; w * h];
    for idx in 0..9 {
        let mut f = vec![200u8; w * h * 3 / 2];
        let wants = sink.wants(idx);
        if let Some(p) = compose_frame(&mut ComposeCpu, &mut f, w, h, &mask, &MaskStyle::Solid, wants) {
            let (dw, dh) = preview_size(w, h);
            sink.emit(idx, p.original, p.processed, dw as u32, dh as u32);
        }
    }
    assert_eq!(sink.0, vec![0, 8]);
}

#[test]
fn a_track_lost_at_the_edge_is_not_shown() {
    let (w, h) = (40, 40);
    let mut pipe = MosaicPipeline::new(test_opts(), w, h);
    pipe.follow(&vec![whole(w, h)], &vec![], &vec![]);
    let b = pipe.tracks()[0].xyxy.map(f32::from_bits);
    for lost in 1..=4u32 {
        pipe.follow(&vec![], &vec![vec![]], &vec![vec![]]);
        assert_eq!(pipe.tracks()[0].lost, lost);
        let m = pipe.mask(&vec![], &vec![spot(b)], false, &vec![]);
        assert_eq!(m.iter().any(|&v| v != 0), lost <= 3);
    }
}

#[test]
fn masks_are_put_together() {
    let (w, h) = (32, 32);
    let mut o = test_opts();
    o.track = false;
    o.smooth = true;
    let mut pipe = MosaicPipeline::new(o, w, h);
    let mut a = whole(w, h);
    a.mask = vec![0; w * h];
    a.mask[5 * w + 5] = 1;
    let mut low = whole(w, h);
    low.score = 0.2f32.to_bits();
    let face = Region { x1: 20, y1: 20, x2: 22, y2: 22 };
    let m = pipe.mask(&vec![a, low], &vec![], false, &vec![face]);
    assert_eq!(m.iter().map(|&v| v as usize).sum::<usize>(), 5);
    assert_eq!((m[5 * w + 5], m[21 * w + 21]), (1, 1));
    let m = pipe.mask(&vec![], &vec![], true, &vec![]);
    assert_eq!(m[4 * w + 4], 1);
    let m = pipe.mask(&vec![], &vec![], true, &vec![]);
    assert!(m.iter().all(|&v| v == 0));
    pipe.set_frame_idx(7);
    assert_eq!(pipe.frame_idx(), 7);
}

#[test]
fn held_masks_are_moved_and_grown() {
    let (w, h) = (64, 64);
    let mut pipe = MosaicPipeline::new(test_opts(), w, h);
    let mut p = whole(w, h);
    p.xyxy = [20.0f32, 20.0, 24.0, 24.0].map(f32::to_bits);
    p.mask = vec![0; w * h];
    for y in 20..24 {
        for x in 20..24 {
            p.mask[y * w + x] = 1;
        }
    }
    pipe.follow(&vec![p], &vec![], &vec![]);
    pipe.follow(&vec![], &vec![vec![]], &vec![vec![]]);
    let mut s = spot([20.0, 20.0, 24.0, 24.0]);
    s.dx = 10;
    s.shifted = [30, 20, 34, 24];
    let m = pipe.mask(&vec![], &vec![s], true, &vec![]);
    assert_eq!(m[20 * w + 30], 1);
    assert_eq!(m[20 * w + 24], 1);
    assert_eq!(m[20 * w + 23], 0);
    assert_eq!(m[20 * w + 39], 1);
    assert_eq!(m[20 * w + 40], 0);
    s.fade_px = 40;
    let m = pipe.mask(&vec![], &vec![s], false, &vec![]);
    assert!(m.iter().all(|&v| v == 0));
}

#[test]
fn who_is_followed_is_hidden() {
    let (w, h) = (64, 64);
    let mut o = test_opts();
    o.smooth = true;
    let mut pipe = MosaicPipeline::new(o, w, h);
    let mut p = whole(w, h);
    p.xyxy = [20.0f32, 20.0, 24.0, 24.0].map(f32::to_bits);
    p.mask = vec![0; w * h];
    p.mask[21 * w + 22] = 255;
    pipe.follow(&vec![p], &vec![], &vec![]);
    for missing in 0..=12u32 {
        assert_eq!(pipe.tracks()[0].lost, missing);
        let face = Region { x1: 40, y1: 40, x2: 42, y2: 42 };
        let m = pipe.mask(&vec![], &vec![spot([20.0, 20.0, 24.0, 24.0])], missing > 0, &vec![face]);
        assert!(m.iter().all(|&v| v <= 1));
        let mut frame = vec![200u8; w * h * 3 / 2];
        compose_frame(&mut ComposeCpu, &mut frame, w, h, &m, &MaskStyle::Solid, false);
        assert_eq!((frame[21 * w + 22], frame[41 * w + 41], frame[0]), (16, 16, 200));
        pipe.follow(&vec![], &vec![vec![]], &vec![vec![]]);
    }
    assert!(pipe.tracks().is_empty());
}

#[test]
fn what_can_be_shown() {
    assert!(can_show(24, 4, 4) && !can_show(23, 4, 4));
    assert!(!can_show(0, 0, 0) && !can_show(usize::MAX, usize::MAX / 2, 1));
}

#[test]
fn boxes_of_good_detections() {
    let p = |n: u32, score: f32| PersonInstance { xyxy: [n; 4], score: score.to_bits(), mask: vec![] };
    let found = vec![p(1, 0.5), p(2, 0.4), p(3, 0.9)];
    assert_eq!(boxes_of_found(&found, 0.5f32.to_bits()), [[1; 4], [3; 4]]);
}
