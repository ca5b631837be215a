use automosaic::assign::{associate, Strictness};
use automosaic::detect::PersonInstance;
use automosaic::rank::rank;
use automosaic::track::{
    fade_progress, near_frame_edge, Fade, Fate, IouTracker, MaskSmoother, TrackerOptions, BYTE_LOW_CONF,
};

const HI: f32 = 0.35;

fn iou(a: &[f32; 4], b: &[f32; 4]) -> f32 {
    let (ix1, iy1) = (a[0].max(b[0]), a[1].max(b[1]));
    let (ix2, iy2) = (a[2].min(b[2]), a[3].min(b[3]));
    let inter = (ix2 - ix1).max(0.0) * (iy2 - iy1).max(0.0);
    let aa = (a[2] - a[0]).max(0.0) * (a[3] - a[1]).max(0.0);
    let ab = (b[2] - b[0]).max(0.0) * (b[3] - b[1]).max(0.0);
    if aa + ab <= 0.0 {
        0.0
    } else {
        inter / (aa + ab - inter)
    }
}

fn inst(x: f32, y: f32, s: f32, score: f32, mask_val: u8) -> PersonInstance {
    PersonInstance {
        score: score.to_bits(),
        xyxy: [x, y, x + s, y + s].map(f32::to_bits),
        mask: vec![mask_val; 8 * 8],
    }
}

fn table(boxes: &[[f32; 4]], dets: &[PersonInstance]) -> Vec<Vec<u32>> {
    boxes
        .iter()
        .map(|t| dets.iter().map(|d| iou(t, &d.xyxy.map(f32::from_bits)).to_bits()).collect())
        .collect()
}

fn seen_boxes(tr: &IouTracker) -> Vec<[f32; 4]> {
    tr.tracks().iter().map(|t| t.xyxy.map(f32::from_bits)).collect()
}

fn update(tr: &mut IouTracker, dets: Vec<PersonInstance>) -> usize {
    let o = table(&seen_boxes(tr), &dets);
    tr.update(&dets, HI.to_bits(), &o);
    tr.len()
}

fn opts(max_lost: u32) -> TrackerOptions {
    TrackerOptions { max_lost, ..Default::default() }
}

fn fade(tr: &IouTracker) -> f32 {
    let f = tr.tracks()[0].fade;
    f.num as f32 / f.den as f32
}

#[test]
fn tracks_match_by_iou_and_hold_on_miss() {
    let mut tr = IouTracker::new(TrackerOptions {
        iou_thr: 0.3f32.to_bits(),
        low_iou_thr: 0.5f32.to_bits(),
        max_lost: 2,
        ema: true,
        ..Default::default()
    });
    assert_eq!(update(&mut tr, vec![inst(0.0, 0.0, 100.0, 0.9, 1)]), 1);
    assert_eq!(tr.tracks()[0].lost, 0);
    let id0 = tr.tracks()[0].id;
    assert_eq!(tr.len(), 1);
    assert_eq!(update(&mut tr, vec![inst(10.0, 0.0, 100.0, 0.88, 1)]), 1);
    assert_eq!(tr.tracks()[0].id, id0);
    assert_eq!(update(&mut tr, vec![]), 1);
    assert_eq!(tr.tracks()[0].lost, 1);
    assert_eq!(update(&mut tr, vec![]), 1);
    assert_eq!(update(&mut tr, vec![]), 0);
    assert!(tr.is_empty());
}

#[test]
fn new_person_creates_new_track() {
    let mut tr = IouTracker::new(TrackerOptions::default());
    update(&mut tr, vec![inst(0.0, 0.0, 100.0, 0.9, 1)]);
    let n = update(&mut tr, vec![inst(0.0, 0.0, 100.0, 0.9, 1), inst(500.0, 500.0, 100.0, 0.7, 1)]);
    assert_eq!(n, 2);
    assert_eq!(tr.len(), 2);
}

#[test]
fn low_det_rescues_occluded_track() {
    let mut tr = IouTracker::new(TrackerOptions::default());
    update(&mut tr, vec![inst(0.0, 0.0, 100.0, 0.9, 5)]);
    let id0 = tr.tracks()[0].id;
    assert_eq!(update(&mut tr, vec![inst(5.0, 0.0, 100.0, 0.18, 7)]), 1);
    assert_eq!(tr.tracks()[0].id, id0);
    assert_eq!(tr.tracks()[0].lost, 0);
    assert_eq!(tr.tracks()[0].mask[0], 1);
    assert_eq!(tr.len(), 1);
}

#[test]
fn low_det_alone_never_spawns_track() {
    let mut tr = IouTracker::new(TrackerOptions::default());
    assert_eq!(update(&mut tr, vec![inst(0.0, 0.0, 100.0, 0.15, 1)]), 0);
    assert!(tr.is_empty());
}

#[test]
fn low_det_far_away_not_absorbed() {
    let mut tr = IouTracker::new(TrackerOptions::default());
    update(&mut tr, vec![inst(0.0, 0.0, 100.0, 0.9, 1)]);
    let id0 = tr.tracks()[0].id;
    update(&mut tr, vec![inst(70.0, 0.0, 100.0, 0.2, 1)]);
    let t = tr.tracks().iter().find(|t| t.id == id0).unwrap();
    assert_eq!(t.lost, 1);
    assert_eq!(t.mask[0], 1);
}

#[test]
fn lost_track_fades_over_second_half_of_hold() {
    let mut tr = IouTracker::new(opts(8));
    update(&mut tr, vec![inst(0.0, 0.0, 100.0, 0.9, 1)]);
    for expected in [0.0f32, 0.0, 0.0, 0.0] {
        update(&mut tr, vec![]);
        assert!((fade(&tr) - expected).abs() < 1e-6);
    }
    for expected in [0.25f32, 0.5, 0.75, 1.0] {
        update(&mut tr, vec![]);
        assert!((fade(&tr) - expected).abs() < 1e-6);
    }
    assert_eq!(update(&mut tr, vec![]), 0);
}

#[test]
fn rematched_track_resets_fade() {
    let mut tr = IouTracker::new(opts(8));
    update(&mut tr, vec![inst(0.0, 0.0, 100.0, 0.9, 1)]);
    for _ in 0..6 {
        update(&mut tr, vec![]);
    }
    update(&mut tr, vec![inst(0.0, 0.0, 100.0, 0.9, 1)]);
    assert_eq!(tr.tracks()[0].lost, 0);
    assert_eq!(fade(&tr), 0.0);
}

#[test]
fn short_hold_disables_fade() {
    let mut tr = IouTracker::new(opts(2));
    update(&mut tr, vec![inst(0.0, 0.0, 100.0, 0.9, 1)]);
    update(&mut tr, vec![]);
    assert_eq!(fade(&tr), 0.0);
}

#[test]
fn near_frame_edge_detection() {
    let (w, h) = (500usize, 860usize);
    let near = |b: [f32; 4]| {
        near_frame_edge([b[0].floor() as i64, b[1].floor() as i64, b[2].ceil() as i64, b[3].ceil() as i64], w, h, 12)
    };
    assert!(near([0.0, 372.0, 127.0, 859.0]));
    assert!(near([400.0, 0.0, 480.0, 500.0]));
    assert!(near([490.0, 100.0, 500.0, 400.0]));
    assert!(near([100.0, 850.0, 400.0, 860.0]));
    assert!(!near([100.0, 100.0, 400.0, 700.0]));
    assert!(!near([15.0, 15.0, 485.0, 845.0]));
}

#[test]
fn gmc_motion_saves_track_on_camera_pan() {
    let mut tr = IouTracker::new(TrackerOptions::default());
    update(&mut tr, vec![inst(0.0, 0.0, 100.0, 0.9, 1)]);
    let id0 = tr.tracks()[0].id;
    update(&mut tr, vec![inst(0.0, 0.0, 100.0, 0.9, 1)]);
    let dets = vec![inst(80.0, 0.0, 100.0, 0.9, 1)];
    let expected = table(&[[80.0, 0.0, 180.0, 100.0]], &dets);
    let last = table(&seen_boxes(&tr), &dets);
    tr.update_with_motion(&dets, HI.to_bits(), &expected, &last);
    assert_eq!(tr.len(), 1);
    assert_eq!(tr.tracks()[0].id, id0);

    let mut tr2 = IouTracker::new(TrackerOptions::default());
    update(&mut tr2, vec![inst(0.0, 0.0, 100.0, 0.9, 1)]);
    let id1 = tr2.tracks()[0].id;
    update(&mut tr2, vec![inst(0.0, 0.0, 100.0, 0.9, 1)]);
    assert_eq!(update(&mut tr2, vec![inst(80.0, 0.0, 100.0, 0.9, 1)]), 2);
    assert!(tr2.tracks().iter().any(|t| t.id != id1));
}

#[test]
fn kalman_prediction_matches_fast_motion() {
    let mut tr = IouTracker::new(TrackerOptions::default());
    for x in [0.0, 30.0, 60.0] {
        update(&mut tr, vec![inst(x, 0.0, 100.0, 0.9, 1)]);
    }
    let id0 = tr.tracks()[0].id;
    let dets = vec![inst(120.0, 0.0, 100.0, 0.9, 1)];
    let expected = table(&[[90.0, 0.0, 190.0, 100.0]], &dets);
    let last = table(&seen_boxes(&tr), &dets);
    tr.update_with_motion(&dets, HI.to_bits(), &expected, &last);
    assert_eq!(tr.len(), 1);
    assert_eq!(tr.tracks()[0].id, id0);
}

#[test]
fn ocr_rescues_stopped_person_and_oru_purges_stale_velocity() {
    let run = |ocru: bool| {
        let mut tr = IouTracker::new(TrackerOptions { ocru, ..Default::default() });
        for x in [0.0, 30.0, 60.0] {
            update(&mut tr, vec![inst(x, 0.0, 100.0, 0.9, 1)]);
        }
        let id0 = tr.tracks()[0].id;
        for _ in 0..3 {
            update(&mut tr, vec![]);
        }
        let dets = vec![inst(60.0, 0.0, 100.0, 0.9, 1)];
        let expected = table(&[[180.0, 0.0, 280.0, 100.0]], &dets);
        let last = table(&seen_boxes(&tr), &dets);
        let report = tr.update_with_motion(&dets, HI.to_bits(), &expected, &last);
        (id0, tr.len(), tr.tracks()[0].id, tr.tracks()[0].lost, report.fates[0])
    };
    let (id0, n, id, lost, fate) = run(true);
    assert_eq!((n, lost), (1, 0));
    assert_eq!(id, id0);
    assert_eq!(fate, Fate::Seen { det: 0, missing: 3 });
    let (_, n2, _, _, fate2) = run(false);
    assert_eq!(n2, 2);
    assert_eq!(fate2, Fate::Missed { kept: true });
}

#[test]
fn ocru_not_applied_on_consecutive_match() {
    let mut tr = IouTracker::new(TrackerOptions::default());
    update(&mut tr, vec![inst(0.0, 0.0, 100.0, 0.9, 1)]);
    let dets = vec![inst(30.0, 0.0, 100.0, 0.9, 1)];
    let o = table(&seen_boxes(&tr), &dets);
    let report = tr.update(&dets, HI.to_bits(), &o);
    assert_eq!(report.fates, vec![Fate::Seen { det: 0, missing: 0 }]);
    assert!(report.born.is_empty());
}

#[test]
fn hold_growth_is_bounded() {
    let mut tr = IouTracker::new(TrackerOptions::default());
    update(&mut tr, vec![inst(0.0, 0.0, 100.0, 0.9, 1)]);
    let t = &tr.tracks()[0];
    assert_eq!(t.hold_dilate_px(30), 24);
    assert_eq!(t.hold_dilate_px(0), 6);
    assert_eq!(t.hold_dilate_px(17), 17);
}

#[test]
fn smoother_does_not_accumulate_history() {
    let (w, h) = (64, 64);
    let mut sm = MaskSmoother::new();
    let at = |x: usize, y: usize| {
        let mut m = vec![0u8; w * h];
        m[y * w + x] = 1;
        m
    };
    let mut m1 = at(5, 5);
    sm.apply(&mut m1, w, h);
    let mut m2 = at(30, 30);
    sm.apply(&mut m2, w, h);
    let mut m3 = at(55, 55);
    sm.apply(&mut m3, w, h);
    assert_eq!(m3[55 * w + 55], 1);
    assert_eq!(m3[30 * w + 30], 1);
    assert_eq!(m3[5 * w + 5], 0);
}

#[test]
fn smoother_unions_dilated_prev() {
    let mut sm = MaskSmoother::default();
    let (w, h) = (16, 16);
    let mut m1 = vec![0u8; w * h];
    m1[8 * w + 8] = 1;
    sm.apply(&mut m1, w, h);
    let mut m2 = vec![0u8; w * h];
    sm.apply(&mut m2, w, h);
    assert_eq!(m2[8 * w + 8], 1);
    assert_eq!(m2[7 * w + 7], 1);
    assert_eq!(m2[6 * w + 6], 0);
}

#[test]
fn usual_thresholds() {
    let o = TrackerOptions::default();
    assert_eq!(f32::from_bits(o.iou_thr), 0.3);
    assert_eq!(f32::from_bits(o.low_iou_thr), 0.5);
    assert_eq!((o.max_lost, o.ema, o.ocru), (12, true, true));
    assert_eq!(f32::from_bits(BYTE_LOW_CONF), 0.1);
    assert_eq!(fade_progress(12, 12), Fade { num: 1, den: 1 });
    assert_eq!(fade_progress(7, 12), Fade { num: 1, den: 6 });
}

#[test]
fn masks_follow_what_is_seen() {
    let mut tr = IouTracker::new(TrackerOptions::default());
    update(&mut tr, vec![inst(0.0, 0.0, 100.0, 0.9, 1)]);
    update(&mut tr, vec![inst(0.0, 0.0, 100.0, 0.9, 0)]);
    assert!(tr.tracks()[0].mask.iter().all(|&v| v == 0));
    update(&mut tr, vec![inst(0.0, 0.0, 100.0, 0.9, 9)]);
    assert!(tr.tracks()[0].mask.iter().all(|&v| v == 1));
}

#[test]
fn numbers_are_never_given_twice() {
    let mut tr = IouTracker::new(opts(0));
    update(&mut tr, vec![inst(0.0, 0.0, 10.0, 0.5, 1), inst(90.0, 0.0, 10.0, 0.9, 1)]);
    assert_eq!(tr.tracks().iter().map(|t| (t.id, f32::from_bits(t.score))).collect::<Vec<_>>(), [(0, 0.9), (1, 0.5)]);
    update(&mut tr, vec![]);
    assert!(tr.is_empty());
    update(&mut tr, vec![inst(0.0, 0.0, 10.0, 0.5, 1)]);
    assert_eq!(tr.tracks()[0].id, 2);
}

#[test]
fn best_first_and_equals_in_order() {
    assert_eq!(rank(&[3, 9, 3, 9, 1]), vec![1, 3, 0, 2, 4]);
    assert!(rank(&[]).is_empty());
}

#[test]
fn matching_in_three_rounds() {
    let b = |v: &[f32]| v.iter().map(|x| x.to_bits()).collect::<Vec<u32>>();
    let k = Strictness { high: 0.3f32.to_bits(), low: 0.5f32.to_bits(), rescue: true };
    let m = vec![b(&[0.9, 0.8, 0.0]), b(&[0.0, 0.0, 0.4]), b(&[0.0, 0.1, 0.0])];
    let o = vec![b(&[0.0, 0.0, 0.0]), b(&[0.0, 0.0, 0.9]), b(&[0.0, 0.35, 0.0])];
    let r = associate(3, &b(&[0.8, 0.9, 0.2]), 0.35f32.to_bits(), &m, &o, k);
    assert_eq!(r.track_of, vec![None, Some(0), None]);
    assert_eq!(r.taken, vec![true, false, false]);
    let r = associate(3, &b(&[0.95, 0.9, 0.6]), 0.35f32.to_bits(), &m, &o, k);
    assert_eq!(r.track_of, vec![Some(0), Some(2), Some(1)]);
}

#[test]
fn tracks_go_on_or_begin() {
    let mut tr = IouTracker::new(opts(1));
    update(&mut tr, vec![inst(0.0, 0.0, 10.0, 0.9, 1), inst(90.0, 0.0, 10.0, 0.8, 1)]);
    update(&mut tr, vec![inst(0.0, 0.0, 10.0, 0.9, 1), inst(300.0, 0.0, 10.0, 0.7, 1)]);
    let now = |tr: &IouTracker| tr.tracks().iter().map(|t| (t.id, t.lost)).collect::<Vec<_>>();
    assert_eq!(now(&tr), [(0, 0), (1, 1), (2, 0)]);
    update(&mut tr, vec![inst(300.0, 0.0, 10.0, 0.7, 1), inst(90.0, 500.0, 10.0, 0.6, 1)]);
    assert_eq!(now(&tr), [(0, 1), (2, 0), (3, 0)]);
}
