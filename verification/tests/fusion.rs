use automosaic::gdino::{attention_mask, pixel_mask, TEXT_IDS};
use automosaic::gmc::{downsample, peak, wrapped};
use automosaic::link::MaskletMemory;
use automosaic::retinaface::{anchors, outputs_ok, tile_starts, Anchor};
use automosaic::sam2::{best_candidate, map_low_res_to_frame};
use automosaic::wbf::{placing_order, weights_for, Clusters, Member, Placement};

#[derive(Clone, Copy)]
struct WbfBox {
    xyxy: [f32; 4],
    score: f32,
    src: u32,
}

struct FusedBox {
    xyxy: [f32; 4],
    score: f32,
    votes: u32,
    best_src_score: f32,
}

fn iou(a: &[f32; 4], b: &[f32; 4]) -> f32 {
    let (ix1, iy1) = (a[0].max(b[0]), a[1].max(b[1]));
    let (ix2, iy2) = (a[2].min(b[2]), a[3].min(b[3]));
    let inter = (ix2 - ix1).max(0.0) * (iy2 - iy1).max(0.0);
    let aa = (a[2] - a[0]).max(0.0) * (a[3] - a[1]).max(0.0);
    let ab = (b[2] - b[0]).max(0.0) * (b[3] - b[1]).max(0.0);
    if aa + ab <= 0.0 {
        0.0
    } else {
        inter / (aa + ab - inter)
    }
}

fn fuse(lists: &[Vec<WbfBox>], weights: &[f32], thr: f32) -> Vec<FusedBox> {
    let w: Vec<f32> = if weights.is_empty() { vec![1.0; lists.len()] } else { weights.to_vec() };
    let total: f32 = w.iter().sum();
    let flat: Vec<(usize, WbfBox)> =
        lists.iter().enumerate().flat_map(|(i, l)| l.iter().map(move |b| (i, *b))).collect();
    let scores: Vec<u32> = flat.iter().map(|(_, b)| b.score.to_bits()).collect();
    let sources: Vec<u32> = flat.iter().map(|(_, b)| b.src).collect();
    let mean = |c: &Clusters, i: usize| {
        let tw: f32 = c.members(i).iter().map(|m| w[m.list]).sum();
        let mut r = [0f32; 4];
        for k in 0..4 {
            r[k] = c.members(i).iter().map(|m| w[m.list] * flat[m.index].1.xyxy[k]).sum::<f32>() / tw;
        }
        r
    };
    let mut c = Clusters::new();
    for i in placing_order(&scores) {
        let over: Vec<u32> = (0..c.len()).map(|k| iou(&mean(&c, k), &flat[i].1.xyxy).to_bits()).collect();
        c.place(Member { list: flat[i].0, index: i }, &over, thr.to_bits());
    }
    let mut out: Vec<FusedBox> = (0..c.len())
        .map(|i| {
            let s = c.summary_of(i, &scores, &sources);
            FusedBox {
                xyxy: mean(&c, i),
                score: c.members(i).iter().map(|m| w[m.list] * flat[m.index].1.score).sum::<f32>() / total,
                votes: s.votes,
                best_src_score: f32::from_bits(s.best),
            }
        })
        .collect();
    out.sort_by(|a, b| b.score.partial_cmp(&a.score).unwrap());
    out
}

fn b(x: f32, y: f32, s: f32, src: u32) -> WbfBox {
    WbfBox { xyxy: [x, y, x + 100.0, y + 100.0], score: s, src }
}

#[test]
fn two_models_confirming_each_other_gets_full_score() {
    let out = fuse(&[vec![b(0.0, 0.0, 0.9, 0)], vec![b(5.0, 0.0, 0.8, 1)]], &[], 0.55);
    assert_eq!(out.len(), 1);
    assert!((out[0].score - 0.85).abs() < 1e-4);
    assert_eq!(out[0].votes, 2);
    assert!((out[0].xyxy[0] - 2.5).abs() < 1e-3);
    assert!((out[0].best_src_score - 0.9).abs() < 1e-4);
}

#[test]
fn single_model_detection_score_damped() {
    let out = fuse(&[vec![b(0.0, 0.0, 0.9, 0)], vec![]], &[], 0.55);
    assert_eq!(out.len(), 1);
    assert!((out[0].score - 0.45).abs() < 1e-4);
    assert_eq!(out[0].votes, 1);
    assert!((out[0].best_src_score - 0.9).abs() < 1e-4);
}

#[test]
fn disjoint_boxes_stay_separate() {
    let out = fuse(&[vec![b(0.0, 0.0, 0.9, 0), b(300.0, 0.0, 0.7, 0)]], &[], 0.55);
    assert_eq!(out.len(), 2);
    assert_eq!(out[0].votes, 1);
    assert!(out[0].score > out[1].score);
}

#[test]
fn weights_bias_toward_trusted_model() {
    let out = fuse(&[vec![b(0.0, 0.0, 0.6, 0)], vec![b(4.0, 0.0, 0.8, 1)]], &[2.0, 1.0], 0.55);
    assert_eq!(out.len(), 1);
    assert!((out[0].score - (2.0 * 0.6 + 0.8) / 3.0).abs() < 1e-4);
    assert!((out[0].xyxy[0] - 4.0 / 3.0).abs() < 1e-3);
}

#[test]
fn same_model_duplicates_deduped_like_nms() {
    let out = fuse(&[vec![b(0.0, 0.0, 0.9, 0), b(10.0, 0.0, 0.5, 0)]], &[], 0.55);
    assert_eq!(out.len(), 1);
    assert!((out[0].score - 0.9).abs() < 1e-4);
    assert_eq!(out[0].votes, 1);
}

#[test]
fn empty_inputs_yield_empty() {
    assert!(fuse(&[], &[], 0.55).is_empty());
    assert!(fuse(&[vec![], vec![]], &[], 0.55).is_empty());
}

#[test]
fn boxes_are_placed() {
    let mut c = Clusters::new();
    let m = |list: usize, index: usize| Member { list, index };
    assert_eq!(c.place(m(0, 0), &vec![], 5), Placement::Started);
    assert_eq!(c.place(m(1, 1), &vec![4], 5), Placement::Started);
    assert_eq!(c.place(m(1, 2), &vec![5, 9], 5), Placement::Joined(0));
    assert_eq!(c.place(m(1, 3), &vec![5, 9], 5), Placement::Dropped(0));
    assert_eq!(c.members(0), &vec![m(0, 0), m(1, 2)]);
    let s = c.summary_of(0, &vec![7, 0, 7], &vec![10, 11, 12]);
    assert_eq!((s.best, s.source, s.votes), (7, 12, 2));
}

#[test]
fn anchors_match_expected_count_and_order() {
    let a = anchors(640, 640);
    assert_eq!(a.len(), 16800);
    assert_eq!(a[0], Anchor { cx: 4, cy: 4, size: 16 });
    assert_eq!(a[1].size, 32);
    assert_eq!(a[2], Anchor { cx: 12, cy: 4, size: 16 });
    assert_eq!(anchors(9, 1).len(), 2 * (2 + 1 + 1));
    assert_eq!(anchors(9, 1)[7], Anchor { cx: 16, cy: 16, size: 512 });
    assert!(outputs_ok(&[1, 3, 4], &[1, 3, 2], &[1, 3, 10], 3));
    assert!(!outputs_ok(&[1, 3, 4], &[1, 3, 2], &[1, 3, 10], 4));
}

#[test]
fn tiles_overlap_and_reach_the_end() {
    assert_eq!(tile_starts(1280), vec![0]);
    assert_eq!(tile_starts(1281), vec![0, 960]);
    assert_eq!(tile_starts(1920), vec![0, 960]);
    assert_eq!(tile_starts(3840), vec![0, 960, 1920, 2880]);
    assert!(tile_starts(0).is_empty());
}

#[test]
fn map_low_res_maps_valid_region() {
    let mut low = vec![0f32; 256 * 256];
    for y in 0..128 {
        for x in 0..128 {
            low[y * 256 + x] = 5.0;
        }
    }
    let bits: Vec<u32> = low.iter().map(|v| v.to_bits()).collect();
    let (w, h) = (1024usize, 1024);
    let out = map_low_res_to_frame(&bits, 1024, 1024, w, h);
    assert_eq!(out[0], 1);
    assert_eq!(out[511 * w + 511], 1);
    assert_eq!(out[512 * w], 0);
    assert_eq!(out[512], 0);
    assert_eq!(out[1023 * w + 1023], 0);
}

#[test]
fn the_best_candidate_is_taken() {
    let s = |v: &[f32]| v.iter().map(|x| x.to_bits()).collect::<Vec<_>>();
    assert_eq!(best_candidate(&s(&[0.1, 0.9, 0.9])), 1);
    assert_eq!(best_candidate(&s(&[-0.5, -0.2, -0.9])), 1);
    assert_eq!(best_candidate(&s(&[0.5, f32::NAN, 0.7, -f32::NAN])), 2);
    assert_eq!(best_candidate(&s(&[0.5, f32::NAN])), 0);
    assert_eq!(best_candidate(&s(&[f32::NAN, 0.9])), 0);
    assert_eq!(best_candidate(&s(&[0.5, f32::INFINITY])), 1);
    let mut low = vec![(-1.0f32).to_bits(); 256 * 256];
    low[0] = f32::NAN.to_bits();
    low[1] = 1e-30f32.to_bits();
    let m = map_low_res_to_frame(&low, 1024, 1024, 256, 256);
    assert_eq!((m[0], m[1], m[2]), (0, 1, 0));
}

#[test]
fn what_the_text_model_gets() {
    assert_eq!(&TEXT_IDS[..5], &[101, 2711, 1012, 102, 0]);
    assert_eq!(attention_mask(), [1, 1, 1, 1, 0, 0, 0, 0, 0, 0, 0, 0, 0, 0, 0, 0]);
    let m = pixel_mask(800, 450);
    assert_eq!((m[449 * 800 + 799], m[450 * 800], m.len()), (1, 0, 640000));
}

#[test]
fn small_pictures_and_their_match() {
    let f: Vec<u8> = (0..256 * 128).map(|i| (i % 256) as u8).collect();
    let d = downsample(&f, 256, 128);
    assert_eq!((d.len(), d[0], d[1], d[127]), (128 * 128, 0, 2, 254));
    assert_eq!(peak(&[1, 9, 3, 9, 2]), 3);
    assert_eq!((wrapped(3), wrapped(64), wrapped(65), wrapped(127)), (3, 64, -63, -1));
}

fn keys(rows: &[&[f32]]) -> Vec<Vec<u32>> {
    rows.iter().map(|r| r.iter().map(|v| v.to_bits()).collect()).collect()
}

#[test]
fn masklets_keep_their_numbers() {
    let mut m = MaskletMemory::new();
    assert_eq!(m.link(&keys(&[&[], &[]])).ids, vec![1, 2]);
    let r = m.link(&keys(&[&[0.5, 0.6], &[0.4, 0.9]]));
    assert_eq!(r.ids, vec![1, 2]);
    assert_eq!(r.of, vec![Some(0), Some(1)]);
    let r = m.link(&keys(&[&[0.3, 0.31]]));
    assert_eq!(r.ids, vec![2]);
    let r = m.link(&keys(&[&[0.3, 0.3]]));
    assert_eq!((r.ids, r.of), (vec![3], vec![None]));
    assert_eq!(m.active_masklets(), 3);
}

#[test]
fn masklets_are_forgotten() {
    let mut m = MaskletMemory::new();
    m.link(&keys(&[&[]]));
    for missed in 1..=8u32 {
        m.link(&vec![]);
        assert_eq!(m.masklets()[0].missed, missed);
    }
    m.link(&vec![]);
    assert_eq!(m.active_masklets(), 0);
    assert_eq!(m.link(&keys(&[&[]])).ids, vec![2]);
}

#[test]
fn votes_are_bounded_by_lists_and_boxes() {
    let mut c = Clusters::new();
    let m = |list: usize, index: usize| Member { list, index };
    c.place(m(0, 0), &vec![], 5);
    c.place(m(1, 1), &vec![9], 5);
    c.place(m(1, 2), &vec![9], 5);
    c.place(m(0, 3), &vec![1], 5);
    c.place(m(1, 4), &vec![2, 8], 5);
    let scores = vec![9u32, 8, 7, 6, 5];
    let votes: Vec<u32> = (0..c.len()).map(|i| c.summary_of(i, &scores, &scores).votes).collect();
    assert_eq!(votes, [2, 2]);
    assert!(votes.iter().sum::<u32>() <= 5);
}

#[test]
fn weights_are_one_if_none_are_given() {
    let one = 1f32.to_bits();
    assert_eq!(weights_for(&[], 3), [one; 3]);
    assert_eq!(weights_for(&[one; 3], 3), weights_for(&[], 3));
    assert_eq!(weights_for(&[2f32.to_bits(), one], 2), [2f32.to_bits(), one]);
}

#[test]
fn what_comes_of_fusing() {
    assert!(fuse(&[vec![], vec![]], &[], 0.55).is_empty());
    let lists = [vec![b(0.0, 0.0, 0.3, 0), b(500.0, 0.0, 0.9, 0)], vec![b(5.0, 0.0, 0.6, 1)]];
    let out = fuse(&lists, &[], 0.55);
    assert_eq!(out.len(), 2);
    assert!(out.windows(2).all(|p| p[0].score >= p[1].score));
    assert!(out.iter().all(|f| (1..=2).contains(&f.votes)));
    let mut best: Vec<f32> = out.iter().map(|f| f.best_src_score).collect();
    best.sort_by(f32::total_cmp);
    assert_eq!(best, [0.6, 0.9]);
}
