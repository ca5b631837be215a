use automosaic::archive::{
    box_area_overlap, choose_source, keep_fused, place_faces, FaceSpot, FusedKey, MaskSource, Person, Share,
};
use automosaic::compose::Region;
use automosaic::decode::{
    decode_face, decode_person_anchor, decode_person_e2e, does_reach, face_output, grid_cell, grid_output_ok, is_below, key,
    person_output, proto_output, FACE_ROWS, PROTO_DIM, ROWS,
};
use automosaic::detect::{
    face_input_size, face_layout, filter_implausible_faces, gate_faces, probe_io, rect_mask, DetectError, FaceLayout,
    FaceShape, ModelIo, OutputLayout, PersonInstance, INPUT_SIZE,
};
use automosaic::nms::{face_nms, merge_faces, nms, suppress};
use automosaic::remap::{crop_nv12, draw_crop, face_cover, unletterbox_into};

fn iou(a: &[f32; 4], b: &[f32; 4]) -> f32 {
    let (ix1, iy1) = (a[0].max(b[0]), a[1].max(b[1]));
    let (ix2, iy2) = (a[2].min(b[2]), a[3].min(b[3]));
    let inter = (ix2 - ix1).max(0.0) * (iy2 - iy1).max(0.0);
    let aa = (a[2] - a[0]).max(0.0) * (a[3] - a[1]).max(0.0);
    let ab = (b[2] - b[0]).max(0.0) * (b[3] - b[1]).max(0.0);
    if aa + ab <= 0.0 {
        0.0
    } else {
        inter / (aa + ab - inter)
    }
}

fn overlaps(b: &[[f32; 4]]) -> Vec<Vec<u32>> {
    b.iter().map(|x| b.iter().map(|y| iou(x, y).to_bits()).collect()).collect()
}

fn bits(s: &[f32]) -> Vec<u32> {
    s.iter().map(|v| v.to_bits()).collect()
}

fn rounded(b: [f32; 4]) -> [usize; 4] {
    [b[0].max(0.0) as usize, b[1].max(0.0) as usize, b[2].ceil() as usize, b[3].ceil() as usize]
}

fn with_margin(b: [f32; 4], m: f32) -> [usize; 4] {
    let (mw, mh) = ((b[2] - b[0]) * m, (b[3] - b[1]) * m);
    rounded([b[0] - mw, b[1] - mh, b[2] + mw, b[3] + mh])
}

#[test]
fn unletterbox_flip_mirrors_box_and_mask() {
    let (w, h) = (16, 4);
    let mut m = vec![0u8; w * w];
    for y in 0..w {
        for x in 0..4 {
            m[y * w + x] = 1;
        }
    }
    let mut out = vec![0u8; w * h];
    unletterbox_into(&m, w, &(0..h).collect(), &(0..w).collect(), w, h, true, &mut out);
    assert_eq!(out[12], 1);
    assert_eq!(out[3], 0);
    assert_eq!(out[(h - 1) * w + 15], 1);
}

#[test]
fn unletterbox_maps_back() {
    let m = vec![1u8; INPUT_SIZE * INPUT_SIZE];
    let mut out = vec![0u8; 640 * 200];
    unletterbox_into(&m, INPUT_SIZE, &(0..200).collect(), &(0..640).collect(), 640, 200, false, &mut out);
    assert!(out.iter().all(|&v| v == 1));
}

#[test]
fn merge_instances_dedups_and_keeps_high_score() {
    let mk = |x: f32| [x, 0.0, x + 100.0, 100.0];
    let boxes = [mk(0.0), mk(5.0), mk(300.0)];
    let scores = [0.9f32, 0.7, 0.6];
    let kept = nms(&bits(&scores), &overlaps(&boxes));
    assert_eq!(kept.len(), 2);
    assert_eq!(scores[kept[0]], 0.9);
    assert_eq!(boxes[kept[1]][0], 300.0);
}

#[test]
fn nms_suppresses_overlap() {
    let mk = |x: f32| [x, 0.0, x + 100.0, 100.0];
    let boxes = [mk(0.0), mk(10.0), mk(200.0)];
    let kept = suppress(&bits(&[0.9, 0.8, 0.7]), &overlaps(&boxes), 0.45f32.to_bits(), 300);
    assert_eq!(kept.len(), 2);
    assert_eq!(boxes[kept[0]][0], 0.0);
    assert_eq!(boxes[kept[1]][0], 200.0);
}

#[test]
fn merge_faces_dedups_by_iou_keeps_high_score() {
    let boxes = [
        [100.0, 100.0, 150.0, 150.0],
        [102.0, 101.0, 151.0, 149.0],
        [400.0, 400.0, 450.0, 450.0],
    ];
    let scores = [0.9f32, 0.6, 0.5];
    let kept = merge_faces(&bits(&scores), &overlaps(&boxes), 0.6f32.to_bits());
    assert_eq!(kept.len(), 2);
    assert!(kept.iter().any(|&i| scores[i] == 0.9));
    assert!(kept.iter().any(|&i| scores[i] == 0.5));
}

#[test]
fn no_more_than_so_many_are_kept() {
    let boxes: Vec<[f32; 4]> = (0..5).map(|i| [i as f32 * 10.0, 0.0, i as f32 * 10.0 + 5.0, 5.0]).collect();
    let scores = bits(&[0.1, 0.5, 0.3, 0.5, 0.2]);
    assert_eq!(suppress(&scores, &overlaps(&boxes), 0.5f32.to_bits(), 3), vec![1, 3, 2]);
    assert_eq!(face_nms(&scores, &overlaps(&boxes)), vec![1, 3, 2, 4, 0]);
    assert!(nms(&[], &vec![]).is_empty());
}

fn make_output0(score: f32, n: usize) -> (Vec<i64>, Vec<u32>) {
    let mut o0 = vec![0f32; ROWS * n];
    let c = 5;
    o0[c] = 320.0;
    o0[n + c] = 320.0;
    o0[2 * n + c] = 100.0;
    o0[3 * n + c] = 100.0;
    o0[4 * n + c] = score;
    (vec![1, ROWS as i64, n as i64], bits(&o0))
}

#[test]
fn decode_filters_by_conf_and_decodes_box() {
    let io = ModelIo { layout: OutputLayout::Anchor, input_size: 640, proto_size: Some(160) };
    let (shape, o0) = make_output0(0.8, 10);
    let (_, n) = person_output(io, 1, &shape).unwrap();
    let dets = decode_person_anchor(&o0, n, 0.5f32.to_bits());
    assert_eq!(dets.len(), 1);
    let g = dets[0].geometry.map(f32::from_bits);
    assert_eq!([g[0] - g[2] * 0.5, g[1] - g[3] * 0.5, g[0] + g[2] * 0.5, g[1] + g[3] * 0.5], [270.0, 270.0, 370.0, 370.0]);

    let (shape2, o02) = make_output0(0.3, 10);
    let (_, n) = person_output(io, 1, &shape2).unwrap();
    assert!(decode_person_anchor(&o02, n, 0.5f32.to_bits()).is_empty());
}

#[test]
fn decode_e2e_filters_class_and_conf() {
    let stride = 4 + 1 + 1 + PROTO_DIM;
    let mut o0 = vec![0f32; 3 * stride];
    for (r, &(score, class)) in [(0.9f32, 0.0f32), (0.95, 45.0), (0.2, 0.0)].iter().enumerate() {
        let b = r * stride;
        o0[b..b + 4].copy_from_slice(&[10.0, 20.0, 110.0, 220.0]);
        o0[b + 4] = score;
        o0[b + 5] = class;
        o0[b + 6] = 1.5;
    }
    let dets = decode_person_e2e(&bits(&o0), 3, stride, 0.35f32.to_bits());
    assert_eq!(dets.len(), 1);
    assert_eq!(dets[0].geometry.map(f32::from_bits), [10.0, 20.0, 110.0, 220.0]);
    assert_eq!(f32::from_bits(dets[0].coeffs[0]), 1.5);

    let mut o6 = vec![0f32; stride];
    o6[..4].copy_from_slice(&[1.0, 2.0, 3.0, 4.0]);
    o6[4] = 0.8;
    o6[5] = 0.0;
    let dets = decode_person_e2e(&bits(&o6), 1, 6, 0.35f32.to_bits());
    assert_eq!(dets.len(), 1);
    assert_eq!(dets[0].coeffs, vec![0; PROTO_DIM]);
}

#[test]
fn eyes_are_taken_if_both_are_seen() {
    let n = 2;
    let mut o = vec![0f32; FACE_ROWS * n];
    for c in 0..n {
        for r in 0..4 {
            o[r * n + c] = (10 * r + c) as f32;
        }
        o[4 * n + c] = 0.9;
        for r in 5..11 {
            o[r * n + c] = r as f32;
        }
    }
    o[7 * n + 1] = 0.4;
    let f = decode_face(&bits(&o), n, 0.5f32.to_bits());
    assert_eq!(f.len(), 2);
    assert_eq!(f[0].geometry.map(f32::from_bits), [0.0, 10.0, 20.0, 30.0]);
    assert_eq!(f[0].eyes.unwrap().map(f32::from_bits), [5.0, 6.0, 8.0, 9.0]);
    assert!(f[1].eyes.is_none());
    assert!(decode_face(&bits(&o), n, 0.95f32.to_bits()).is_empty());
}

#[test]
fn what_is_no_number_is_not_compared() {
    let nan = [f32::NAN, -f32::NAN];
    let all = [-f32::INFINITY, -1.0, -0.0, 0.0, 0.5, f32::INFINITY, nan[0], nan[1]];
    for a in all {
        for b in all {
            assert_eq!(is_below(a.to_bits(), b.to_bits()), a < b, "{a} {b}");
            assert_eq!(does_reach(a.to_bits(), b.to_bits()), a >= b, "{a} {b}");
        }
    }
    for v in nan {
        // A score that is no number is not below the least one.
        let (_, o) = make_output0(v, 10);
        let least = 0.5f32.to_bits();
        assert!(decode_person_anchor(&o, 10, least).iter().any(|d| d.score == v.to_bits()));
        let row = bits(&[1.0, 2.0, 3.0, 4.0, v, 0.0]);
        assert_eq!(decode_person_e2e(&row, 1, 6, least).len(), 1);
        let mut o = vec![9f32; FACE_ROWS];
        o[4] = v;
        assert!(decode_face(&bits(&o), 1, least)[0].eyes.is_some());
        o[10] = v;
        assert!(decode_face(&bits(&o), 1, least)[0].eyes.is_none());
    }
}

#[test]
fn keys_are_ordered_as_numbers_are() {
    let v = [-3.5f32, -1.0, -0.0, 0.0, 1e-30, 0.5, 2.0, 1e30];
    for a in v {
        for b in v {
            assert_eq!(a < b, key(a.to_bits()) < key(b.to_bits()), "{a} {b}");
        }
    }
}

#[test]
fn rect_mask_inflates_by_margin() {
    let m = rect_mask(with_margin([100.0, 100.0, 200.0, 200.0], 0.05), 640, 480);
    assert_eq!(m[100 * 640 + 100], 1);
    assert_eq!(m[95 * 640 + 95], 1);
    assert_eq!(m[105 * 640 + 204], 1);
    assert_eq!(m[105 * 640 + 205], 0);
    assert_eq!(m[90 * 640 + 90], 0);
    let area: usize = m.iter().map(|&v| v as usize).sum();
    assert_eq!(area, 110 * 110);
}

#[test]
fn rect_mask_inflates() {
    let m = rect_mask(with_margin([100.0, 100.0, 200.0, 200.0], 0.05), 640, 480);
    assert_eq!(m[100 * 640 + 100], 1);
    assert_eq!(m[95 * 640 + 95], 1);
    assert_eq!(m[90 * 640 + 90], 0);
}

#[test]
fn box_area_overlap_measures_containment() {
    let (w, h) = (64, 64);
    let mut m = vec![0u8; w * h];
    for y in 0..32 {
        for x in 0..32 {
            m[y * w + x] = 1;
        }
    }
    let part = |s: Share| s.hit as f32 / s.total as f32;
    assert!(part(box_area_overlap(rounded([0.0, 0.0, 32.0, 32.0]), &m, w)) > 0.9);
    assert!(part(box_area_overlap(rounded([32.0, 32.0, 64.0, 64.0]), &m, w)) < 0.1);
    assert_eq!(box_area_overlap([0, 0, 64, 64], &m, w), Share { hit: 64, total: 256 });
}

fn hosted(f: [f32; 4], persons: &[[f32; 4]]) -> bool {
    let (cx, cy) = ((f[0] + f[2]) * 0.5, (f[1] + f[3]) * 0.5);
    persons.iter().any(|p| {
        let (ex, ey) = ((p[2] - p[0]) * 0.08, (p[3] - p[1]) * 0.08);
        cx >= p[0] - ex && cx <= p[2] + ex && cy >= p[1] - ey && cy <= p[3] + ey
    })
}

#[test]
fn gate_faces_filters_outside_person() {
    let faces = [
        [100.0, 100.0, 150.0, 150.0],
        [800.0, 800.0, 850.0, 850.0],
        [900.0, 100.0, 960.0, 160.0],
    ];
    let persons = [[80.0, 80.0, 400.0, 600.0]];
    let h: Vec<bool> = faces.iter().map(|f| hosted(*f, &persons)).collect();
    let kept = gate_faces(&bits(&[0.30, 0.55, 0.75]), &h, 0.6f32.to_bits());
    assert_eq!(kept.len(), 2);
    assert!(kept.iter().all(|&i| faces[i][0] != 800.0));
}

#[test]
fn gate_faces_empty_persons_keeps_high_score_only() {
    let scores = [0.40f32, 0.70];
    let kept = gate_faces(&bits(&scores), &[false, false], 0.6f32.to_bits());
    assert_eq!(kept.len(), 1);
    assert_eq!(scores[kept[0]], 0.70);
}

fn shape(f: [f32; 4], persons: &[[f32; 4]]) -> FaceShape {
    let (fw, fh) = (f[2] - f[0], f[3] - f[1]);
    let (cx, cy) = ((f[0] + f[2]) * 0.5, (f[1] + f[3]) * 0.5);
    FaceShape {
        solid: fw > 0.0 && fh > 0.0,
        ratio: (fw / fh).to_bits(),
        inside: persons.iter().map(|p| cx >= p[0] && cx <= p[2] && cy >= p[1] && cy <= p[3]).collect(),
        shares: persons
            .iter()
            .map(|p| {
                let ph = p[3] - p[1];
                if ph <= 0.0 {
                    None
                } else {
                    Some((fh / ph).to_bits())
                }
            })
            .collect(),
    }
}

#[test]
fn filter_implausible_faces_rejects_bad_geometry() {
    let person = [[100.0, 100.0, 200.0, 1000.0]];
    let mk = |x: f32, y: f32, w: f32, h: f32| [x, y, x + w, y + h];
    let all = [
        mk(120.0, 110.0, 60.0, 80.0),
        mk(110.0, 300.0, 80.0, 100.0),
        mk(110.0, 400.0, 80.0, 500.0),
        mk(110.0, 200.0, 90.0, 10.0),
        mk(110.0, 200.0, 10.0, 90.0),
        mk(800.0, 800.0, 80.0, 100.0),
    ];
    let shapes: Vec<FaceShape> = all.iter().map(|f| shape(*f, &person)).collect();
    let kept = filter_implausible_faces(&shapes);
    assert_eq!(kept.len(), 3);
    assert!(kept.iter().all(|&i| {
        let (fw, fh) = (all[i][2] - all[i][0], all[i][3] - all[i][1]);
        (0.5..=1.8).contains(&(fw / fh))
    }));
    assert!(filter_implausible_faces(&vec![shape([5.0, 5.0, 5.0, 5.0], &person)]).is_empty());
}

#[test]
fn crop_nv12_extracts_aligned_subframe() {
    let (w, h) = (8, 8);
    let mut nv12 = vec![0u8; w * h * 3 / 2];
    for y in 0..h {
        for x in 0..w {
            nv12[y * w + x] = (y * 8 + x) as u8;
        }
    }
    let (cw, ch, ox, oy, crop) = crop_nv12(&nv12, w, h, rounded([2.3, 2.9, 6.7, 6.2]));
    assert_eq!((cw, ch, ox, oy), (4, 5, 2, 2));
    assert_eq!(crop.len(), cw * ch * 3 / 2);
    for dy in 0..ch {
        for dx in 0..cw {
            assert_eq!(crop[dy * cw + dx], nv12[(oy + dy) * w + ox + dx]);
        }
    }
    let uv_off = cw * ch;
    for dy in 0..ch / 2 {
        for dx in 0..cw {
            assert_eq!(crop[uv_off + dy * cw + dx], nv12[w * h + (oy / 2 + dy) * w + ox + dx]);
        }
    }
}

#[test]
fn crop_nv12_clamps_out_of_bounds_roi() {
    let (w, h) = (16, 16);
    let nv12 = vec![7u8; w * h * 3 / 2];
    let (cw, ch, ox, oy, crop) = crop_nv12(&nv12, w, h, rounded([-50.0, -50.0, 999.0, 999.0]));
    assert_eq!((cw, ch, ox, oy), (w, h, 0, 0));
    assert_eq!(crop.len(), w * h * 3 / 2);
}

#[test]
fn mask_from_uniform_proto_matches_box_region() {
    let crop = vec![1u8; 25 * 25];
    let m = draw_crop(&crop, 25, 25, 100, 100, 100, 100, 960);
    assert_eq!(m[100 * 960 + 100], 1);
    assert_eq!(m[150 * 960 + 150], 1);
    assert_eq!(m[50 * 960 + 50], 0);
    let area: usize = m.iter().map(|&v| v as usize).sum();
    assert_eq!(area, 100 * 100);
}

#[test]
fn small_masks_are_stretched() {
    let m = draw_crop(&[1, 0, 0, 1], 2, 2, 1, 1, 4, 4, 6);
    assert_eq!(m[6 + 1], 1);
    assert_eq!(m[2 * 6 + 2], 1);
    assert_eq!(m[6 + 3], 0);
    assert_eq!(m[4 * 6 + 4], 1);
    assert_eq!(m.iter().map(|&v| v as usize).sum::<usize>(), 8);
}

#[test]
fn faces_are_covered_up_to_the_edge() {
    assert_eq!(face_cover([5, 5, 9, 9], 12, 2, 20, 20), Region { x1: 0, y1: 3, x2: 20, y2: 12 });
}

#[test]
fn models_are_probed_by_their_shapes() {
    let input = Some(vec![1, 3, 640, 640]);
    let anchor = Some(vec![1, 116, 8400]);
    let proto = Some(vec![1, 32, 160, 160]);
    assert_eq!(
        probe_io(&input, &anchor, &proto).unwrap(),
        ModelIo { layout: OutputLayout::Anchor, input_size: 640, proto_size: Some(160) }
    );
    let e2e = probe_io(&input, &Some(vec![1, 300, 6]), &None).unwrap();
    assert_eq!(e2e, ModelIo { layout: OutputLayout::E2E, input_size: 640, proto_size: None });
    assert!(matches!(probe_io(&Some(vec![1, 3, 640, 320]), &anchor, &None), Err(DetectError::BadModel)));
    assert!(matches!(probe_io(&None, &anchor, &None), Err(DetectError::BadModel)));
    assert!(matches!(probe_io(&input, &Some(vec![1, -1, 6]), &None), Err(DetectError::BadModel)));
    assert_eq!(face_input_size(&Some(vec![1, 3, -1, -1])), 640);
    assert_eq!(face_input_size(&Some(vec![1, 3, 320, 320])), 320);
    assert_eq!(face_layout(&vec!["output0".into()]), FaceLayout::YoloAnchor);
    assert_eq!(face_layout(&vec!["obj_8".into(), "cls_8".into()]), FaceLayout::YuNet);
}

#[test]
fn outputs_have_to_have_the_right_shape() {
    let io = ModelIo { layout: OutputLayout::E2E, input_size: 640, proto_size: None };
    assert_eq!(person_output(io, 2, &[2, 300, 38]).unwrap(), (38, 300));
    let e = person_output(io, 1, &[1, 300, 39]).unwrap_err();
    assert_eq!(e.message(), "模型输出形状异常：output0 期望 [1,116,N]，实际 [1, 300, 39]");
    assert!(person_output(io, 1, &[2, 300, 38]).is_err());
    assert!(proto_output(160, 1, &[1, 32, 160, 160]).is_ok());
    assert!(proto_output(160, 1, &[1, 32, 80, 80]).is_err());
    assert_eq!(face_output(1, &[1, 20, 8400]).unwrap(), 8400);
    assert!(face_output(1, &[1, 21, 8400]).is_err());
    assert!(grid_output_ok(&[1, 6400, 4], 6400, 4));
    assert!(!grid_output_ok(&[1, 6400, 4], 6400, 10));
    assert_eq!(grid_cell(83, 80), (1, 3));
}

#[test]
fn detection_errors_say_what_is_wrong() {
    assert_eq!(
        DetectError::ModelNotFound("m.onnx".into()).message(),
        "模型文件不存在: m.onnx（可用 scripts/export_models.sh 生成）"
    );
    assert_eq!(DetectError::Ort("x".into()).message(), "ort 错误: x");
    assert_eq!(
        DetectError::BadModel.message(),
        "模型输入/输出形状无法识别（期望 images [N,3,S,S] + output0/output1）"
    );
    assert_eq!(
        DetectError::BadOutput { actual: vec![-1] }.message(),
        "模型输出形状异常：output0 期望 [1,116,N]，实际 [-1]"
    );
}

#[test]
fn boxes_of_one_detector_need_a_score() {
    let f = |votes: usize, score: f32, best: f32| FusedKey { votes, score: score.to_bits(), best: best.to_bits() };
    let list = vec![f(2, 0.01, 0.01), f(1, 0.05, 0.05), f(1, 0.1, 0.1), f(1, 0.05, 0.2)];
    assert_eq!(keep_fused(&list, 0.15f32.to_bits()), vec![0, 2, 3]);
}

#[test]
fn masks_come_from_the_best_source() {
    let (w, h) = (16, 16);
    let p = |score: f32, v: u8| PersonInstance {
        score: score.to_bits(),
        xyxy: [0; 4],
        mask: vec![v; w * h],
    };
    let found = vec![p(0.5, 1), p(0.9, 1), p(0.9, 0)];
    let over = bits(&[0.6, 0.6, 0.6]);
    let min = 0.5f32.to_bits();
    assert_eq!(choose_source(0.8f32.to_bits(), min, &found, &over, [0, 0, 16, 16], w), MaskSource::Refined);
    assert_eq!(choose_source(0.4f32.to_bits(), min, &found, &over, [0, 0, 16, 16], w), MaskSource::Rectangle);
    let over = bits(&[0.6, 0.6, 0.5]);
    assert_eq!(choose_source(0.4f32.to_bits(), min, &found, &over, [0, 0, 16, 16], w), MaskSource::Detection(1));
    assert_eq!(choose_source(0.4f32.to_bits(), min, &vec![], &vec![], [0, 0, 16, 16], w), MaskSource::Rectangle);
}

#[test]
fn faces_go_to_the_person_they_belong_to() {
    let (w, h) = (16, 16);
    let mut people = vec![
        Person { xyxy: [0, 0, 8, 8], mask: vec![0; w * h] },
        Person { xyxy: [0, 0, 16, 16], mask: vec![1; w * h] },
    ];
    people[1].mask[0] = 0;
    let cover = Region { x1: 0, y1: 0, x2: 2, y2: 2 };
    let faces = vec![
        FaceSpot { inside: vec![true, true], cover },
        FaceSpot { inside: vec![true, false], cover },
    ];
    assert_eq!(place_faces(&mut people, &faces, w, h), vec![1]);
    assert_eq!(people[1].mask[0], 1);
    assert!(people[0].mask.iter().all(|&v| v == 0));
}
