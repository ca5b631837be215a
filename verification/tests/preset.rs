use automosaic::preset::{QualityPreset, CONF_LOWER, CONF_LOWEST, CONF_USUAL};

#[test]
fn preset_ids_roundtrip() {
    for p in QualityPreset::ALL {
        assert_eq!(QualityPreset::from_id(p.id()), Some(p));
    }
    assert_eq!(QualityPreset::from_id("bogus"), None);
}

#[test]
fn speed_uses_box_model_full_frame() {
    let p = QualityPreset::Speed.params().unwrap();
    assert_eq!(p.body_model, "yolo26n.onnx");
    assert_eq!(p.face_model, "face_detection_yunet_2023mar.onnx");
    assert_eq!(p.detect_every, 1);
    assert!(p.track);
}

#[test]
fn balanced_is_n_seg_full_frame() {
    let p = QualityPreset::Balanced.params().unwrap();
    assert_eq!(p.body_model, "yolo26n-seg.onnx");
    assert_eq!(p.detect_every, 1);
    assert!(p.smooth);
}

#[test]
fn accurate_extreme_full_frame() {
    assert_eq!(QualityPreset::Accurate.params().unwrap().detect_every, 1);
    assert_eq!(QualityPreset::Extreme.params().unwrap().detect_every, 1);
}

#[test]
fn tta_only_on_extreme() {
    assert!(!QualityPreset::Speed.params().unwrap().tta);
    assert!(!QualityPreset::Balanced.params().unwrap().tta);
    assert!(!QualityPreset::Accurate.params().unwrap().tta);
    assert!(QualityPreset::Extreme.params().unwrap().tta);
}

#[test]
fn archive_expands_ensemble_models() {
    let p = QualityPreset::Archive.params().unwrap();
    assert_eq!(p.body_model, "yolo26x-seg-1536.onnx");
    assert!(p.face_model.is_empty());
    let a = p.archive.expect("models");
    assert_eq!(a.gd, "grounding-dino-tiny.onnx");
    assert_eq!(a.sam_encoder, "sam2.1-large-encoder.onnx");
    assert_eq!(a.retina, "retinaface-r34.onnx");
    assert_eq!(a.reid, "osnet-x025-msmt17.onnx");
    assert!(p.tta);
    assert!(QualityPreset::Balanced.params().unwrap().archive.is_none());
}

#[test]
fn labels_and_scores() {
    assert_eq!(QualityPreset::Speed.label(), "速度");
    assert_eq!(QualityPreset::Archive.label(), "极限·档案级");
    assert_eq!(f32::from_bits(CONF_USUAL), 0.35);
    assert_eq!(f32::from_bits(CONF_LOWER), 0.30);
    assert_eq!(f32::from_bits(CONF_LOWEST), 0.25);
    assert_eq!(QualityPreset::Extreme.params().unwrap().conf, CONF_LOWER);
    assert_eq!(QualityPreset::Archive.params().unwrap().conf, CONF_LOWEST);
    assert!(QualityPreset::Extreme.params().unwrap().face_roi);
}
