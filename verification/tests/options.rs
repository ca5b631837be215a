use automosaic::api::{list_presets, provider_for, PresetFiles, Provider};
use automosaic::archive::{ArchiveInstance, ArchiveModelPaths, KIND_FACE, KIND_PERSON};
use automosaic::compose::MaskStyle;
use automosaic::debug::{
    combinations, count_set, draw_rect, finish_mask, held_frames, overlay_mask, parse_bool, parse_sweep, plain_mask,
    track_color, wants_picture, DebugConfig, FrameFacts,
};
use automosaic::detect::PersonInstance;
use automosaic::maskstore::{MaskMeta, MaskStoreError, Patch, PatchOp, PatchStore};
use automosaic::media::{FrameFormat, Platform};
use automosaic::models::{Manifest, ManifestEntry};
use automosaic::options::{
    batch_variant, cache_key, compact_stderr, effective_opts, merge_params, parse_pipe_format, parse_sam_size,
    parse_style, queue_output, resolve_drain, resolve_encoders, resolve_hwaccel, resolve_hwaccels, sam_models, Found,
    Given, SamSize, Wish,
};
use automosaic::preset::CONF_USUAL;
use automosaic::stages::{
    corrected_frames, frames_added, is_complete, merged_mask, render_frame, skip_count, start_frame,
};

fn wish(preset: &str) -> Wish {
    Wish {
        preset: preset.into(),
        conf: 0.35f32.to_bits(),
        model_path: None,
        face: true,
        face_expand: 0,
        detect_every: 0,
        face_roi: 0,
        batch: 0,
        tta: 0,
    }
}

fn found(exists: bool) -> Found {
    Found {
        body: "models/yolo26n-seg.onnx".into(),
        body_exists: exists,
        face: Some("models/yolo11n-face-pose.onnx".into()),
    }
}

#[test]
fn effective_opts_resolves_preset_models_and_overrides() {
    let err = match effective_opts(&wish("balanced"), &found(false)) {
        Err(e) => e,
        Ok(_) => panic!("no models"),
    };
    assert!(err.contains("yolo26n-seg"), "{err}");
    let e = effective_opts(&wish("balanced"), &found(true)).unwrap();
    assert!(e.body.contains("yolo26n-seg"));
    assert_eq!(e.detect_every, 1);
    assert!(e.face.is_some());

    let mut o = wish("speed");
    o.detect_every = 1;
    o.batch = 1;
    o.face_expand = 20;
    let e = effective_opts(&o, &found(true)).unwrap();
    assert_eq!((e.detect_every, e.batch, e.face_expand), (1, 1, 20));
}

#[test]
fn effective_opts_rejects_unknown_and_archive() {
    assert!(effective_opts(&wish("bogus"), &found(true)).is_err());
    assert!(effective_opts(&wish("archive"), &found(true)).is_err());
}

#[test]
fn wishes_come_before_presets() {
    let mut w = wish("extreme");
    let e = effective_opts(&w, &found(true)).unwrap();
    assert_eq!((e.face_roi, e.tta, e.batch, e.face_expand), (true, true, 4, 12));
    w.face_roi = 2;
    w.tta = 2;
    w.face = false;
    w.model_path = Some("my.onnx".into());
    let e = effective_opts(&w, &found(false)).unwrap();
    assert_eq!((e.face_roi, e.tta, e.face.is_none(), e.body.as_str()), (false, false, true, "my.onnx"));
    w.model_path = Some(String::new());
    assert_eq!(
        effective_opts(&w, &found(false)).unwrap_err(),
        "预设[极致]缺少人体模型 yolo26x-seg.onnx（运行 scripts/export_models.sh 或放入 models/）"
    );
}

fn given() -> Given {
    Given {
        model: None,
        face_model: None,
        conf: None,
        face_expand: None,
        batch: None,
        detect_every: None,
        no_face: false,
        face_roi: false,
        tta: None,
    }
}

#[test]
fn settings_without_a_preset() {
    let e = merge_params(None, &given(), &found(false)).unwrap();
    assert_eq!(e.model, "models/yolo11n-seg.onnx");
    assert_eq!(e.face_model.as_deref(), Some("models/yolov8n-face.onnx"));
    assert_eq!((e.conf, e.face_expand, e.batch, e.detect_every), (CONF_USUAL, 12, 4, 1));
    assert_eq!((e.face_roi, e.tta, e.preset_label.as_str()), (false, false, "无预设（显式参数）"));
}

#[test]
fn settings_with_a_preset() {
    let mut g = given();
    let e = merge_params(Some("extreme"), &g, &found(true)).unwrap();
    assert_eq!(e.model, "models/yolo26n-seg.onnx");
    assert_eq!((e.face_roi, e.tta, e.preset_label.as_str()), (true, true, "预设=极致"));
    assert_eq!(f32::from_bits(e.conf), 0.30);
    g.tta = Some(false);
    g.no_face = true;
    g.batch = Some(2);
    g.model = Some("mine.onnx".into());
    let e = merge_params(Some("extreme"), &g, &found(true)).unwrap();
    assert_eq!((e.tta, e.face_model.is_none(), e.batch, e.model.as_str()), (false, true, 2, "mine.onnx"));
    assert_eq!(
        merge_params(Some("extreme"), &g, &found(false)).unwrap_err(),
        "预设[极致]缺少人体模型 yolo26x-seg.onnx（运行 scripts/export_models.sh 导出或在设置中下载）"
    );
    assert_eq!(
        merge_params(Some("x"), &g, &found(true)).unwrap_err(),
        "未知预设 x（可选 speed/balanced/accurate/extreme；archive 档走两阶段 analyze → render）"
    );
    let mut f = found(true);
    f.face = None;
    let e = merge_params(Some("speed"), &given(), &f).unwrap();
    assert_eq!(e.face_model.as_deref(), Some("face_detection_yunet_2023mar.onnx"));
}

#[test]
fn styles_and_formats() {
    assert_eq!(parse_style("mosaic", 35), Ok(MaskStyle::Mosaic { cell: 35 }));
    assert_eq!(parse_style("mosaic", 1), Ok(MaskStyle::Mosaic { cell: 2 }));
    assert_eq!(parse_style("mosaic", 999), Ok(MaskStyle::Mosaic { cell: 128 }));
    assert_eq!(parse_style("blur", 0), Ok(MaskStyle::Blur { radius: 1 }));
    assert_eq!(parse_style("blur", 99), Ok(MaskStyle::Blur { radius: 64 }));
    assert_eq!(parse_style("solid", 0), Ok(MaskStyle::Solid));
    assert_eq!(parse_style("x", 0), Err("未知样式 x（可选 mosaic/blur/solid）".into()));
    assert_eq!(parse_pipe_format("nv12"), Ok(FrameFormat::Nv12));
    assert_eq!(parse_pipe_format("mjpeg"), Ok(FrameFormat::Mjpeg));
    assert_eq!(parse_pipe_format("y"), Err("未知管道格式 y（可选 nv12/mjpeg）".into()));
    assert_eq!(FrameFormat::default(), FrameFormat::Nv12);
    assert_eq!(parse_sam_size("tiny", ""), Ok(SamSize::Tiny));
    assert_eq!(parse_sam_size("z", "（可选 large/tiny）"), Err("未知 SAM 规格 z（可选 large/tiny）".into()));
    assert_eq!(sam_models(SamSize::Large), ("sam2.1-large-encoder.onnx", "sam2.1-large-decoder.onnx"));
}

#[test]
fn names_of_files() {
    assert_eq!(batch_variant(Platform::Unix, "models/yolo.v1.onnx", 4), "models/yolo.v1-b4.onnx");
    assert_eq!(batch_variant(Platform::Unix, "yolo.onnx", 2), "yolo-b2.onnx");
    assert_eq!(batch_variant(Platform::Unix, "/yolo", 2), "/yolo-b2.onnx");
    assert_eq!(queue_output(Platform::Unix, "out", "/v/a.b.mp4"), "out/a.b_mosaic.mp4");
    assert_eq!(queue_output(Platform::Unix, "out", ".."), "out/out_mosaic.mp4");
    assert_eq!(cache_key("m.onnx", true, "cpu", "0.35", false), "m.onnx|use_face=true|cpu|0.35|tta=false");
}

#[test]
fn decoders_and_encoders_to_try() {
    let s = |v: &[&str]| v.iter().map(|x| x.to_string()).collect::<Vec<_>>();
    let names = s(&["vaapi", "cuda"]);
    assert_eq!(resolve_hwaccel("none", &names, &vec![true, true]), None);
    assert_eq!(resolve_hwaccel("auto", &names, &vec![false, true]).as_deref(), Some("cuda"));
    assert_eq!(resolve_hwaccel("auto", &names, &vec![false, false]), None);
    assert_eq!(resolve_hwaccel("qsv", &names, &vec![false, false]).as_deref(), Some("qsv"));
    assert_eq!(resolve_hwaccels("none", &names, &vec![true, true]), vec![None]);
    assert_eq!(resolve_hwaccels("auto", &names, &vec![true, false]), vec![Some("vaapi".to_string()), None]);
    assert_eq!(resolve_hwaccels("qsv", &names, &vec![true, false]), vec![Some("qsv".to_string()), None]);
    let chain = s(&["h264_vaapi", "h264_nvenc", "libx264"]);
    assert_eq!(resolve_encoders("auto", &chain, &vec![true, false, true], true), ["h264_vaapi", "libx264"]);
    assert_eq!(resolve_encoders("h264_qsv", &chain, &vec![false; 3], true), ["h264_qsv", "libx264"]);
    assert_eq!(resolve_encoders("h264_qsv", &chain, &vec![false; 3], false), ["h264_qsv"]);
    assert_eq!(resolve_encoders("auto", &chain, &vec![false; 3], false), ["libx264"]);
    assert_eq!(resolve_drain("null", s(&["a"])), ["null"]);
    assert_eq!(resolve_drain("file", s(&["a"])), ["a"]);
    assert_eq!(resolve_drain("?", s(&["a"])), ["null"]);
}

#[test]
fn the_last_lines_in_one() {
    assert_eq!(compact_stderr("a\n\nb\r\nc\n  \nd\n", 3), "帧3: b ⏎ c ⏎ d");
    assert_eq!(compact_stderr("", 0), "帧0: ");
    let long = "x".repeat(300);
    assert_eq!(compact_stderr(&long, 1), format!("帧1: {}", "x".repeat(240)));
}

#[test]
fn going_on_where_it_stopped() {
    let m = MaskMeta { width: 4, height: 2, frames: 9 };
    assert_eq!(start_frame(Some(m), 4, 2, 7), (true, 7));
    assert_eq!(start_frame(Some(m), 4, 3, 7), (false, 0));
    assert_eq!(start_frame(None, 4, 2, 7), (false, 0));
    assert!(is_complete(7, Some(7)) && !is_complete(6, Some(7)) && !is_complete(6, None));
    assert_eq!((skip_count(0, 5, 3), skip_count(3, 5, 3), skip_count(6, 5, 3)), (3, 2, 0));
    assert_eq!((frames_added(9, 4), frames_added(3, 4)), (5, 0));
}

#[test]
fn masks_of_instances_and_corrections() {
    let inst = |mask: Vec<u8>, kind: u8| ArchiveInstance { id: 1, score: 0, xyxy: [0; 4], mask, kind };
    let list = vec![inst(vec![1, 0, 0, 0], KIND_PERSON), inst(vec![0, 0, 1, 0], KIND_FACE)];
    assert_eq!(merged_mask(&list, 4), vec![1, 0, 1, 0]);
    let mut ps = PatchStore::default();
    ps.push(Patch { frame: 3, op: PatchOp::Add, mask: vec![0, 1, 0, 0] });
    ps.push(Patch { frame: 3, op: PatchOp::Erase, mask: vec![1, 0, 0, 0] });
    ps.push(Patch { frame: 4, op: PatchOp::Add, mask: vec![1, 1, 1, 1] });
    assert_eq!(corrected_frames(&ps), 2);
    let frame = vec![200u8; 6];
    let mut f = frame.clone();
    assert_eq!(render_frame(&mut f, 2, 2, 3, Ok(None), &ps, &MaskStyle::Solid), Ok(false));
    assert_eq!(f, frame);
    assert_eq!(render_frame(&mut f, 2, 2, 3, Ok(Some(vec![1, 0, 0, 0])), &ps, &MaskStyle::Solid), Ok(true));
    assert_eq!(&f[..4], &[200, 16, 200, 200]);
    let e = render_frame(&mut f, 2, 2, 3, Err(MaskStoreError::Corrupt(3)), &ps, &MaskStyle::Solid);
    assert_eq!(e, Err("帧 3 的 mask 文件损坏（RLE 长度不符）".into()));
    let p = ArchiveModelPaths::default();
    assert!(p.yolo.is_empty() && p.reid.is_none());
}

fn config() -> DebugConfig {
    DebugConfig {
        conf: "0.35".into(),
        device: "auto".into(),
        style: "mosaic".into(),
        strength: 35,
        batch: 4,
        detect_every: 1,
        face: true,
        track: true,
        smooth: true,
        face_roi: false,
        landmark_expand: true,
        mask_ema: true,
        tta: false,
        gmc: false,
        ocru: true,
    }
}

#[test]
fn settings_are_overridden() {
    let mut c = config();
    for (k, v) in [
        ("conf", "0.5"),
        ("strength", "7"),
        ("detect-every", "2"),
        ("batch", "1"),
        ("style", "blur"),
        ("device", "cpu"),
        ("face", "0"),
        ("face-roi", "on"),
        ("landmark", "off"),
        ("ema", "false"),
        ("track", "0"),
        ("smooth", "0"),
        ("tta", "1"),
        ("gmc", "true"),
        ("ocru", "0"),
    ] {
        assert_eq!(c.apply_override(k, v), Ok(()), "{k}");
    }
    assert_eq!((c.conf.as_str(), c.strength, c.detect_every, c.batch), ("0.5", 7, 2, 1));
    assert_eq!((c.style.as_str(), c.device.as_str()), ("blur", "cpu"));
    assert!(!c.face && c.face_roi && !c.landmark_expand && !c.mask_ema && !c.track && !c.smooth);
    assert!(c.tta && c.gmc && !c.ocru);
    assert_eq!(c.apply_override("conf", "x"), Err("conf=x 不是数字".into()));
    assert_eq!(c.apply_override("batch", "-1"), Err("batch=-1 不是数字".into()));
    assert_eq!(c.apply_override("tta", "x"), Err("tta=x 不是布尔（1/0/true/false）".into()));
    assert_eq!(
        c.apply_override("nope", "1"),
        Err("未知 sweep 键 nope（可用：conf/strength/detect-every/batch/style/device/face/track/smooth/tta/gmc/ocru）".into())
    );
    assert_eq!(parse_bool("maybe", "k"), Err("k=maybe 不是布尔（1/0/true/false）".into()));
}

#[test]
fn every_combination_is_tried() {
    assert_eq!(parse_sweep(" conf = 0.2, 0.3 "), Ok(("conf".into(), vec!["0.2".into(), "0.3".into()])));
    assert_eq!(parse_sweep("conf"), Err("--sweep 格式应为 key=v1,v2，得到 conf".into()));
    assert_eq!(combinations(&vec![2, 3]), vec![
        vec![0, 0],
        vec![0, 1],
        vec![0, 2],
        vec![1, 0],
        vec![1, 1],
        vec![1, 2]
    ]);
    assert_eq!(combinations(&vec![]), vec![Vec::<usize>::new()]);
    assert!(combinations(&vec![3, 0]).is_empty());
}

#[test]
fn what_is_reported() {
    assert_eq!(count_set(&[0, 1, 2, 0]), 2);
    let f = |tracks: usize, held: usize| FrameFacts { tracks, held };
    assert_eq!(held_frames(&vec![f(1, 1), f(2, 1), f(3, 3), f(0, 0), f(1, 0)]), 2);
    assert!(wants_picture(Some(5), 10, false) && !wants_picture(Some(5), 11, false));
    assert!(wants_picture(None, 1, true) && !wants_picture(Some(0), 0, false));
}

#[test]
fn pictures_are_painted_on() {
    let mut p = vec![100u8; 8];
    overlay_mask(&mut p, 2, 1, &[1, 0]);
    assert_eq!(p, vec![135, 190, 95, 100, 100, 100, 100, 100]);
    let mut q = vec![0u8; 5 * 5 * 4];
    draw_rect(&mut q, 5, 5, [0, 0, 9, 9], [1, 2, 3, 4], 1);
    assert_eq!(&q[..4], &[1, 2, 3, 255]);
    assert_eq!(&q[(2 * 5 + 2) * 4..(2 * 5 + 2) * 4 + 4], &[0, 0, 0, 0]);
    assert_eq!(track_color(0), [255, 76, 76, 255]);
    assert_eq!(track_color(15), [240, 240, 60, 255]);
}

#[test]
fn masks_while_settings_are_tried_out() {
    let d = PersonInstance { score: 0, xyxy: [0; 4], mask: vec![0, 1, 0, 0] };
    assert_eq!(plain_mask(&vec![d], 4), vec![0, 1, 0, 0]);
    let mut m = vec![0u8; 40 * 40];
    m[20 * 40 + 20] = 1;
    finish_mask(&mut m, &vec![], true, 40, 40);
    assert_eq!(count_set(&m), 1);
    finish_mask(&mut m, &vec![], false, 40, 40);
    assert_eq!(count_set(&m), 21 * 21);
}

fn at(body: &str, present: bool, face: Option<&str>) -> PresetFiles {
    PresetFiles {
        body: body.to_string(),
        present,
        body_batch: present,
        face: face.map(String::from),
        face_batch: true,
    }
}

fn source(file: &str, direct: bool) -> ManifestEntry {
    ManifestEntry {
        file: file.to_string(),
        batch_file: None,
        imgsz: 640,
        sha256: String::new(),
        sha256_batch: None,
        url: if direct { None } else { Some("https://example.org/m".to_string()) },
        mirror_url: None,
        direct_url: if direct { Some("https://example.org/d".to_string()) } else { None },
        direct_mirror: None,
    }
}

#[test]
fn presets_are_listed_with_what_is_there() {
    let files = [
        at("/m/yolo26n.onnx", true, Some("/m/yolov8n-face.onnx")),
        at("/m/yolo26n-seg.onnx", true, None),
        at("yolo26s-seg.onnx", false, None),
        at("yolo26x-seg.onnx", false, None),
    ];
    let m = Manifest { models: vec![source("yolo26s-seg.onnx", false), source("yolo26x-seg.onnx", true)] };
    let r = list_presets(Platform::Other, "cpu", &files, [true, false, true, true, false], Some(&m), "/u");
    assert_eq!(r.len(), 5);
    let ids: Vec<&str> = r.iter().map(|p| p.id.as_str()).collect();
    assert_eq!(ids, ["speed", "balanced", "accurate", "extreme", "archive"]);
    let d = r[0].detail.as_ref().unwrap();
    assert_eq!(d.body_model, "yolo26n");
    assert_eq!(d.face_model.as_deref(), Some("yolov8n-face"));
    assert!(d.body_batch && d.face_batch);
    assert_eq!(d.backend_desc, "CPU（ONNX Runtime）");
    assert!(r[0].available && !r[0].downloadable && r[0].desc.is_empty());
    let d = r[1].detail.as_ref().unwrap();
    assert_eq!(d.face_model, None);
    assert!(!d.face_batch);
    assert_eq!(r[1].face_model, "");
    // A direct source does not count for a single model.
    assert!(!r[2].available && r[2].downloadable && r[2].detail.is_none());
    assert!(!r[3].available && !r[3].downloadable);
    assert_eq!(
        r[3].desc,
        "缺少模型 yolo26x-seg.onnx（未随安装包分发：可在本页直接下载，或获取 ONNX 放入 /u）"
    );
    assert_eq!(f32::from_bits(r[3].conf), 0.3);
    assert!(!r[4].available && !r[4].downloadable);
    assert!(r[4].desc.contains("缺少 GroundingDINO、RetinaFace（"));
    assert_eq!(r[4].face_model, "retinaface-r34.onnx");
}

#[test]
fn the_most_thorough_preset_needs_all_of_its_parts() {
    let files = [at("a", false, None), at("b", false, None), at("c", false, None), at("d", false, None)];
    let parts = [
        "yolo26x-seg-1536.onnx",
        "grounding-dino-tiny.onnx",
        "sam2.1-large-encoder.onnx",
        "sam2.1-large-decoder.onnx",
        "retinaface-r34.onnx",
    ];
    let mut m = Manifest { models: parts.iter().map(|p| source(p, true)).collect() };
    let r = list_presets(Platform::MacOs, "auto", &files, [false; 5], Some(&m), "/u");
    assert!(r[4].downloadable);
    m.models.pop();
    let r = list_presets(Platform::MacOs, "auto", &files, [false; 5], Some(&m), "/u");
    assert!(!r[4].downloadable);
    let r = list_presets(Platform::MacOs, "auto", &files, [true; 5], None, "/u");
    assert!(r[4].available && r[4].desc.is_empty());
    let d = r[4].detail.as_ref().unwrap();
    assert_eq!(d.body_model, "ensemble: yolo26x-seg-1536 + grounding-dino-tiny + SAM2.1-large + retinaface-r34");
    assert_eq!(d.face_model.as_deref(), Some("retinaface-r34 滑窗"));
    assert_eq!(f32::from_bits(d.conf), 0.25);
}

#[test]
fn models_run_on_what_the_machine_has() {
    assert_eq!(provider_for(Platform::MacOs, false, "ane"), Provider::CoreMlNeural);
    assert_eq!(provider_for(Platform::MacOs, false, "gpu"), Provider::CoreMlGpu);
    assert_eq!(provider_for(Platform::MacOs, false, "auto"), Provider::CoreMlAll);
    assert_eq!(provider_for(Platform::MacOs, false, "cpu"), Provider::Cpu);
    assert_eq!(provider_for(Platform::Unix, true, "auto"), Provider::WebGpu);
    assert_eq!(provider_for(Platform::Unix, true, "openvino"), Provider::Cpu);
    assert_eq!(provider_for(Platform::Unix, false, "auto"), Provider::Cpu);
    assert_eq!(provider_for(Platform::Windows, true, "auto"), Provider::DirectMl);
    assert_eq!(provider_for(Platform::Other, true, "auto"), Provider::Cpu);
}
