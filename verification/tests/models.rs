use automosaic::api::{
    archive_desc, backend_desc, bare_name, cancel_process, download_model, list_backends, list_models, missing_model,
    preset_desc, reports_progress, review_clear_frame, review_save_brush, tally, verify_model, DownloadEvent,
    ProcessStage,
};
use automosaic::maskstore::{PatchOp, PatchStore};
use automosaic::media::Platform;
use automosaic::models::{
    after_try, begin_file, candidate_roots, digest_matches, download_plan, hex, model_candidates, resolve_first,
    resolve_model, sha256_of, user_models_dir, verify_sha256, DownloadError, Manifest, ManifestEntry, Next,
    Surroundings,
};
use automosaic::preset::QualityPreset;
use std::sync::atomic::{AtomicBool, Ordering};
use std::sync::Arc;

fn entry(file: &str) -> ManifestEntry {
    ManifestEntry {
        file: file.into(),
        batch_file: None,
        imgsz: 640,
        sha256: String::new(),
        sha256_batch: None,
        url: None,
        mirror_url: None,
        direct_url: None,
        direct_mirror: None,
    }
}

fn place(name: &str, there: &str) -> (String, bool) {
    let roots = vec!["/repo".to_string()];
    let dirs = candidate_roots(Platform::Unix, None, "/home/u/.local/share/Simple AutoMosaic/models", &roots);
    let others = model_candidates(Platform::Unix, name, &dirs);
    let present: Vec<bool> = others.iter().map(|o| o == there).collect();
    let p = resolve_model(name, false, &others, &present);
    let exists = p == there;
    (p, exists)
}

#[test]
fn resolve_model_finds_repo_models_dir() {
    let (p, exists) = place("yolo11n-seg.onnx", "/repo/models/yolo11n-seg.onnx");
    assert!(exists);
    assert!(p.contains("models"));
}

#[test]
fn resolve_first_falls_back_in_order() {
    let there = "/repo/models/yolo11n-seg.onnx";
    let (a, ea) = place("definitely-missing.onnx", there);
    let (b, eb) = place("yolo11n-seg.onnx", there);
    let p = resolve_first(&vec![a.clone(), b], &vec![ea, eb]);
    assert!(p.is_some());
    assert!(resolve_first(&vec![a], &vec![ea]).is_none());
}

#[test]
fn a_model_that_is_there_is_taken() {
    assert_eq!(resolve_model("x/m.onnx", true, &vec!["/a/m.onnx".into()], &vec![true]), "x/m.onnx");
    assert_eq!(resolve_model("x/m.onnx", false, &vec!["/a/m.onnx".into()], &vec![true]), "/a/m.onnx");
    assert_eq!(resolve_model("x/m.onnx", false, &vec!["/a/m.onnx".into()], &vec![false]), "x/m.onnx");
}

#[test]
fn directories_of_models() {
    let roots = vec!["/r".to_string(), "/r/".to_string(), "/s".to_string()];
    let d = candidate_roots(Platform::Unix, Some("/env"), "/r/models", &roots);
    assert_eq!(d, ["/env", "/r/models", "/r/Resources/models", "/s/models", "/s/Resources/models"]);
    assert_eq!(candidate_roots(Platform::Unix, Some(""), "/u", &vec![]), ["/u"]);
    let s = Surroundings {
        home: Some("/home/u".into()),
        app_data: Some("C:/data".into()),
        data_home: None,
        temp: "/tmp".into(),
    };
    assert_eq!(user_models_dir(Platform::Unix, &s), "/home/u/.local/share/Simple AutoMosaic/models");
    assert_eq!(
        user_models_dir(Platform::MacOs, &s),
        "/home/u/Library/Application Support/Simple AutoMosaic/models"
    );
    assert_eq!(user_models_dir(Platform::Windows, &s), "C:/data\\Simple AutoMosaic\\models");
}

#[test]
fn manifest_loads_and_finds_entries() {
    let m = Manifest { models: vec![entry("yolo26n-seg.onnx"), entry("yolo26x-seg.onnx")] };
    let e = m.find("yolo26n-seg.onnx").expect("entry");
    assert_eq!(e.imgsz, 640);
    assert!(m.find("yolo26x-seg.onnx").is_some());
    assert!(m.find("other.onnx").is_none());
}

const ABC: &str = "ba7816bf8f01cfea414140de5dae2223b00361a396177a9cb410ff61f20015ad";

#[test]
fn sha256_verifies_against_manifest() {
    assert_eq!(verify_sha256(Some(b"abc"), ABC), Some(true));
    assert_eq!(verify_sha256(Some(b"abc"), "deadbeef"), Some(false));
    assert_eq!(verify_sha256(None, ABC), None);
    assert_eq!(sha256_of(Some(b"abc")).as_deref(), Some(ABC));
    assert_eq!(verify_sha256(Some(b"abc"), &ABC.to_uppercase()), Some(true));
}

#[test]
fn digests_in_hexadecimal() {
    assert_eq!(hex(&[0x0f, 0xa0, 0xff]).into_iter().collect::<String>(), "0fa0ff");
    assert!(digest_matches(&[0xab, 0x01], "AB01"));
    assert!(!digest_matches(&[0xab, 0x01], "ab0100"));
}

#[test]
fn download_entry_verifies_sha_and_falls_back_to_mirror() {
    let body = b"hello-model-bytes".to_vec();
    let mut e = entry("test-model.onnx");
    e.url = Some("http://h/primary".into());
    e.mirror_url = Some("http://h/mirror".into());
    e.sha256 = sha256_of(Some(&body)).unwrap();
    let plan = download_plan(&e).unwrap();
    assert_eq!(plan.len(), 1);
    assert_eq!(plan[0].urls, ["http://h/primary/test-model.onnx", "http://h/mirror/test-model.onnx"]);
    let served = |url: &str| (url == "http://h/mirror/test-model.onnx").then(|| body.clone());
    let mut next = begin_file(&plan, &e.file, 0);
    let mut got = None;
    loop {
        next = match next {
            Next::Try { file, url } => {
                let u = plan[file].urls[url].clone();
                let r = match served(&u) {
                    None => Err(DownloadError::Http { url: u, err: "404".into() }),
                    Some(b) if verify_sha256(Some(&b), &plan[file].sha256) == Some(true) => {
                        got = Some(b);
                        Ok(())
                    }
                    Some(_) => Err(DownloadError::BadSha { path: "p".into() }),
                };
                after_try(&plan, &e.file, file, url, r)
            }
            other => {
                assert!(matches!(other, Next::Done));
                break;
            }
        };
    }
    assert_eq!(got, Some(body));

    e.mirror_url = None;
    let plan = download_plan(&e).unwrap();
    let r = match verify_sha256(Some(b"corrupted"), &plan[0].sha256) {
        Some(true) => Ok(()),
        _ => Err(DownloadError::BadSha { path: "p".into() }),
    };
    let n = after_try(&plan, &e.file, 0, 0, r);
    assert!(matches!(n, Next::Fail(DownloadError::BadSha { .. })), "{n:?}");
}

#[test]
fn files_to_fetch() {
    let mut e = entry("a.onnx");
    e.batch_file = Some("a-b4.onnx".into());
    let err = download_plan(&e).unwrap_err();
    assert_eq!(err.message(), "manifest 中无 a-b4.onnx（manifest 缺少批文件 sha256） 或未配置下载地址");
    e.sha256_batch = Some("00".into());
    e.direct_url = Some("http://x/one".into());
    e.direct_mirror = Some("http://y/one".into());
    let plan = download_plan(&e).unwrap();
    assert_eq!(plan[0].urls, ["http://x/one", "http://y/one"]);
    assert!(plan[1].urls.is_empty());
    assert_eq!((plan[1].name.as_str(), plan[1].sha256.as_str()), ("a-b4.onnx", "00"));
    let n = after_try(&plan, "a.onnx", 0, 0, Ok(()));
    assert!(matches!(n, Next::Fail(DownloadError::NoSource(ref f)) if f == "a.onnx"));
    assert!(matches!(begin_file(&plan, "a.onnx", 2), Next::Done));
}

#[test]
fn fetching_errors_say_what_is_wrong() {
    assert_eq!(DownloadError::Http { url: "u".into(), err: "e".into() }.message(), "下载失败（u）：e");
    assert_eq!(DownloadError::BadSha { path: "p".into() }.message(), "SHA256 校验失败：p");
    assert_eq!(DownloadError::Io("i".into()).message(), "IO 错误: i");
}

#[test]
fn devices_and_what_is_said_of_them() {
    assert_eq!(backend_desc(Platform::Unix, "auto"), "WebGPU（Dawn/Vulkan，实验）");
    assert_eq!(backend_desc(Platform::Unix, "cpu"), "CPU（ONNX Runtime）");
    assert_eq!(backend_desc(Platform::Unix, "openvino"), "OpenVINO（Intel CPU/GPU）");
    assert_eq!(backend_desc(Platform::MacOs, "ane"), "CoreML（CPU+NPU）");
    assert_eq!(backend_desc(Platform::MacOs, "auto"), "CoreML（CPU/GPU/NPU 自动调度）");
    assert_eq!(backend_desc(Platform::Windows, "directml"), "DirectML（DX12）");
    let ids = |p: Platform| list_backends(p).into_iter().map(|b| b.id).collect::<Vec<_>>();
    assert_eq!(ids(Platform::Unix), ["auto", "cpu"]);
    assert_eq!(ids(Platform::MacOs), ["auto", "gpu", "ane", "cpu"]);
    assert_eq!(ids(Platform::Windows), ["auto", "directml", "cpu"]);
    let b = &list_backends(Platform::Unix)[0];
    assert_eq!((b.label.as_str(), b.available, b.desc.as_str()), ("自动", true, "WebGPU（Dawn/Vulkan，实验）"));
}

#[test]
fn models_of_the_list() {
    let mut m = Manifest { models: vec![entry("a"), entry("b")] };
    m.models[0].url = Some("u".into());
    m.models[0].batch_file = Some("a4".into());
    m.models[1].sha256 = ABC.into();
    assert_eq!(download_model(Some(&m), "list", "a").unwrap().file, "a");
    assert_eq!(download_model(Some(&m), "list", "b").unwrap_err(), "b 未配置下载地址");
    assert_eq!(download_model(Some(&m), "list", "c").unwrap_err(), "manifest 中无 c");
    assert_eq!(download_model(None, "list", "a").unwrap_err(), "list 不存在");
    assert_eq!(verify_model(Some(&m), "list", "b", "/b", Some(b"abc")), Ok(true));
    assert_eq!(verify_model(Some(&m), "list", "b", "/b", Some(b"abd")), Ok(false));
    assert_eq!(verify_model(Some(&m), "list", "b", "/b", None), Err("模型文件不存在: /b".into()));
    assert_eq!(verify_model(None, "list", "b", "/b", None), Err("list 不存在".into()));
    let l = list_models(&m, &vec![false, true], &vec![true, true]);
    assert_eq!((l[0].present, l[0].batch_present, l[0].downloadable), (false, true, true));
    assert_eq!((l[1].present, l[1].batch_present, l[1].downloadable), (true, false, false));
    assert_eq!(tally(&vec![Some(true), None, Some(false), Some(true)]), (2, 1, 1));
}

#[test]
fn what_is_missing_is_said() {
    let names = vec!["A".to_string(), "B".to_string()];
    let paths = vec!["/a".to_string(), "/b".to_string()];
    assert_eq!(missing_model(&names, &paths, &vec![true, false], "缺少", "！"), Some("缺少B: /b！".into()));
    assert_eq!(missing_model(&names, &paths, &vec![true, true], "缺少", "！"), None);
    assert_eq!(archive_desc([true; 5]), "");
    assert_eq!(
        archive_desc([true, false, true, false, true]),
        "极限·档案级（两阶段 分析→复核→渲染）：缺少 GroundingDINO、SAM2.1-dec（scripts/fetch_m5_models.sh 或本页下载）"
    );
    let p = QualityPreset::Speed.params().unwrap();
    assert_eq!(preset_desc(&p, "/m", true), "");
    assert_eq!(
        preset_desc(&p, "/m", false),
        "缺少模型 yolo26n.onnx（未随安装包分发：可在本页直接下载，或获取 ONNX 放入 /m）"
    );
    assert_eq!(bare_name("retinaface-r34.onnx"), "retinaface-r34");
    assert_eq!(bare_name("a.onnx.onnx"), "a");
    assert_eq!(bare_name("a.bin"), "a.bin");
}

#[test]
fn progress_is_not_reported_too_often() {
    assert!(reports_progress(5, 0, 0));
    assert!(reports_progress(5, 5, 0));
    assert!(!reports_progress(4, 5, 49));
    assert!(reports_progress(4, 5, 50));
    let e = DownloadEvent::Finished { name: "m".into() };
    assert!(matches!(e.clone(), DownloadEvent::Finished { name } if name == "m"));
    assert_ne!(ProcessStage::Probing, ProcessStage::Finalizing);
}

#[test]
fn cancelling_sets_the_flag() {
    let flag = Arc::new(AtomicBool::new(false));
    cancel_process(&flag);
    assert!(flag.load(Ordering::Relaxed));
}

#[test]
fn brushes_are_stored_and_dropped() {
    let f = review_save_brush(None, 4, true, vec![1, 0]);
    let f = review_save_brush(Some(&f), 4, false, vec![1, 1]);
    let f = review_save_brush(Some(&f), 5, true, vec![0, 1]);
    let ps = PatchStore::load(Some(&f));
    assert_eq!(ps.patches.iter().map(|p| (p.frame, p.op)).collect::<Vec<_>>(), [
        (4, PatchOp::Add),
        (4, PatchOp::Erase),
        (5, PatchOp::Add)
    ]);
    let f = review_clear_frame(Some(&f), 4);
    assert_eq!(PatchStore::load(Some(&f)).patches.len(), 1);
    assert_eq!(PatchStore::load(Some(&review_clear_frame(None, 4))).patches.len(), 0);
}
