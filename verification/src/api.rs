//! What a window shows and asks for: backends, presets, models, corrections.
use crate::job::JobCancel;
use crate::maskstore::{patch_file, patches_in, without_frame, Patch, PatchOp, PatchStore, PatchView};
use crate::media::Platform;
use crate::models::{entry_from, hex_of, sha256_digest, verify_sha256, Manifest, ManifestEntry};
use crate::options::{stem, stem_of};
use crate::paths::{route_of, Route};
use crate::preset::{body_of, conf_of, id_of, label_of, settings_of, PresetParams, QualityPreset, CONF_LOWEST};
use crate::text::{append, chars_of, has_suffix, lowered, same, slice, text_of};
use vstd::prelude::*;

verus! {

// Backends.
/// What is said of a device that models run on.
pub open spec fn device_text(platform: Platform, device: Seq<char>) -> Seq<char> {
    if platform == Platform::MacOs && device != "cpu"@ {
        "CoreML（"@ + (if device == "gpu"@ {
            "CPU+GPU"@
        } else if device == "ane"@ {
            "CPU+NPU"@
        } else {
            "CPU/GPU/NPU 自动调度"@
        }) + "）"@
    } else if platform == Platform::Unix && device != "cpu"@ && device != "openvino"@ {
        "WebGPU（Dawn/Vulkan，实验）"@
    } else if device == "webgpu"@ {
        "WebGPU（Dawn/Vulkan，实验）"@
    } else if device == "directml"@ {
        "DirectML（DX12）"@
    } else if device == "openvino"@ {
        "OpenVINO（Intel CPU/GPU）"@
    } else {
        "CPU（ONNX Runtime）"@
    }
}

/// What is said of a device that models run on.
pub fn backend_desc(platform: Platform, device: &str) -> (s: String)
    ensures
        s@ == device_text(platform, device@),
{
    if platform == Platform::MacOs && !same(device, "cpu") {
        let mut s = "CoreML（".to_owned();
        let units: &str = if same(device, "gpu") {
            "CPU+GPU"
        } else if same(device, "ane") {
            "CPU+NPU"
        } else {
            "CPU/GPU/NPU 自动调度"
        };
        append(&mut s, units);
        append(&mut s, "）");
        return s;
    }
    if platform == Platform::Unix && !same(device, "cpu") && !same(device, "openvino") {
        return "WebGPU（Dawn/Vulkan，实验）".to_owned();
    }
    let s: &str = if same(device, "webgpu") {
        "WebGPU（Dawn/Vulkan，实验）"
    } else if same(device, "directml") {
        "DirectML（DX12）"
    } else if same(device, "openvino") {
        "OpenVINO（Intel CPU/GPU）"
    } else {
        "CPU（ONNX Runtime）"
    };
    s.to_owned()
}

/// What models run on.
#[derive(Debug, Clone, Copy, PartialEq, Eq, Structural)]
pub enum Provider {
    /// The processor.
    Cpu,
    /// Apple's runtime, with all units, with the graphics card, or with the neural engine.
    CoreMlAll,
    CoreMlGpu,
    CoreMlNeural,
    /// The graphics card, through Vulkan.
    WebGpu,
    /// The graphics card, on Windows.
    DirectMl,
}

/// What models run on for a device that a user names; `x86`: the machine is a 64-bit Intel or AMD one.
pub open spec fn provider_of(platform: Platform, x86: bool, device: Seq<char>) -> Provider {
    if device == "cpu"@ {
        Provider::Cpu
    } else {
        match platform {
            Platform::MacOs => if device == "gpu"@ {
                Provider::CoreMlGpu
            } else if device == "ane"@ {
                Provider::CoreMlNeural
            } else {
                Provider::CoreMlAll
            },
            Platform::Windows => Provider::DirectMl,
            Platform::Unix => if x86 && device != "openvino"@ {
                Provider::WebGpu
            } else {
                Provider::Cpu
            },
            Platform::Other => Provider::Cpu,
        }
    }
}

/// What models run on for a device that a user names.
pub fn provider_for(platform: Platform, x86: bool, device: &str) -> (p: Provider)
    ensures
        p == provider_of(platform, x86, device@),
{
    if same(device, "cpu") {
        return Provider::Cpu;
    }
    match platform {
        Platform::MacOs => {
            if same(device, "gpu") {
                Provider::CoreMlGpu
            } else if same(device, "ane") {
                Provider::CoreMlNeural
            } else {
                Provider::CoreMlAll
            }
        },
        Platform::Windows => Provider::DirectMl,
        Platform::Unix => {
            if x86 && !same(device, "openvino") {
                Provider::WebGpu
            } else {
                Provider::Cpu
            }
        },
        Platform::Other => Provider::Cpu,
    }
}

/// A device that models can run on.
#[derive(Debug, Clone)]
pub struct BackendInfo {
    pub id: String,
    pub label: String,
    pub available: bool,
    pub desc: String,
}

/// What a device that models can run on is.
#[verifier::ext_equal]
pub struct BackendView {
    pub id: Seq<char>,
    pub label: Seq<char>,
    pub available: bool,
    pub desc: Seq<char>,
}

impl View for BackendInfo {
    type V = BackendView;

    open spec fn view(&self) -> BackendView {
        BackendView { id: self.id@, label: self.label@, available: self.available, desc: self.desc@ }
    }
}

/// The devices of a list.
pub open spec fn backend_views(s: Seq<BackendInfo>) -> Seq<BackendView> {
    s.map_values(|b: BackendInfo| b@)
}

/// An entry for a device.
pub open spec fn backend_entry(platform: Platform, id: Seq<char>, label: Seq<char>) -> BackendView {
    BackendView { id, label, available: true, desc: device_text(platform, id) }
}

/// The devices that models can run on.
pub open spec fn backends_on(platform: Platform) -> Seq<BackendView> {
    let first = backend_entry(platform, "auto"@, "自动"@);
    let last = backend_entry(platform, "cpu"@, "CPU"@);
    match platform {
        Platform::MacOs => seq![
            first,
            backend_entry(platform, "gpu"@, "GPU（CoreML CPU+GPU）"@),
            backend_entry(platform, "ane"@, "NPU（CoreML CPU+神经引擎）"@),
            last,
        ],
        Platform::Windows => seq![first, backend_entry(platform, "directml"@, "DirectML（DX12）"@), last],
        _ => seq![first, last],
    }
}

fn make_backend(platform: Platform, id: &str, label: &str) -> (b: BackendInfo)
    ensures
        b@ == backend_entry(platform, id@, label@),
{
    BackendInfo { id: id.to_owned(), label: label.to_owned(), available: true, desc: backend_desc(platform, id) }
}

/// The devices that models can run on.
pub fn list_backends(platform: Platform) -> (r: Vec<BackendInfo>)
    ensures
        backend_views(r@) == backends_on(platform),
{
    let mut r: Vec<BackendInfo> = Vec::new();
    r.push(make_backend(platform, "auto", "自动"));
    match platform {
        Platform::MacOs => {
            r.push(make_backend(platform, "gpu", "GPU（CoreML CPU+GPU）"));
            r.push(make_backend(platform, "ane", "NPU（CoreML CPU+神经引擎）"));
        },
        Platform::Windows => {
            r.push(make_backend(platform, "directml", "DirectML（DX12）"));
        },
        _ => {},
    }
    r.push(make_backend(platform, "cpu", "CPU"));
    assert(backend_views(r@) =~= backends_on(platform));
    r
}

// Events.
/// What happens while a model is fetched.
#[derive(Debug, Clone)]
pub enum DownloadEvent {
    Progress { name: String, done_bytes: u64, total_bytes: u64 },
    Finished { name: String },
    Failed { error: String },
}

/// How far a run is.
#[derive(Debug, Clone, Copy, PartialEq, Eq, Structural)]
pub enum ProcessStage {
    /// The video is looked into.
    Probing,
    /// Frames are changed.
    Inferring,
    /// The last frames are written.
    Finalizing,
}

/// Whether progress is reported now: at the end, if the end is not known, or 50 milliseconds after it was last reported.
pub fn reports_progress(done: u64, total: u64, since_ms: u64) -> (r: bool)
    ensures
        r == (total == 0 || done == total || since_ms >= 50),
{
    total == 0 || done == total || since_ms >= 50
}

/// Asks for the current run to be stopped.
pub fn cancel_process(flag: &JobCancel) {
    flag.store(true, std::sync::atomic::Ordering::Relaxed);
}

// Models.
/// Whether it is known where a model is fetched from.
pub open spec fn has_source(e: ManifestEntry) -> bool {
    e.url is Some || e.mirror_url is Some || e.direct_url is Some
}

fn is_fetchable(e: &ManifestEntry) -> (r: bool)
    ensures
        r == has_source(*e),
{
    e.url.is_some() || e.mirror_url.is_some() || e.direct_url.is_some()
}

/// The entry of a model that is to be fetched, from the list of models, if there is a list; `list` is the name of its file.
pub fn download_model<'a>(manifest: Option<&'a Manifest>, list: &str, file: &str) -> (r: Result<&'a ManifestEntry, String>)
    ensures
        match manifest {
            None => r is Err && r->Err_0@ == list@ + " 不存在"@,
            Some(m) => match entry_from(m.models@, file@, 0) {
                None => r is Err && r->Err_0@ == "manifest 中无 "@ + file@,
                Some(i) => if has_source(m.models@[i]) {
                    r == Ok::<&ManifestEntry, String>(&m.models@[i])
                } else {
                    r is Err && r->Err_0@ == file@ + " 未配置下载地址"@
                },
            },
        },
{
    match manifest {
        None => {
            let mut s = list.to_owned();
            append(&mut s, " 不存在");
            Err(s)
        },
        Some(m) => match m.find(file) {
            None => {
                let mut s = "manifest 中无 ".to_owned();
                append(&mut s, file);
                Err(s)
            },
            Some(e) => {
                if is_fetchable(e) {
                    Ok(e)
                } else {
                    let mut s = file.to_owned();
                    append(&mut s, " 未配置下载地址");
                    Err(s)
                }
            },
        },
    }
}

/// Whether a model, which was read from `path`, is the one in the list of models; `list` is the name of its file.
pub fn verify_model(
    manifest: Option<&Manifest>,
    list: &str,
    file: &str,
    path: &str,
    data: Option<&[u8]>,
) -> (r: Result<bool, String>)
    ensures
        match manifest {
            None => r is Err && r->Err_0@ == list@ + " 不存在"@,
            Some(m) => match entry_from(m.models@, file@, 0) {
                None => r is Err && r->Err_0@ == "manifest 中无 "@ + file@,
                Some(i) => match data {
                    None => r is Err && r->Err_0@ == "模型文件不存在: "@ + path@,
                    Some(d) => r == Ok::<bool, String>(
                        lowered(hex_of(sha256_digest(d@))) == lowered(m.models@[i].sha256@),
                    ),
                },
            },
        },
{
    match manifest {
        None => {
            let mut s = list.to_owned();
            append(&mut s, " 不存在");
            Err(s)
        },
        Some(m) => match m.find(file) {
            None => {
                let mut s = "manifest 中无 ".to_owned();
                append(&mut s, file);
                Err(s)
            },
            Some(e) => match verify_sha256(data, e.sha256.as_str()) {
                Some(ok) => Ok(ok),
                None => {
                    let mut s = "模型文件不存在: ".to_owned();
                    append(&mut s, path);
                    Err(s)
                },
            },
        },
    }
}

/// A model as it is listed.
#[derive(Debug, Clone)]
pub struct ModelInfo {
    pub file: String,
    pub imgsz: u32,
    pub present: bool,
    pub batch_present: bool,
    pub downloadable: bool,
}

/// Whether `i` is how a model is listed, given whether its files are there.
pub open spec fn lists(i: ModelInfo, e: ManifestEntry, present: bool, batch_present: bool) -> bool {
    &&& i.file@ == e.file@
    &&& i.imgsz == e.imgsz
    &&& i.present == present
    &&& i.batch_present == (e.batch_file is Some && batch_present)
    &&& i.downloadable == (!present && has_source(e))
}

/// The models of the list of models, given which of their files are there.
pub fn list_models(m: &Manifest, present: &Vec<bool>, batch_present: &Vec<bool>) -> (r: Vec<ModelInfo>)
    requires
        present@.len() == m.models@.len(),
        batch_present@.len() == m.models@.len(),
    ensures
        r@.len() == m.models@.len(),
        forall|i: int| 0 <= i < r@.len() ==> lists(#[trigger] r@[i], m.models@[i], present@[i], batch_present@[i]),
{
    let mut r: Vec<ModelInfo> = Vec::new();
    for i in 0..m.models.len()
        invariant
            present@.len() == m.models@.len(),
            batch_present@.len() == m.models@.len(),
            r@.len() == i,
            forall|k: int| 0 <= k < i ==> lists(#[trigger] r@[k], m.models@[k], present@[k], batch_present@[k]),
    {
        let e = &m.models[i];
        r.push(
            ModelInfo {
                file: e.file.clone(),
                imgsz: e.imgsz,
                present: present[i],
                batch_present: e.batch_file.is_some() && batch_present[i],
                downloadable: !present[i] && is_fetchable(e),
            },
        );
    }
    r
}

/// How many models are as they should be, how many are not, and how many are missing, among the first `n`.
pub open spec fn tally_upto(r: Seq<Option<bool>>, n: int) -> (int, int, int)
    decreases n,
{
    if n <= 0 {
        (0, 0, 0)
    } else {
        let t = tally_upto(r, n - 1);
        match r[n - 1] {
            Some(true) => (t.0 + 1, t.1, t.2),
            Some(false) => (t.0, t.1 + 1, t.2),
            None => (t.0, t.1, t.2 + 1),
        }
    }
}

/// How many models are as they should be, how many are not, and how many are missing.
pub fn tally(r: &Vec<Option<bool>>) -> (t: (usize, usize, usize))
    ensures
        t.0 == tally_upto(r@, r@.len() as int).0,
        t.1 == tally_upto(r@, r@.len() as int).1,
        t.2 == tally_upto(r@, r@.len() as int).2,
        t.0 + t.1 + t.2 == r@.len(),
{
    assert(r.len() == r@.len());
    let mut t: (usize, usize, usize) = (0, 0, 0);
    for i in 0..r.len()
        invariant
            r@.len() <= usize::MAX,
            t.0 == tally_upto(r@, i as int).0,
            t.1 == tally_upto(r@, i as int).1,
            t.2 == tally_upto(r@, i as int).2,
            t.0 + t.1 + t.2 == i,
    {
        match r[i] {
            Some(ok) => {
                if ok {
                    t = (t.0 + 1, t.1, t.2);
                } else {
                    t = (t.0, t.1 + 1, t.2);
                }
            },
            None => {
                t = (t.0, t.1, t.2 + 1);
            },
        }
    }
    t
}

/// What is said of the first of the models that have to be there which is missing.
pub fn missing_model(names: &Vec<String>, paths: &Vec<String>, present: &Vec<bool>, head: &str, tail: &str) -> (r: Option<
    String,
>)
    requires
        names@.len() == present@.len(),
        paths@.len() == present@.len(),
    ensures
        match first_false(present@, 0) {
            Some(i) => r is Some && r->0@ == head@ + names@[i]@ + ": "@ + paths@[i]@ + tail@,
            None => r is None,
        },
{
    for i in 0..present.len()
        invariant
            names@.len() == present@.len(),
            paths@.len() == present@.len(),
            first_false(present@, 0) == first_false(present@, i as int),
    {
        if !present[i] {
            let mut s = head.to_owned();
            append(&mut s, names[i].as_str());
            append(&mut s, ": ");
            append(&mut s, paths[i].as_str());
            append(&mut s, tail);
            return Some(s);
        }
    }
    None
}

/// The first of a list, from the `from`-th on, that is not there.
pub open spec fn first_false(present: Seq<bool>, from: int) -> Option<int>
    decreases present.len() - from,
{
    if from >= present.len() {
        None
    } else if !present[from] {
        Some(from)
    } else {
        first_false(present, from + 1)
    }
}

// Presets.
/// A text without `.onnx` at its end, however often it stands there.
pub open spec fn bare(s: Seq<char>) -> Seq<char>
    decreases s.len(),
{
    if has_suffix(s, ".onnx"@) && s.len() >= 5 {
        bare(s.take(s.len() - 5))
    } else {
        s
    }
}

/// A text without `.onnx` at its end.
pub fn bare_name(s: &str) -> (r: String)
    ensures
        r@ == bare(s@),
{
    let c = chars_of(s);
    let end = chars_of(".onnx");
    proof {
        reveal_strlit(".onnx");
    }
    assert(end@.len() == 5);
    let mut n: usize = c.len();
    assert(c@.take(c@.len() as int) =~= c@);
    while n >= 5 && crate::text::stands_at(&c, &end, n - 5)
        invariant
            n <= c@.len(),
            c@ == s@,
            end@ == ".onnx"@,
            end@.len() == 5,
            bare(s@) == bare(c@.take(n as int)),
        decreases n,
    {
        assert(c@.take(n as int).subrange(n - 5, n as int) =~= c@.subrange(n - 5, n as int));
        assert(c@.take(n as int).take(n - 5) =~= c@.take(n - 5));
        n = n - 5;
    }
    proof {
        let t = c@.take(n as int);
        if n >= 5 && has_suffix(t, ".onnx"@) {
            assert(t.subrange(n - 5, n as int) =~= c@.subrange(n - 5, n as int));
        }
    }
    let t = slice(&c, 0, n);
    assert(t@ =~= c@.take(n as int));
    text_of(&t)
}

/// What is said of a preset whose model is missing; nothing, if it is there.
pub open spec fn preset_text(model: Seq<char>, dir: Seq<char>, available: bool) -> Seq<char> {
    if available {
        Seq::empty()
    } else {
        "缺少模型 "@ + model + "（未随安装包分发：可在本页直接下载，或获取 ONNX 放入 "@ + dir + "）"@
    }
}

/// What is said of a preset; `dir` is where a user keeps models.
pub fn preset_desc(p: &PresetParams, dir: &str, available: bool) -> (s: String)
    ensures
        s@ == preset_text(p.body_model@, dir@, available),
{
    let mut s = String::new();
    if !available {
        append(&mut s, "缺少模型 ");
        append(&mut s, p.body_model.as_str());
        append(&mut s, "（未随安装包分发：可在本页直接下载，或获取 ONNX 放入 ");
        append(&mut s, dir);
        append(&mut s, "）");
    }
    assert(s@ =~= preset_text(p.body_model@, dir@, available));
    s
}

/// The names of the first `n` parts that are missing.
pub open spec fn missing_upto(names: Seq<Seq<char>>, present: Seq<bool>, n: int) -> Seq<Seq<char>>
    decreases n,
{
    if n <= 0 {
        Seq::empty()
    } else if present[n - 1] {
        missing_upto(names, present, n - 1)
    } else {
        missing_upto(names, present, n - 1).push(names[n - 1])
    }
}

/// Texts with a mark between them.
pub open spec fn enumerated(s: Seq<Seq<char>>, n: int) -> Seq<char>
    decreases n,
{
    if n <= 0 {
        Seq::empty()
    } else if n == 1 {
        s[0]
    } else {
        enumerated(s, n - 1) + "、"@ + s[n - 1]
    }
}

/// What is said of the most thorough preset when some of its models are missing.
pub open spec fn archive_text(names: Seq<Seq<char>>, present: Seq<bool>) -> Seq<char> {
    let m = missing_upto(names, present, present.len() as int);
    if m.len() == 0 {
        Seq::empty()
    } else {
        "极限·档案级（两阶段 分析→复核→渲染）：缺少 "@ + enumerated(m, m.len() as int)
            + "（scripts/fetch_m5_models.sh 或本页下载）"@
    }
}

/// The names of the models of the most thorough preset that have to be there.
pub open spec fn archive_parts() -> Seq<Seq<char>> {
    seq!["YOLO26x@1536"@, "GroundingDINO"@, "SAM2.1-enc"@, "SAM2.1-dec"@, "RetinaFace"@]
}

/// What is said of the most thorough preset, given which of the models that have to be there are.
pub fn archive_desc(present: [bool; 5]) -> (s: String)
    ensures
        s@ == archive_text(archive_parts(), present@),
{
    let names: [&str; 5] = ["YOLO26x@1536", "GroundingDINO", "SAM2.1-enc", "SAM2.1-dec", "RetinaFace"];
    let ghost all = archive_parts();
    let mut list = String::new();
    let mut count: usize = 0;
    assert(list@ =~= enumerated(missing_upto(all, present@, 0), 0));
    for i in 0..5usize
        invariant
            all == archive_parts(),
            names@.len() == 5,
            present@.len() == 5,
            forall|k: int| 0 <= k < 5 ==> (#[trigger] names@[k])@ == all[k],
            count == missing_upto(all, present@, i as int).len(),
            count <= i,
            list@ == enumerated(missing_upto(all, present@, i as int), count as int),
    {
        if !present[i] {
            let ghost m = missing_upto(all, present@, i as int);
            let ghost n = missing_upto(all, present@, i + 1);
            assert(n == m.push(all[i as int]));
            if count > 0 {
                append(&mut list, "、");
            }
            append(&mut list, names[i]);
            proof {
                lemma_enumerated_prefix(m, all[i as int], count as int);
                assert(names@[i as int]@ == all[i as int]);
            }
            count = count + 1;
            assert(list@ =~= enumerated(n, count as int));
        }
    }
    if count == 0 {
        return String::new();
    }
    let mut s = "极限·档案级（两阶段 分析→复核→渲染）：缺少 ".to_owned();
    append(&mut s, list.as_str());
    append(&mut s, "（scripts/fetch_m5_models.sh 或本页下载）");
    s
}

proof fn lemma_enumerated_prefix(m: Seq<Seq<char>>, x: Seq<char>, n: int)
    requires
        0 <= n <= m.len(),
    ensures
        enumerated(m.push(x), n) == enumerated(m, n),
    decreases n,
{
    if n > 1 {
        lemma_enumerated_prefix(m, x, n - 1);
    }
}

/// What is there of the models of a preset: the one for people, the one for faces if there is one, and whether models for
/// four frames at a time stand beside them.
pub struct PresetFiles {
    pub body: String,
    pub present: bool,
    pub body_batch: bool,
    pub face: Option<String>,
    pub face_batch: bool,
}

/// What is shown of a preset that can be used. The score is the bits of a single-precision number.
#[derive(Debug, Clone)]
pub struct PresetDetail {
    pub body_model: String,
    pub body_batch: bool,
    pub face_model: Option<String>,
    pub face_batch: bool,
    pub detect_every: u32,
    pub conf: u32,
    pub backend_desc: String,
}

/// What a [`PresetDetail`] says.
#[verifier::ext_equal]
pub struct DetailView {
    pub body_model: Seq<char>,
    pub body_batch: bool,
    pub face_model: Option<Seq<char>>,
    pub face_batch: bool,
    pub detect_every: u32,
    pub conf: u32,
    pub backend_desc: Seq<char>,
}

impl View for PresetDetail {
    type V = DetailView;

    open spec fn view(&self) -> DetailView {
        DetailView {
            body_model: self.body_model@,
            body_batch: self.body_batch,
            face_model: match self.face_model {
                Some(f) => Some(f@),
                None => None,
            },
            face_batch: self.face_batch,
            detect_every: self.detect_every,
            conf: self.conf,
            backend_desc: self.backend_desc@,
        }
    }
}

/// A preset as it is listed. The score is the bits of a single-precision number.
#[derive(Debug, Clone)]
pub struct PresetInfo {
    pub id: String,
    pub label: String,
    pub available: bool,
    pub body_model: String,
    pub face_model: String,
    pub conf: u32,
    pub downloadable: bool,
    pub desc: String,
    pub detail: Option<PresetDetail>,
}

/// What a [`PresetInfo`] says.
#[verifier::ext_equal]
pub struct PresetView {
    pub id: Seq<char>,
    pub label: Seq<char>,
    pub available: bool,
    pub body_model: Seq<char>,
    pub face_model: Seq<char>,
    pub conf: u32,
    pub downloadable: bool,
    pub desc: Seq<char>,
    pub detail: Option<DetailView>,
}

impl View for PresetInfo {
    type V = PresetView;

    open spec fn view(&self) -> PresetView {
        PresetView {
            id: self.id@,
            label: self.label@,
            available: self.available,
            body_model: self.body_model@,
            face_model: self.face_model@,
            conf: self.conf,
            downloadable: self.downloadable,
            desc: self.desc@,
            detail: match self.detail {
                Some(d) => Some(d@),
                None => None,
            },
        }
    }
}

/// The presets of a list.
pub open spec fn preset_views(s: Seq<PresetInfo>) -> Seq<PresetView> {
    s.map_values(|p: PresetInfo| p@)
}

/// The name of the file at a path, without its ending; a question mark, if the path names none.
pub open spec fn shown_name(platform: Platform, path: Seq<char>) -> Seq<char> {
    let r = route_of(platform, path);
    if r.parts.len() > 0 && r.parts.last() != ".."@ {
        stem(r.parts.last())
    } else {
        "?"@
    }
}

fn name_shown(platform: Platform, path: &str) -> (r: String)
    ensures
        r@ == shown_name(platform, path@),
{
    let route = Route::parse(platform, path);
    let n: usize = route.parts.len();
    if n > 0 {
        assert(route@.parts.last() == route.parts@[n - 1]@);
        if !same(route.parts[n - 1].as_str(), "..") {
            return stem_of(route.parts[n - 1].as_str());
        }
    }
    "?".to_owned()
}

/// Whether the list of models tells where a model is fetched from; `direct`: a direct source counts too.
pub open spec fn can_be_had(m: Option<&Manifest>, file: Seq<char>, direct: bool) -> bool {
    m is Some && match entry_from(m->0.models@, file, 0) {
        Some(i) => {
            let e = m->0.models@[i];
            e.url is Some || e.mirror_url is Some || (direct && e.direct_url is Some)
        },
        None => false,
    }
}

fn to_be_had(m: Option<&Manifest>, file: &str, direct: bool) -> (r: bool)
    ensures
        r == can_be_had(m, file@, direct),
{
    match m {
        Some(m) => match m.find(file) {
            Some(e) => e.url.is_some() || e.mirror_url.is_some() || (direct && e.direct_url.is_some()),
            None => false,
        },
        None => false,
    }
}

/// The entry of a preset other than the most thorough one; `dir` is where a user keeps models.
pub open spec fn preset_entry(
    platform: Platform,
    q: QualityPreset,
    f: PresetFiles,
    m: Option<&Manifest>,
    dir: Seq<char>,
    device: Seq<char>,
) -> PresetView {
    PresetView {
        id: id_of(q),
        label: label_of(q),
        available: f.present,
        body_model: f.body@,
        face_model: match f.face {
            Some(p) => p@,
            None => Seq::empty(),
        },
        conf: conf_of(q),
        downloadable: !f.present && can_be_had(m, body_of(q), false),
        desc: preset_text(body_of(q), dir, f.present),
        detail: if f.present {
            Some(
                DetailView {
                    body_model: shown_name(platform, f.body@),
                    body_batch: f.body_batch,
                    face_model: match f.face {
                        Some(p) => Some(shown_name(platform, p@)),
                        None => None,
                    },
                    face_batch: f.face is Some && f.face_batch,
                    detect_every: 1,
                    conf: conf_of(q),
                    backend_desc: device,
                },
            )
        } else {
            None
        },
    }
}

/// Whether all parts of the most thorough preset are there.
pub open spec fn all_there(parts: Seq<bool>) -> bool {
    parts[0] && parts[1] && parts[2] && parts[3] && parts[4]
}

/// Whether all parts of the most thorough preset can be fetched.
pub open spec fn all_can_be_had(m: Option<&Manifest>) -> bool {
    &&& can_be_had(m, body_of(QualityPreset::Archive), true)
    &&& can_be_had(m, "grounding-dino-tiny.onnx"@, true)
    &&& can_be_had(m, "sam2.1-large-encoder.onnx"@, true)
    &&& can_be_had(m, "sam2.1-large-decoder.onnx"@, true)
    &&& can_be_had(m, "retinaface-r34.onnx"@, true)
}

/// The entry of the most thorough preset, given which of its parts are there.
pub open spec fn archive_entry(parts: Seq<bool>, m: Option<&Manifest>, device: Seq<char>) -> PresetView {
    let q = QualityPreset::Archive;
    PresetView {
        id: id_of(q),
        label: label_of(q),
        available: all_there(parts),
        body_model: body_of(q),
        face_model: "retinaface-r34.onnx"@,
        conf: conf_of(q),
        downloadable: !all_there(parts) && all_can_be_had(m),
        desc: archive_text(archive_parts(), parts),
        detail: if all_there(parts) {
            Some(
                DetailView {
                    body_model: "ensemble: "@ + bare(body_of(q)) + " + "@ + bare("grounding-dino-tiny.onnx"@)
                        + " + SAM2.1-large + "@ + bare("retinaface-r34.onnx"@),
                    body_batch: false,
                    face_model: Some("retinaface-r34 滑窗"@),
                    face_batch: false,
                    detect_every: 1,
                    conf: conf_of(q),
                    backend_desc: device,
                },
            )
        } else {
            None
        },
    }
}

fn list_preset(
    platform: Platform,
    q: QualityPreset,
    p: &PresetParams,
    f: &PresetFiles,
    m: Option<&Manifest>,
    dir: &str,
    device: &str,
) -> (r: PresetInfo)
    requires
        settings_of(q, *p),
    ensures
        r@ == preset_entry(platform, q, *f, m, dir@, device@),
{
    let mut face = String::new();
    let mut face_shown: Option<String> = None;
    match &f.face {
        Some(path) => {
            append(&mut face, path.as_str());
            face_shown = Some(name_shown(platform, path.as_str()));
        },
        None => {},
    }
    let mut detail: Option<PresetDetail> = None;
    if f.present {
        detail = Some(
            PresetDetail {
                body_model: name_shown(platform, f.body.as_str()),
                body_batch: f.body_batch,
                face_model: face_shown,
                face_batch: f.face.is_some() && f.face_batch,
                detect_every: p.detect_every,
                conf: p.conf,
                backend_desc: device.to_owned(),
            },
        );
    }
    let info = PresetInfo {
        id: q.id().to_owned(),
        label: q.label().to_owned(),
        available: f.present,
        body_model: f.body.as_str().to_owned(),
        face_model: face,
        conf: p.conf,
        downloadable: !f.present && to_be_had(m, p.body_model.as_str(), false),
        desc: preset_desc(p, dir, f.present),
        detail,
    };
    assert(info@ =~= preset_entry(platform, q, *f, m, dir@, device@));
    info
}

fn list_archive(parts: [bool; 5], m: Option<&Manifest>, device: &str) -> (r: PresetInfo)
    ensures
        r@ == archive_entry(parts@, m, device@),
{
    let there: bool = parts[0] && parts[1] && parts[2] && parts[3] && parts[4];
    let q = QualityPreset::Archive;
    let had: bool = to_be_had(m, "yolo26x-seg-1536.onnx", true) && to_be_had(m, "grounding-dino-tiny.onnx", true)
        && to_be_had(m, "sam2.1-large-encoder.onnx", true) && to_be_had(m, "sam2.1-large-decoder.onnx", true)
        && to_be_had(m, "retinaface-r34.onnx", true);
    let mut detail: Option<PresetDetail> = None;
    if there {
        let mut models = "ensemble: ".to_owned();
        append(&mut models, bare_name("yolo26x-seg-1536.onnx").as_str());
        append(&mut models, " + ");
        append(&mut models, bare_name("grounding-dino-tiny.onnx").as_str());
        append(&mut models, " + SAM2.1-large + ");
        append(&mut models, bare_name("retinaface-r34.onnx").as_str());
        detail = Some(
            PresetDetail {
                body_model: models,
                body_batch: false,
                face_model: Some("retinaface-r34 滑窗".to_owned()),
                face_batch: false,
                detect_every: 1,
                conf: CONF_LOWEST,
                backend_desc: device.to_owned(),
            },
        );
    }
    let info = PresetInfo {
        id: q.id().to_owned(),
        label: q.label().to_owned(),
        available: there,
        body_model: "yolo26x-seg-1536.onnx".to_owned(),
        face_model: "retinaface-r34.onnx".to_owned(),
        conf: CONF_LOWEST,
        downloadable: !there && had,
        desc: archive_desc(parts),
        detail,
    };
    assert(info@ =~= archive_entry(parts@, m, device@));
    info
}

/// The presets, given what is there of the models of the first four and which parts of the last one are there, in the order
/// of [`archive_parts`]; `dir` is where a user keeps models.
pub fn list_presets(
    platform: Platform,
    device: &str,
    files: &[PresetFiles; 4],
    parts: [bool; 5],
    manifest: Option<&Manifest>,
    dir: &str,
) -> (r: Vec<PresetInfo>)
    ensures
        preset_views(r@) == ({
            let d = device_text(platform, device@);
            seq![
                preset_entry(platform, QualityPreset::Speed, files@[0], manifest, dir@, d),
                preset_entry(platform, QualityPreset::Balanced, files@[1], manifest, dir@, d),
                preset_entry(platform, QualityPreset::Accurate, files@[2], manifest, dir@, d),
                preset_entry(platform, QualityPreset::Extreme, files@[3], manifest, dir@, d),
                archive_entry(parts@, manifest, d),
            ]
        }),
{
    let desc = backend_desc(platform, device);
    let d: &str = desc.as_str();
    let first = [QualityPreset::Speed, QualityPreset::Balanced, QualityPreset::Accurate, QualityPreset::Extreme];
    let mut r: Vec<PresetInfo> = Vec::new();
    let ghost e = device_text(platform, device@);
    for i in 0..4usize
        invariant
            d@ == e,
            first@ == seq![
                QualityPreset::Speed,
                QualityPreset::Balanced,
                QualityPreset::Accurate,
                QualityPreset::Extreme,
            ],
            r@.len() == i,
            forall|k: int| 0 <= k < i ==> (#[trigger] r@[k])@ == preset_entry(platform, first@[k], files@[k], manifest, dir@, e),
    {
        match first[i].params() {
            Ok(p) => r.push(list_preset(platform, first[i], &p, &files[i], manifest, dir, d)),
            Err(_) => {},
        }
    }
    r.push(list_archive(parts, manifest, d));
    assert(preset_views(r@) =~= seq![
        preset_entry(platform, QualityPreset::Speed, files@[0], manifest, dir@, e),
        preset_entry(platform, QualityPreset::Balanced, files@[1], manifest, dir@, e),
        preset_entry(platform, QualityPreset::Accurate, files@[2], manifest, dir@, e),
        preset_entry(platform, QualityPreset::Extreme, files@[3], manifest, dir@, e),
        archive_entry(parts@, manifest, e),
    ]);
    r
}

// Corrections.
/// Adds what a user paints (`add`) or wipes out in a frame to the stored corrections; gives the bytes of the new file.
pub fn review_save_brush(file: Option<&[u8]>, frame: u64, add: bool, mask: Vec<u8>) -> (r: Vec<u8>)
    ensures
        r@ == patch_file(
            (match file {
                Some(b) => patches_in(b@),
                None => Seq::empty(),
            }).push(
                PatchView {
                    frame,
                    op: if add {
                        PatchOp::Add
                    } else {
                        PatchOp::Erase
                    },
                    mask: mask@,
                },
            ),
        ),
{
    let mut ps = PatchStore::load(file);
    let op: PatchOp = if add { PatchOp::Add } else { PatchOp::Erase };
    ps.push(Patch { frame, op, mask })
}

/// Drops the corrections of a frame; gives the bytes of the new file.
pub fn review_clear_frame(file: Option<&[u8]>, frame: u64) -> (r: Vec<u8>)
    ensures
        r@ == patch_file(
            without_frame(
                match file {
                    Some(b) => patches_in(b@),
                    None => Seq::empty(),
                },
                frame,
            ),
        ),
{
    let mut ps = PatchStore::load(file);
    ps.clear_frame(frame)
}

/// How the models are counted: each one counts where it belongs, and each of the three counts is the number of those that belong
/// there.
pub proof fn law_tally(r: Seq<Option<bool>>, n: int)
    requires
        0 <= n <= r.len(),
    ensures
        tally_upto(r, n).0 == crate::compose::total(
            |i: int|
                if r[i] == Some(true) {
                    1int
                } else {
                    0
                },
            n,
        ),
        tally_upto(r, n).1 == crate::compose::total(
            |i: int|
                if r[i] == Some(false) {
                    1int
                } else {
                    0
                },
            n,
        ),
        tally_upto(r, n).2 == crate::compose::total(
            |i: int|
                if r[i] is None {
                    1int
                } else {
                    0
                },
            n,
        ),
    decreases n,
{
    if n > 0 {
        law_tally(r, n - 1);
    }
}

/// The model that is missed is the first that is not there, and none is missed only if all are there.
pub proof fn law_first_missing(present: Seq<bool>, from: int)
    requires
        0 <= from,
    ensures
        first_false(present, from) is Some ==> from <= first_false(present, from)->0 < present.len() && !present[first_false(
            present,
            from,
        )->0],
        first_false(present, from) is Some ==> forall|j: int| from <= j < first_false(present, from)->0 ==> #[trigger] present[j],
        first_false(present, from) is None ==> forall|j: int| from <= j < present.len() ==> #[trigger] present[j],
    decreases present.len() - from,
{
    if from < present.len() && present[from] {
        law_first_missing(present, from + 1);
    }
}

/// A model's name without the ending of its file: the ending goes, however often it is there, and nothing else.
pub proof fn law_bare(s: Seq<char>)
    ensures
        bare(s + seq!['.', 'o', 'n', 'n', 'x']) == bare(s),
        s.len() < 5 || s.skip(s.len() - 5) != seq!['.', 'o', 'n', 'n', 'x'] ==> bare(s) == s,
{
    reveal_strlit(".onnx");
    let e = ".onnx"@;
    assert(e =~= seq!['.', 'o', 'n', 'n', 'x']);
    let t = s + e;
    assert(t.subrange(t.len() - 5, t.len() as int) =~= e);
    assert(t.take(t.len() - 5) =~= s);
    if s.len() >= 5 {
        assert(s.subrange(s.len() - 5, s.len() as int) =~= s.skip(s.len() - 5));
    }
}

/// What is missing: the names of those that are not there, in their order.
pub proof fn law_missing(names: Seq<Seq<char>>, present: Seq<bool>, n: int)
    requires
        0 <= n < names.len(),
        names.len() == present.len(),
    ensures
        missing_upto(names, present, 0).len() == 0,
        present[n] ==> missing_upto(names, present, n + 1) == missing_upto(names, present, n),
        !present[n] ==> missing_upto(names, present, n + 1) == missing_upto(names, present, n).push(names[n]),
{
}

/// How things are listed in a sentence: one after the other, with a mark between two and none before the first.
pub proof fn law_enumerated(s: Seq<Seq<char>>, n: int)
    requires
        0 < n < s.len(),
    ensures
        enumerated(s, 1) == s[0],
        enumerated(s, n + 1) == enumerated(s, n) + "、"@ + s[n],
{
}

/// Where a model runs: on the processor if that is asked for or nothing else is at hand, by Core ML on a Mac, by DirectML on Windows,
/// and by WebGPU on an x86 machine with Linux.
pub proof fn law_provider(x86: bool, device: Seq<char>)
    ensures
        forall|p: Platform| #[trigger] provider_of(p, x86, "cpu"@) == Provider::Cpu,
        device != "cpu"@ ==> provider_of(Platform::Windows, x86, device) == Provider::DirectMl,
        provider_of(Platform::Other, x86, device) == Provider::Cpu,
        provider_of(Platform::Unix, false, device) == Provider::Cpu,
        provider_of(Platform::Unix, true, "openvino"@) == Provider::Cpu,
        device != "cpu"@ && device != "openvino"@ ==> provider_of(Platform::Unix, true, device) == Provider::WebGpu,
        provider_of(Platform::MacOs, x86, "gpu"@) == Provider::CoreMlGpu,
        provider_of(Platform::MacOs, x86, "ane"@) == Provider::CoreMlNeural,
        device != "cpu"@ && device != "gpu"@ && device != "ane"@ ==> provider_of(Platform::MacOs, x86, device) == Provider::CoreMlAll,
{
    reveal_strlit("cpu");
    reveal_strlit("gpu");
    reveal_strlit("ane");
    assert("cpu"@[0] == 'c' && "gpu"@[0] == 'g' && "ane"@[0] == 'a');
}

/// How a device is described: by what the models run on, on each system.
pub proof fn law_device_text(device: Seq<char>)
    ensures
        forall|p: Platform| #[trigger] device_text(p, "cpu"@) == "CPU（ONNX Runtime）"@,
        device_text(Platform::MacOs, "gpu"@) == "CoreML（"@ + "CPU+GPU"@ + "）"@,
        device_text(Platform::MacOs, "ane"@) == "CoreML（"@ + "CPU+NPU"@ + "）"@,
        device != "cpu"@ && device != "gpu"@ && device != "ane"@ ==> device_text(Platform::MacOs, device) == "CoreML（"@
            + "CPU/GPU/NPU 自动调度"@ + "）"@,
        device != "cpu"@ && device != "openvino"@ ==> device_text(Platform::Unix, device) == "WebGPU（Dawn/Vulkan，实验）"@,
        device_text(Platform::Unix, "openvino"@) == "OpenVINO（Intel CPU/GPU）"@,
        device_text(Platform::Windows, "directml"@) == "DirectML（DX12）"@,
        device_text(Platform::Windows, "webgpu"@) == "WebGPU（Dawn/Vulkan，实验）"@,
        device_text(Platform::Windows, "openvino"@) == "OpenVINO（Intel CPU/GPU）"@,
        device != "webgpu"@ && device != "directml"@ && device != "openvino"@ ==> device_text(Platform::Windows, device)
            == "CPU（ONNX Runtime）"@,
{
    reveal_strlit("cpu");
    reveal_strlit("gpu");
    reveal_strlit("ane");
    reveal_strlit("webgpu");
    reveal_strlit("directml");
    reveal_strlit("openvino");
    assert("cpu"@[0] == 'c' && "gpu"@[0] == 'g' && "ane"@[0] == 'a' && "webgpu"@[0] == 'w' && "directml"@[0] == 'd' && "openvino"@[0]
        == 'o');
}

/// The choices of a system: the automatic one is first and the processor last, what lies between is what the system has, and each is
/// described as what runs on it.
pub proof fn law_backends(platform: Platform, i: int)
    requires
        0 <= i < backends_on(platform).len(),
    ensures
        backends_on(platform)[0].id == "auto"@,
        backends_on(platform).last().id == "cpu"@,
        platform == Platform::MacOs ==> backends_on(platform).len() == 4 && backends_on(platform)[1].id == "gpu"@ && backends_on(
            platform,
        )[2].id == "ane"@,
        platform == Platform::Windows ==> backends_on(platform).len() == 3 && backends_on(platform)[1].id == "directml"@,
        platform == Platform::Unix || platform == Platform::Other ==> backends_on(platform).len() == 2,
        backends_on(platform)[i].available,
        backends_on(platform)[i].desc == device_text(platform, backends_on(platform)[i].id),
{
}

/// A model can be had if the first entry of its name in the list of models has a directory to fetch it from, or, where that is
/// enough, an address of its own.
pub proof fn law_can_be_had(m: &Manifest, file: Seq<char>, direct: bool, i: int)
    requires
        0 <= i < m.models@.len(),
        m.models@[i].file@ == file,
        forall|j: int| 0 <= j < i ==> #[trigger] m.models@[j].file@ != file,
    ensures
        can_be_had(Some(m), file, direct) == (m.models@[i].url is Some || m.models@[i].mirror_url is Some || (direct
            && m.models@[i].direct_url is Some)),
        !can_be_had(None, file, direct),
{
    crate::models::law_entry(m.models@, file, 0);
    if entry_from(m.models@, file, 0) is Some {
        let k = entry_from(m.models@, file, 0)->0;
        assert(!(k < i));
        assert(!(i < k));
    }
}

/// How a preset is listed: it is there as far as its files are, it can be fetched only if it is not there, and only what is there is
/// described further.
pub proof fn law_preset_entry(platform: Platform, q: QualityPreset, f: PresetFiles, m: Option<&Manifest>, dir: Seq<char>, device: Seq<char>)
    ensures
        ({
            let v = preset_entry(platform, q, f, m, dir, device);
            &&& v.available == f.present
            &&& v.body_model == f.body@
            &&& f.face is Some ==> v.face_model == f.face->0@
            &&& f.face is None ==> v.face_model.len() == 0
            &&& v.downloadable ==> !f.present
            &&& v.detail is Some <==> f.present
            &&& f.present ==> v.desc.len() == 0
            &&& f.present ==> v.detail->0.detect_every == 1 && v.detail->0.conf == v.conf && v.detail->0.backend_desc == device
            &&& f.present ==> v.detail->0.body_batch == f.body_batch && v.detail->0.face_batch == (f.face is Some && f.face_batch)
            &&& f.present ==> (v.detail->0.face_model is Some <==> f.face is Some)
            &&& !f.present ==> v.desc == "缺少模型 "@ + body_of(q) + "（未随安装包分发：可在本页直接下载，或获取 ONNX 放入 "@ + dir + "）"@
        }),
{
}

/// How the highest preset is listed: it is there if all five of its models are, it can be fetched only if one is missing and all can
/// be had, and what is missing is named.
pub proof fn law_archive_entry(parts: Seq<bool>, m: Option<&Manifest>, device: Seq<char>)
    requires
        parts.len() == 5,
    ensures
        ({
            let v = archive_entry(parts, m, device);
            &&& v.available <==> forall|i: int| 0 <= i < 5 ==> #[trigger] parts[i]
            &&& v.downloadable ==> !v.available && m is Some
            &&& v.detail is Some <==> v.available
            &&& v.available ==> v.desc.len() == 0
            &&& v.available ==> v.detail->0.detect_every == 1 && v.detail->0.backend_desc == device && v.detail->0.conf == v.conf
            &&& v.face_model == "retinaface-r34.onnx"@
            &&& !parts[0] && parts[1] && parts[2] && parts[3] && parts[4] ==> v.desc == "极限·档案级（两阶段 分析→复核→渲染）：缺少 "@
                + "YOLO26x@1536"@ + "（scripts/fetch_m5_models.sh 或本页下载）"@
            &&& parts[0] && parts[1] && parts[2] && parts[3] && !parts[4] ==> v.desc == "极限·档案级（两阶段 分析→复核→渲染）：缺少 "@
                + "RetinaFace"@ + "（scripts/fetch_m5_models.sh 或本页下载）"@
        }),
{
    reveal_with_fuel(missing_upto, 6);
    if parts[0] && parts[1] && parts[2] && parts[3] && parts[4] {
        assert forall|i: int| 0 <= i < 5 implies #[trigger] parts[i] by {
            assert(i == 0 || i == 1 || i == 2 || i == 3 || i == 4);
        }
        assert(missing_upto(archive_parts(), parts, 5).len() == 0);
    }
    if !parts[0] && parts[1] && parts[2] && parts[3] && parts[4] {
        assert(missing_upto(archive_parts(), parts, 5) =~= seq!["YOLO26x@1536"@]);
    }
    if parts[0] && parts[1] && parts[2] && parts[3] && !parts[4] {
        assert(missing_upto(archive_parts(), parts, 5) =~= seq!["RetinaFace"@]);
    }
}

/// How a model is listed: under the name and with the size of its entry, as there or missing as its file is, and as one that can be
/// fetched if it is missing and some address of it is known. A second file that the entry does not name does not count.
pub proof fn law_lists(i: ModelInfo, e: ManifestEntry, present: bool, batch_present: bool)
    ensures
        lists(i, e, present, batch_present) <==> {
            &&& i.file@ == e.file@
            &&& i.imgsz == e.imgsz
            &&& i.present == present
            &&& e.batch_file is None ==> !i.batch_present
            &&& e.batch_file is Some ==> i.batch_present == batch_present
            &&& present ==> !i.downloadable
            &&& !present && e.url is None && e.mirror_url is None && e.direct_url is None ==> !i.downloadable
            &&& !present && (e.url is Some || e.mirror_url is Some || e.direct_url is Some) ==> i.downloadable
        },
{
}

} // verus!
