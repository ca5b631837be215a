//! From what a user asks for to what is done: styles, formats, presets, models, decoders and encoders.
use crate::compose::MaskStyle;
use crate::media::{last_dot, maybe, word, FrameFormat, Platform};
use crate::paths::{join, joined, parent_of, rendered, route_of, Route};
use crate::preset::{label_of, preset_of, settings_of, PresetParams, QualityPreset, CONF_USUAL};
use crate::probe::maybe_text;
use crate::text::{append, chars_of, dec, decimal, same, slice, text_of, texts};
use vstd::prelude::*;

verus! {

/// A number brought between two others.
pub open spec fn between(v: u32, low: u32, high: u32) -> u32 {
    if v < low {
        low
    } else if v > high {
        high
    } else {
        v
    }
}

/// The style that a name and a strength stand for.
pub open spec fn style_of(s: Seq<char>, strength: u32) -> Option<MaskStyle> {
    if s == "mosaic"@ {
        Some(MaskStyle::Mosaic { cell: between(strength, 2, 128) as usize })
    } else if s == "blur"@ {
        Some(MaskStyle::Blur { radius: between(strength, 1, 64) as usize })
    } else if s == "solid"@ {
        Some(MaskStyle::Solid)
    } else {
        None
    }
}

fn bring(v: u32, low: u32, high: u32) -> (r: u32)
    ensures
        r == between(v, low, high),
{
    if v < low {
        low
    } else if v > high {
        high
    } else {
        v
    }
}

/// `head`, a name, and `tail`.
fn phrase(head: &str, name: &str, tail: &str) -> (s: String)
    ensures
        s@ == head@ + name@ + tail@,
{
    let mut s = head.to_owned();
    append(&mut s, name);
    append(&mut s, tail);
    s
}

/// The style that a name and a strength stand for.
pub fn parse_style(s: &str, strength: u32) -> (r: Result<MaskStyle, String>)
    ensures
        match style_of(s@, strength) {
            Some(m) => r == Ok::<MaskStyle, String>(m),
            None => r is Err && r->Err_0@ == "未知样式 "@ + s@ + "（可选 mosaic/blur/solid）"@,
        },
{
    if same(s, "mosaic") {
        Ok(MaskStyle::Mosaic { cell: bring(strength, 2, 128) as usize })
    } else if same(s, "blur") {
        Ok(MaskStyle::Blur { radius: bring(strength, 1, 64) as usize })
    } else if same(s, "solid") {
        Ok(MaskStyle::Solid)
    } else {
        Err(phrase("未知样式 ", s, "（可选 mosaic/blur/solid）"))
    }
}

/// The way frames come out of the decoder that a name stands for.
pub fn parse_pipe_format(s: &str) -> (r: Result<FrameFormat, String>)
    ensures
        if s@ == "nv12"@ {
            r == Ok::<FrameFormat, String>(FrameFormat::Nv12)
        } else if s@ == "mjpeg"@ {
            r == Ok::<FrameFormat, String>(FrameFormat::Mjpeg)
        } else {
            r is Err && r->Err_0@ == "未知管道格式 "@ + s@ + "（可选 nv12/mjpeg）"@
        },
{
    if same(s, "nv12") {
        Ok(FrameFormat::Nv12)
    } else if same(s, "mjpeg") {
        Ok(FrameFormat::Mjpeg)
    } else {
        Err(phrase("未知管道格式 ", s, "（可选 nv12/mjpeg）"))
    }
}

/// Which of two sets of refinement models a name stands for.
#[derive(Debug, Clone, Copy, PartialEq, Eq, Structural)]
pub enum SamSize {
    Tiny,
    Large,
}

/// Which set of refinement models a name stands for; `hint` is what an error says about the names there are.
pub fn parse_sam_size(s: &str, hint: &str) -> (r: Result<SamSize, String>)
    ensures
        if s@ == "tiny"@ {
            r == Ok::<SamSize, String>(SamSize::Tiny)
        } else if s@ == "large"@ {
            r == Ok::<SamSize, String>(SamSize::Large)
        } else {
            r is Err && r->Err_0@ == "未知 SAM 规格 "@ + s@ + hint@
        },
{
    if same(s, "tiny") {
        Ok(SamSize::Tiny)
    } else if same(s, "large") {
        Ok(SamSize::Large)
    } else {
        Err(phrase("未知 SAM 规格 ", s, hint))
    }
}

/// The files of the refinement models: the one that encodes frames and the one that decodes masks.
pub fn sam_models(size: SamSize) -> (r: (&'static str, &'static str))
    ensures
        size == SamSize::Tiny ==> r.0@ == "sam2.1-tiny-encoder.onnx"@ && r.1@ == "sam2.1-tiny-decoder.onnx"@,
        size == SamSize::Large ==> r.0@ == "sam2.1-large-encoder.onnx"@ && r.1@ == "sam2.1-large-decoder.onnx"@,
{
    match size {
        SamSize::Tiny => ("sam2.1-tiny-encoder.onnx", "sam2.1-tiny-decoder.onnx"),
        SamSize::Large => ("sam2.1-large-encoder.onnx", "sam2.1-large-decoder.onnx"),
    }
}

// Models.
/// A file name without its ending.
pub open spec fn stem(name: Seq<char>) -> Seq<char> {
    match last_dot(name) {
        Some(i) => if i > 0 {
            name.take(i)
        } else {
            name
        },
        None => name,
    }
}

/// The path of the model for `n` frames at a time that stands beside a model.
pub open spec fn batch_path(platform: Platform, model: Seq<char>, n: nat) -> Seq<char> {
    let r = route_of(platform, model);
    let named = r.parts.len() > 0 && r.parts.last() != ".."@;
    let s = if named {
        stem(r.parts.last())
    } else {
        Seq::empty()
    };
    let dir = if named {
        rendered(platform, parent_of(r)->0)
    } else {
        model
    };
    joined(platform, dir, s + "-b"@ + dec(n) + ".onnx"@)
}

/// A file name without its ending.
pub fn stem_of(name: &str) -> (r: String)
    ensures
        r@ == stem(name@),
{
    let s = chars_of(name);
    let mut i: usize = s.len();
    assert(s@.take(s@.len() as int) =~= s@);
    while i > 0
        invariant
            i <= s@.len(),
            s@ == name@,
            last_dot(s@) == last_dot(s@.take(i as int)),
        decreases i,
    {
        assert(s@.take(i as int).last() == s@[i - 1]);
        assert(s@.take(i as int).drop_last() =~= s@.take(i - 1));
        if s[i - 1] == '.' {
            if i == 1 {
                return name.to_owned();
            }
            let t = slice(&s, 0, i - 1);
            assert(t@ =~= s@.take(i - 1));
            return text_of(&t);
        }
        i = i - 1;
    }
    name.to_owned()
}

/// The path of the model for `n` frames at a time that stands beside a model.
pub fn batch_variant(platform: Platform, model: &str, n: u32) -> (r: String)
    ensures
        r@ == batch_path(platform, model@, n as nat),
{
    let route = Route::parse(platform, model);
    let count: usize = route.parts.len();
    let mut name = String::new();
    let mut dir = model.to_owned();
    if count > 0 {
        assert(route@.parts.last() == route.parts@[count - 1]@);
        if !same(route.parts[count - 1].as_str(), "..") {
            name = stem_of(route.parts[count - 1].as_str());
            match route.parent() {
                Some(p) => {
                    dir = p.render(platform);
                },
                None => {},
            }
        }
    }
    append(&mut name, "-b");
    append(&mut name, decimal(n as u64).as_str());
    append(&mut name, ".onnx");
    proof {
        let r = route_of(platform, model@);
        let named = r.parts.len() > 0 && r.parts.last() != ".."@;
        let s = if named {
            stem(r.parts.last())
        } else {
            Seq::empty()
        };
        assert(name@ =~= s + "-b"@ + dec(n as nat) + ".onnx"@);
    }
    join(platform, dir.as_str(), name.as_str())
}

/// What is known of the models of a preset: where the first one is and whether it is there, and which of the models for
/// faces is there.
pub struct Found {
    pub body: String,
    pub body_exists: bool,
    pub face: Option<String>,
}

/// What a user sets beside a preset. Scores are the bits of single-precision numbers.
pub struct Given {
    pub model: Option<String>,
    pub face_model: Option<String>,
    pub conf: Option<u32>,
    pub face_expand: Option<u32>,
    pub batch: Option<u32>,
    pub detect_every: Option<u32>,
    pub no_face: bool,
    pub face_roi: bool,
    pub tta: Option<bool>,
}

/// What is done in the end.
#[derive(Debug, Clone)]
pub struct EffectiveParams {
    pub model: String,
    pub face_model: Option<String>,
    pub conf: u32,
    pub face_expand: u32,
    pub batch: u32,
    pub detect_every: u32,
    pub face_roi: bool,
    pub tta: bool,
    pub preset_label: String,
}

/// A number, or another in its stead.
pub open spec fn or_else(a: Option<u32>, b: u32) -> u32 {
    match a {
        Some(v) => v,
        None => b,
    }
}

/// A truth value, or another in its stead.
pub open spec fn or_bool(a: Option<bool>, b: bool) -> bool {
    match a {
        Some(v) => v,
        None => b,
    }
}

/// A text, or another in its stead.
pub open spec fn or_text(a: Option<Seq<char>>, b: Seq<char>) -> Seq<char> {
    match a {
        Some(v) => v,
        None => b,
    }
}

/// Whether `e` is what is done without a preset.
pub open spec fn merged_alone(g: Given, e: EffectiveParams) -> bool {
    &&& e.model@ == or_text(maybe_text(g.model), "models/yolo11n-seg.onnx"@)
    &&& maybe_text(e.face_model) == (if g.no_face {
        None
    } else {
        Some(or_text(maybe_text(g.face_model), "models/yolov8n-face.onnx"@))
    })
    &&& e.conf == or_else(g.conf, CONF_USUAL)
    &&& e.face_expand == or_else(g.face_expand, 12)
    &&& e.batch == or_else(g.batch, 4)
    &&& e.detect_every == or_else(g.detect_every, 1)
    &&& e.face_roi == g.face_roi
    &&& e.tta == or_bool(g.tta, false)
    &&& e.preset_label@ == "无预设（显式参数）"@
}

/// Whether `e` is what is done with a preset whose settings are `p`: what the user sets comes first.
pub open spec fn merged_with(q: QualityPreset, p: PresetParams, g: Given, f: Found, e: EffectiveParams) -> bool {
    &&& e.model@ == or_text(maybe_text(g.model), f.body@)
    &&& maybe_text(e.face_model) == (if g.no_face {
        None
    } else {
        Some(or_text(maybe_text(g.face_model), or_text(maybe_text(f.face), p.face_model@)))
    })
    &&& e.conf == or_else(g.conf, p.conf)
    &&& e.face_expand == or_else(g.face_expand, p.face_expand)
    &&& e.batch == or_else(g.batch, p.batch)
    &&& e.detect_every == or_else(g.detect_every, p.detect_every)
    &&& e.face_roi == (g.face_roi || p.face_roi)
    &&& e.tta == or_bool(g.tta, p.tta)
    &&& e.preset_label@ == "预设="@ + label_of(q)
}

fn pick_text(a: &Option<String>, b: &str) -> (r: String)
    ensures
        r@ == or_text(maybe_text(*a), b@),
{
    match a {
        Some(s) => s.clone(),
        None => b.to_owned(),
    }
}

fn pick(a: Option<u32>, b: u32) -> (r: u32)
    ensures
        r == or_else(a, b),
{
    match a {
        Some(v) => v,
        None => b,
    }
}

fn pick_bool(a: Option<bool>, b: bool) -> (r: bool)
    ensures
        r == or_bool(a, b),
{
    match a {
        Some(v) => v,
        None => b,
    }
}

/// What is said when the model of a preset is missing.
pub open spec fn missing_body(q: QualityPreset, model: Seq<char>, hint: Seq<char>) -> Seq<char> {
    "预设["@ + label_of(q) + "]缺少人体模型 "@ + model + hint
}

fn say_missing(q: QualityPreset, model: &str, hint: &str) -> (s: String)
    ensures
        s@ == missing_body(q, model@, hint@),
{
    let mut s = "预设[".to_owned();
    append(&mut s, q.label());
    append(&mut s, "]缺少人体模型 ");
    append(&mut s, model);
    append(&mut s, hint);
    s
}

/// Puts together a preset, if there is one, and what the user sets.
pub fn merge_params(preset: Option<&str>, g: &Given, f: &Found) -> (r: Result<EffectiveParams, String>)
    ensures
        match maybe(preset) {
            None => r is Ok && merged_alone(*g, r->Ok_0),
            Some(id) => match preset_of(id) {
                None => r is Err && r->Err_0@ == "未知预设 "@ + id
                    + "（可选 speed/balanced/accurate/extreme；archive 档走两阶段 analyze → render）"@,
                Some(q) => exists|p: PresetParams| #[trigger] settings_of(q, p) && (if !f.body_exists {
                    r is Err && r->Err_0@ == missing_body(
                        q,
                        p.body_model@,
                        "（运行 scripts/export_models.sh 导出或在设置中下载）"@,
                    )
                } else {
                    r is Ok && merged_with(q, p, *g, *f, r->Ok_0)
                }),
            },
        },
{
    match preset {
        None => {
            let face_model: Option<String> = if g.no_face {
                None
            } else {
                Some(pick_text(&g.face_model, "models/yolov8n-face.onnx"))
            };
            Ok(
                EffectiveParams {
                    model: pick_text(&g.model, "models/yolo11n-seg.onnx"),
                    face_model,
                    conf: pick(g.conf, CONF_USUAL),
                    face_expand: pick(g.face_expand, 12),
                    batch: pick(g.batch, 4),
                    detect_every: pick(g.detect_every, 1),
                    face_roi: g.face_roi,
                    tta: pick_bool(g.tta, false),
                    preset_label: "无预设（显式参数）".to_owned(),
                },
            )
        },
        Some(id) => match QualityPreset::from_id(id) {
            None => Err(
                phrase(
                    "未知预设 ",
                    id,
                    "（可选 speed/balanced/accurate/extreme；archive 档走两阶段 analyze → render）",
                ),
            ),
            Some(q) => {
                let p = match q.params() {
                    Ok(p) => p,
                    Err(e) => {
                        return Err(e);
                    },
                };
                let ghost was = p;
                assert(settings_of(q, was));
                if !f.body_exists {
                    return Err(
                        say_missing(q, p.body_model.as_str(), "（运行 scripts/export_models.sh 导出或在设置中下载）"),
                    );
                }
                let face_model: Option<String> = if g.no_face {
                    None
                } else {
                    let there = pick_text(&f.face, p.face_model.as_str());
                    Some(pick_text(&g.face_model, there.as_str()))
                };
                let mut label = "预设=".to_owned();
                append(&mut label, q.label());
                let e = EffectiveParams {
                    model: pick_text(&g.model, f.body.as_str()),
                    face_model,
                    conf: pick(g.conf, p.conf),
                    face_expand: pick(g.face_expand, p.face_expand),
                    batch: pick(g.batch, p.batch),
                    detect_every: pick(g.detect_every, p.detect_every),
                    face_roi: g.face_roi || p.face_roi,
                    tta: pick_bool(g.tta, p.tta),
                    preset_label: label,
                };
                assert(merged_with(q, was, *g, *f, e));
                Ok(e)
            },
        },
    }
}

/// What the window's user asks for. Scores are the bits of single-precision numbers; zero means that the preset decides.
pub struct Wish {
    pub preset: String,
    pub conf: u32,
    pub model_path: Option<String>,
    pub face: bool,
    pub face_expand: u32,
    pub detect_every: u32,
    /// 1 is yes, 2 is no, anything else leaves it to the preset.
    pub face_roi: u8,
    pub batch: u32,
    /// 1 is yes, 2 is no, anything else leaves it to the preset.
    pub tta: u8,
}

/// What is done in the end.
#[derive(Debug, Clone)]
pub struct Effective {
    pub body: String,
    pub face: Option<String>,
    pub conf: u32,
    pub face_expand: u32,
    pub detect_every: u32,
    pub batch: u32,
    pub face_roi: bool,
    pub tta: bool,
}

/// A number, or another in its stead if it is zero.
pub open spec fn unless_zero(a: u32, b: u32) -> u32 {
    if a > 0 {
        a
    } else {
        b
    }
}

/// Yes, no, or what the preset says.
pub open spec fn three_ways(a: u8, b: bool) -> bool {
    if a == 1 {
        true
    } else if a == 2 {
        false
    } else {
        b
    }
}

fn nonzero_or(a: u32, b: u32) -> (r: u32)
    ensures
        r == unless_zero(a, b),
{
    if a > 0 {
        a
    } else {
        b
    }
}

fn decide(a: u8, b: bool) -> (r: bool)
    ensures
        r == three_ways(a, b),
{
    if a == 1 {
        true
    } else if a == 2 {
        false
    } else {
        b
    }
}

/// Whether the user names a model.
pub open spec fn names_model(w: Wish) -> bool {
    w.model_path is Some && w.model_path->0@.len() > 0
}

/// Whether `e` is what is done for a wish, with a preset whose settings are `p`.
pub open spec fn effective_with(p: PresetParams, w: Wish, f: Found, e: Effective) -> bool {
    &&& e.body@ == (if names_model(w) {
        w.model_path->0@
    } else {
        f.body@
    })
    &&& maybe_text(e.face) == (if w.face {
        maybe_text(f.face)
    } else {
        None
    })
    &&& e.conf == w.conf
    &&& e.face_expand == unless_zero(w.face_expand, p.face_expand)
    &&& e.detect_every == unless_zero(w.detect_every, p.detect_every)
    &&& e.batch == unless_zero(w.batch, p.batch)
    &&& e.face_roi == three_ways(w.face_roi, p.face_roi)
    &&& e.tta == three_ways(w.tta, p.tta)
}

/// Puts together the preset and the rest of a wish. The most thorough preset is not for a single pass.
pub fn effective_opts(w: &Wish, f: &Found) -> (r: Result<Effective, String>)
    ensures
        match preset_of(w.preset@) {
            None => r is Err && r->Err_0@ == "未知预设 "@ + w.preset@ + "（可选 speed/balanced/accurate/extreme/archive）"@,
            Some(q) => if q == QualityPreset::Archive {
                r is Err && r->Err_0@ == "archive 档走两阶段：分析（archiveAnalyze）→ 复核 → 渲染（archiveRender）"@
            } else {
                exists|p: PresetParams| #[trigger] settings_of(q, p) && (if !names_model(*w) && !f.body_exists {
                    r is Err && r->Err_0@ == missing_body(
                        q,
                        p.body_model@,
                        "（运行 scripts/export_models.sh 或放入 models/）"@,
                    )
                } else {
                    r is Ok && effective_with(p, *w, *f, r->Ok_0)
                })
            },
        },
{
    let q = match QualityPreset::from_id(w.preset.as_str()) {
        None => {
            return Err(phrase("未知预设 ", w.preset.as_str(), "（可选 speed/balanced/accurate/extreme/archive）"));
        },
        Some(q) => q,
    };
    if q == QualityPreset::Archive {
        return Err("archive 档走两阶段：分析（archiveAnalyze）→ 复核 → 渲染（archiveRender）".to_owned());
    }
    let p = match q.params() {
        Ok(p) => p,
        Err(e) => {
            return Err(e);
        },
    };
    let ghost was = p;
    assert(settings_of(q, was));
    let named: bool = match &w.model_path {
        Some(m) => m.as_str().unicode_len() > 0,
        None => false,
    };
    if !named && !f.body_exists {
        return Err(say_missing(q, p.body_model.as_str(), "（运行 scripts/export_models.sh 或放入 models/）"));
    }
    let body: String = match &w.model_path {
        Some(m) => if named {
            m.clone()
        } else {
            f.body.clone()
        },
        None => f.body.clone(),
    };
    let face: Option<String> = if w.face {
        match &f.face {
            Some(s) => Some(s.clone()),
            None => None,
        }
    } else {
        None
    };
    let e = Effective {
        body,
        face,
        conf: w.conf,
        face_expand: nonzero_or(w.face_expand, p.face_expand),
        detect_every: nonzero_or(w.detect_every, p.detect_every),
        batch: nonzero_or(w.batch, p.batch),
        face_roi: decide(w.face_roi, p.face_roi),
        tta: decide(w.tta, p.tta),
    };
    assert(effective_with(was, *w, *f, e));
    Ok(e)
}

// Decoders and encoders.
/// The first of the first `n` names of a list that can be used.
pub open spec fn first_usable(names: Seq<Seq<char>>, usable: Seq<bool>, from: int) -> Option<Seq<char>>
    decreases usable.len() - from,
{
    if from >= usable.len() {
        None
    } else if usable[from] {
        Some(names[from])
    } else {
        first_usable(names, usable, from + 1)
    }
}

/// The way of decoding for a choice: `none` is without help; `auto` is the first way that was tried and can be used;
/// anything else is taken at its word.
pub fn resolve_hwaccel(choice: &str, tried: &Vec<String>, usable: &Vec<bool>) -> (r: Option<String>)
    requires
        tried@.len() == usable@.len(),
    ensures
        maybe_text(r) == (if choice@ == "none"@ {
            None
        } else if choice@ == "auto"@ {
            first_usable(texts(tried@), usable@, 0)
        } else {
            Some(choice@)
        }),
{
    if same(choice, "none") {
        return None;
    }
    if same(choice, "auto") {
        for i in 0..usable.len()
            invariant
                tried@.len() == usable@.len(),
                first_usable(texts(tried@), usable@, 0) == first_usable(texts(tried@), usable@, i as int),
                choice@ == "auto"@,
                choice@ != "none"@,
        {
            if usable[i] {
                assert(texts(tried@)[i as int] == tried@[i as int]@);
                return Some(tried[i].clone());
            }
        }
        return None;
    }
    Some(choice.to_owned())
}

/// The ways of the first `n` that can be used.
pub open spec fn usable_ways(names: Seq<Seq<char>>, usable: Seq<bool>, n: int) -> Seq<Seq<char>>
    decreases n,
{
    if n <= 0 {
        Seq::empty()
    } else if usable[n - 1] {
        usable_ways(names, usable, n - 1).push(names[n - 1])
    } else {
        usable_ways(names, usable, n - 1)
    }
}

/// The texts of a list some of whose places are empty.
pub open spec fn maybe_texts(s: Seq<Option<String>>) -> Seq<Option<Seq<char>>> {
    s.map_values(|t: Option<String>| maybe_text(t))
}

/// Ways of decoding, followed by that without help.
pub open spec fn then_software(s: Seq<Seq<char>>) -> Seq<Option<Seq<char>>> {
    s.map_values(|t: Seq<char>| Some(t)).push(None)
}

/// The ways of decoding for a choice, in the order in which they are tried; the last is without help.
pub fn resolve_hwaccels(choice: &str, names: &Vec<String>, usable: &Vec<bool>) -> (r: Vec<Option<String>>)
    requires
        names@.len() == usable@.len(),
    ensures
        maybe_texts(r@) == (if choice@ == "none"@ {
            then_software(Seq::empty())
        } else if choice@ == "auto"@ {
            then_software(usable_ways(texts(names@), usable@, usable@.len() as int))
        } else {
            then_software(seq![choice@])
        }),
{
    let mut r: Vec<Option<String>> = Vec::new();
    if same(choice, "none") {
        r.push(None);
        assert(maybe_texts(r@) =~= then_software(Seq::empty()));
        return r;
    }
    if same(choice, "auto") {
        let ghost all = texts(names@);
        for i in 0..usable.len()
            invariant
                names@.len() == usable@.len(),
                all == texts(names@),
                maybe_texts(r@) == usable_ways(all, usable@, i as int).map_values(|t: Seq<char>| Some(t)),
        {
            assert(all[i as int] == names@[i as int]@);
            if usable[i] {
                let ghost before = r@;
                r.push(Some(names[i].clone()));
                assert(maybe_texts(r@) =~= maybe_texts(before).push(Some(all[i as int])));
                assert(usable_ways(all, usable@, i + 1).map_values(|t: Seq<char>| Some(t)) =~= usable_ways(
                    all,
                    usable@,
                    i as int,
                ).map_values(|t: Seq<char>| Some(t)).push(Some(all[i as int])));
            }
        }
        let ghost before = r@;
        r.push(None);
        assert(maybe_texts(r@) =~= maybe_texts(before).push(None));
        return r;
    }
    r.push(Some(choice.to_owned()));
    r.push(None);
    assert(maybe_texts(r@) =~= then_software(seq![choice@]));
    r
}

/// A list that ends in the encoder that needs no graphics card: it is added if it is not there and can be used
/// (`x264`), and also if the list is empty.
pub open spec fn with_x264(l: Seq<Seq<char>>, x264: bool) -> Seq<Seq<char>> {
    if (!l.contains("libx264"@) && x264) || l.len() == 0 {
        l.push("libx264"@)
    } else {
        l
    }
}

/// The encoders for a choice, in the order in which they are tried: `auto` is those of the machine that can be used;
/// anything else is taken at its word.
pub open spec fn encoders_for(choice: Seq<char>, chain: Seq<Seq<char>>, usable: Seq<bool>, x264: bool) -> Seq<Seq<char>> {
    with_x264(
        if choice == "auto"@ {
            usable_ways(chain, usable, usable.len() as int)
        } else {
            seq![choice]
        },
        x264,
    )
}

/// The encoders for a choice, in the order in which they are tried.
pub fn resolve_encoders(choice: &str, chain: &Vec<String>, usable: &Vec<bool>, x264: bool) -> (r: Vec<String>)
    requires
        chain@.len() == usable@.len(),
    ensures
        texts(r@) == encoders_for(choice@, texts(chain@), usable@, x264),
        r@.len() > 0,
{
    let mut r: Vec<String> = Vec::new();
    let ghost all = texts(chain@);
    assert(texts(r@) =~= usable_ways(all, usable@, 0));
    if same(choice, "auto") {
        for i in 0..usable.len()
            invariant
                chain@.len() == usable@.len(),
                all == texts(chain@),
                texts(r@) == usable_ways(all, usable@, i as int),
        {
            assert(all[i as int] == chain@[i as int]@);
            if usable[i] {
                word(&mut r, chain[i].as_str());
            }
        }
    } else {
        word(&mut r, choice);
        assert(texts(r@) =~= seq![choice@]);
    }
    let ghost l = texts(r@);
    let mut there: bool = false;
    for i in 0..r.len()
        invariant
            l == texts(r@),
            there == exists|j: int| 0 <= j < i && #[trigger] l[j] == "libx264"@,
    {
        assert(l[i as int] == r@[i as int]@);
        if same(r[i].as_str(), "libx264") {
            there = true;
        }
    }
    assert(there == l.contains("libx264"@)) by {
        if there {
            let j = choose|j: int| 0 <= j < l.len() && #[trigger] l[j] == "libx264"@;
            assert(l[j] == "libx264"@);
        }
        if l.contains("libx264"@) {
            let j = choose|j: int| 0 <= j < l.len() && l[j] == "libx264"@;
            assert(l[j] == "libx264"@);
        }
    }
    if (!there && x264) || r.len() == 0 {
        word(&mut r, "libx264");
    }
    r
}

/// There is always an encoder to try; and if the encoder that needs no graphics card can be used, it is among those tried.
pub proof fn law_encoder_to_fall_back_on(choice: Seq<char>, chain: Seq<Seq<char>>, usable: Seq<bool>, x264: bool)
    ensures
        encoders_for(choice, chain, usable, x264).len() > 0,
        x264 ==> encoders_for(choice, chain, usable, x264).contains("libx264"@),
{
    let l = if choice == "auto"@ {
        usable_ways(chain, usable, usable.len() as int)
    } else {
        seq![choice]
    };
    if x264 && !l.contains("libx264"@) {
        let m = l.push("libx264"@);
        assert(m[m.len() - 1] == "libx264"@);
    }
}

/// What takes in the frames of an analysis, whose pictures are not kept: `file` is an encoder, anything else drops them.
pub fn resolve_drain(drain: &str, encoders: Vec<String>) -> (r: Vec<String>)
    ensures
        drain@ == "file"@ ==> r@ == encoders@,
        drain@ != "file"@ ==> texts(r@) == seq!["null"@],
{
    if same(drain, "file") {
        encoders
    } else {
        let mut r: Vec<String> = Vec::new();
        word(&mut r, "null");
        assert(texts(r@) =~= seq!["null"@]);
        r
    }
}

/// The path that a video of a queue is written to: in the directory `dir`, under its name without its ending, and
/// `_mosaic.mp4`.
pub fn queue_output(platform: Platform, dir: &str, input: &str) -> (r: String)
    ensures
        r@ == joined(
            platform,
            dir@,
            ({
                let p = route_of(platform, input@).parts;
                if p.len() > 0 && p.last() != ".."@ {
                    stem(p.last())
                } else {
                    "out"@
                }
            }) + "_mosaic.mp4"@,
        ),
{
    let route = Route::parse(platform, input);
    let count: usize = route.parts.len();
    let mut name = "out".to_owned();
    if count > 0 {
        assert(route@.parts.last() == route.parts@[count - 1]@);
        if !same(route.parts[count - 1].as_str(), "..") {
            name = stem_of(route.parts[count - 1].as_str());
        }
    }
    append(&mut name, "_mosaic.mp4");
    join(platform, dir, name.as_str())
}

/// What is remembered with models that are loaded, to know whether they can be used again: the model, whether there is one
/// for faces, the device, the least score (in decimal), and whether mirror images are looked into.
pub fn cache_key(body: &str, use_face: bool, device: &str, conf: &str, tta: bool) -> (r: String)
    ensures
        r@ == body@ + "|use_face="@ + truth_text(use_face) + "|"@ + device@ + "|"@ + conf@ + "|tta="@ + truth_text(tta),
{
    let mut r = body.to_owned();
    append(&mut r, "|use_face=");
    append(&mut r, if use_face { "true" } else { "false" });
    append(&mut r, "|");
    append(&mut r, device);
    append(&mut r, "|");
    append(&mut r, conf);
    append(&mut r, "|tta=");
    append(&mut r, if tta { "true" } else { "false" });
    r
}

/// The word for a truth value.
pub open spec fn truth_text(b: bool) -> Seq<char> {
    if b {
        "true"@
    } else {
        "false"@
    }
}

/// The lines that are not only space.
pub open spec fn said(l: Seq<Seq<char>>, n: int) -> Seq<Seq<char>>
    decreases n,
{
    if n <= 0 {
        Seq::empty()
    } else if crate::text::trim(l[n - 1]).len() == 0 {
        said(l, n - 1)
    } else {
        said(l, n - 1).push(l[n - 1])
    }
}

/// Lines with a mark between them.
pub open spec fn strung(l: Seq<Seq<char>>, n: int) -> Seq<char>
    decreases n,
{
    if n <= 0 {
        Seq::empty()
    } else if n == 1 {
        l[0]
    } else {
        strung(l, n - 1) + " ⏎ "@ + l[n - 1]
    }
}

/// A text without carriage returns.
pub open spec fn without_returns(s: Seq<char>) -> Seq<char>
    decreases s.len(),
{
    if s.len() == 0 {
        Seq::empty()
    } else if s.last() == '\r' {
        without_returns(s.drop_last())
    } else {
        without_returns(s.drop_last()).push(s.last())
    }
}

/// The first `n` characters of a text.
pub open spec fn head(s: Seq<char>, n: int) -> Seq<char> {
    if s.len() > n {
        s.take(n)
    } else {
        s
    }
}

/// The last `n` of a list.
pub open spec fn last_of(s: Seq<Seq<char>>, n: int) -> Seq<Seq<char>> {
    if s.len() > n {
        s.skip(s.len() - n)
    } else {
        s
    }
}

/// What a tool said last, in one line: the last three lines that say something, at most 240 characters of them.
pub open spec fn compact(stderr: Seq<char>, frames: nat) -> Seq<char> {
    let l = crate::text::lines(stderr);
    let t = last_of(said(l, l.len() as int), 3);
    "帧"@ + dec(frames) + ": "@ + head(without_returns(strung(t, t.len() as int)), 240)
}

fn drop_returns(s: &[char]) -> (r: Vec<char>)
    ensures
        r@ == without_returns(s@),
{
    let mut r: Vec<char> = Vec::new();
    assert(s@.take(0) =~= Seq::<char>::empty());
    for i in 0..s.len()
        invariant
            r@ == without_returns(s@.take(i as int)),
    {
        let c: char = s[i];
        assert(s@.take(i + 1).drop_last() =~= s@.take(i as int));
        assert(s@.take(i + 1).last() == c);
        if c != '\r' {
            r.push(c);
        }
    }
    assert(s@.take(s@.len() as int) =~= s@);
    r
}

/// What a tool said last, in one line, and how many frames there were.
pub fn compact_stderr(stderr: &str, frames: u64) -> (r: String)
    ensures
        r@ == compact(stderr@, frames as nat),
{
    let l = crate::text::lines_of(&chars_of(stderr));
    let ghost all = crate::text::lines(stderr@);
    let mut kept: Vec<usize> = Vec::new();
    let ghost says = said(all, all.len() as int);
    for i in 0..l.len()
        invariant
            all == crate::text::rows(l@),
            kept@.len() == said(all, i as int).len(),
            forall|k: int| 0 <= k < kept@.len() ==> (#[trigger] kept@[k]) < l@.len(),
            forall|k: int| 0 <= k < kept@.len() ==> all[#[trigger] kept@[k] as int] == said(all, i as int)[k],
    {
        assert(all[i as int] == l@[i as int]@);
        if crate::text::trimmed(&l[i]).len() > 0 {
            kept.push(i);
        }
    }
    assert(says.len() == kept@.len());
    let from: usize = if kept.len() > 3 { kept.len() - 3 } else { 0 };
    let ghost t = last_of(says, 3);
    let mut s = String::new();
    let mut i: usize = from;
    assert(s@ =~= strung(t, 0));
    while i < kept.len()
        invariant
            from <= i <= kept@.len(),
            all == crate::text::rows(l@),
            t == last_of(says, 3),
            t.len() == kept@.len() - from,
            says.len() == kept@.len(),
            forall|k: int| 0 <= k < t.len() ==> (#[trigger] t[k]) == says[from + k],
            forall|k: int| 0 <= k < kept@.len() ==> (#[trigger] kept@[k]) < l@.len(),
            forall|k: int| 0 <= k < kept@.len() ==> all[#[trigger] kept@[k] as int] == says[k],
            s@ == strung(t, i - from),
        decreases kept@.len() - i,
    {
        if i > from {
            append(&mut s, " ⏎ ");
        }
        let at: usize = kept[i];
        assert(all[at as int] == l@[at as int]@);
        append(&mut s, text_of(&l[at]).as_str());
        assert(t[i - from] == says[i as int]);
        assert(s@ =~= strung(t, i + 1 - from));
        i = i + 1;
    }
    let d = drop_returns(&chars_of(s.as_str()));
    let n: usize = if d.len() > 240 { 240 } else { d.len() };
    let cut = slice(&d, 0, n);
    assert(cut@ =~= head(d@, 240));
    let mut r = "帧".to_owned();
    append(&mut r, decimal(frames).as_str());
    append(&mut r, ": ");
    append(&mut r, text_of(&cut).as_str());
    r
}

/// The styles by their names: blocks of the strength asked for, at least 2 and at most 128; a blur of the strength asked for, at least 1 and
/// at most 64; black. Other names stand for no style.
pub proof fn law_styles(s: Seq<char>, strength: u32)
    ensures
        s == "mosaic"@ ==> style_of(s, strength) is Some && style_of(s, strength)->0 is Mosaic && (2 <= strength <= 128 ==> style_of(s, strength)->0->cell
            == strength) && (strength < 2 ==> style_of(s, strength)->0->cell == 2) && (strength > 128 ==> style_of(s, strength)->0->cell == 128),
        s == "blur"@ ==> style_of(s, strength) is Some && style_of(s, strength)->0 is Blur && (1 <= strength <= 64 ==> style_of(s, strength)->0->radius
            == strength) && (strength < 1 ==> style_of(s, strength)->0->radius == 1) && (strength > 64 ==> style_of(s, strength)->0->radius == 64),
        s == "solid"@ ==> style_of(s, strength) is Some && style_of(s, strength)->0 is Solid,
        s != "mosaic"@ && s != "blur"@ && s != "solid"@ ==> style_of(s, strength) is None,
{
    reveal_strlit("mosaic");
    reveal_strlit("blur");
    reveal_strlit("solid");
    assert("mosaic"@.len() == 6 && "blur"@.len() == 4 && "solid"@.len() == 5);
}

/// What the user sets comes first; what is left open is that of the preset. Without faces there is no model for them.
pub proof fn law_user_comes_first(q: QualityPreset, p: PresetParams, g: Given, f: Found, e: EffectiveParams)
    requires
        merged_with(q, p, g, f, e),
    ensures
        g.model is Some ==> e.model@ == g.model->0@,
        g.model is None ==> e.model@ == f.body@,
        g.no_face ==> e.face_model is None,
        !g.no_face && g.face_model is Some ==> e.face_model is Some && e.face_model->0@ == g.face_model->0@,
        !g.no_face && g.face_model is None && f.face is Some ==> e.face_model is Some && e.face_model->0@ == f.face->0@,
        !g.no_face && g.face_model is None && f.face is None ==> e.face_model is Some && e.face_model->0@ == p.face_model@,
        g.conf is Some ==> e.conf == g.conf->0,
        g.conf is None ==> e.conf == p.conf,
        g.face_expand is Some ==> e.face_expand == g.face_expand->0,
        g.face_expand is None ==> e.face_expand == p.face_expand,
        g.batch is Some ==> e.batch == g.batch->0,
        g.batch is None ==> e.batch == p.batch,
        g.detect_every is Some ==> e.detect_every == g.detect_every->0,
        g.detect_every is None ==> e.detect_every == p.detect_every,
        e.face_roi <==> g.face_roi || p.face_roi,
        g.tta is Some ==> e.tta == g.tta->0,
        g.tta is None ==> e.tta == p.tta,
{
}

/// Without a preset, what the user leaves open is the usual: a score of 0.35, twelve pixels around faces, four frames at a time, every frame,
/// and no mirror images.
pub proof fn law_without_preset(g: Given, e: EffectiveParams)
    requires
        merged_alone(g, e),
    ensures
        g.model is Some ==> e.model@ == g.model->0@,
        g.model is None ==> e.model@ == "models/yolo11n-seg.onnx"@,
        g.no_face ==> e.face_model is None,
        !g.no_face && g.face_model is Some ==> e.face_model is Some && e.face_model->0@ == g.face_model->0@,
        !g.no_face && g.face_model is None ==> e.face_model is Some && e.face_model->0@ == "models/yolov8n-face.onnx"@,
        e.conf == (if g.conf is Some { g.conf->0 } else { 0x3EB3_3333 }),
        e.face_expand == (if g.face_expand is Some { g.face_expand->0 } else { 12 }),
        e.batch == (if g.batch is Some { g.batch->0 } else { 4 }),
        e.detect_every == (if g.detect_every is Some { g.detect_every->0 } else { 1 }),
        e.face_roi == g.face_roi,
        e.tta == (g.tta == Some(true)),
{
}

/// What is done for a wish: a model that is named, and else the one of the preset; faces only if they are wanted; numbers that are not zero,
/// and else those of the preset; yes for 1, no for 2, and else what the preset says.
pub proof fn law_wish(p: PresetParams, w: Wish, f: Found, e: Effective)
    requires
        effective_with(p, w, f, e),
    ensures
        w.model_path is Some && w.model_path->0@.len() > 0 ==> e.body@ == w.model_path->0@,
        w.model_path is None || w.model_path->0@.len() == 0 ==> e.body@ == f.body@,
        !w.face ==> e.face is None,
        w.face && f.face is Some ==> e.face is Some && e.face->0@ == f.face->0@,
        w.face && f.face is None ==> e.face is None,
        e.conf == w.conf,
        w.face_expand != 0 ==> e.face_expand == w.face_expand,
        w.face_expand == 0 ==> e.face_expand == p.face_expand,
        w.detect_every != 0 ==> e.detect_every == w.detect_every,
        w.detect_every == 0 ==> e.detect_every == p.detect_every,
        w.batch != 0 ==> e.batch == w.batch,
        w.batch == 0 ==> e.batch == p.batch,
        w.face_roi == 1 ==> e.face_roi,
        w.face_roi == 2 ==> !e.face_roi,
        w.face_roi != 1 && w.face_roi != 2 ==> e.face_roi == p.face_roi,
        w.tta == 1 ==> e.tta,
        w.tta == 2 ==> !e.tta,
        w.tta != 1 && w.tta != 2 ==> e.tta == p.tta,
{
}

/// The first way that can be used: it can be used, and none before it can; there is none if none can be used.
pub proof fn law_first_usable(names: Seq<Seq<char>>, usable: Seq<bool>, i: int)
    requires
        0 <= i < usable.len(),
        names.len() == usable.len(),
    ensures
        usable[i] && (forall|j: int| 0 <= j < i ==> !#[trigger] usable[j]) ==> first_usable(names, usable, 0) == Some(names[i]),
        (forall|j: int| 0 <= j < usable.len() ==> !#[trigger] usable[j]) ==> first_usable(names, usable, 0) is None,
{
    lemma_first_usable(names, usable, 0, i);
}

proof fn lemma_first_usable(names: Seq<Seq<char>>, usable: Seq<bool>, from: int, i: int)
    requires
        0 <= from <= i < usable.len(),
        names.len() == usable.len(),
    ensures
        usable[i] && (forall|j: int| from <= j < i ==> !#[trigger] usable[j]) ==> first_usable(names, usable, from) == Some(names[i]),
        (forall|j: int| from <= j < usable.len() ==> !#[trigger] usable[j]) ==> first_usable(names, usable, from) is None,
    decreases usable.len() - from,
{
    if from < i {
        lemma_first_usable(names, usable, from + 1, i);
    } else if from + 1 < usable.len() {
        lemma_first_usable(names, usable, from + 1, from + 1);
    }
}

/// The ways that can be used, in their order. `at` are their places.
pub proof fn law_usable_ways(names: Seq<Seq<char>>, usable: Seq<bool>, n: int) -> (at: Seq<int>)
    requires
        0 <= n <= usable.len(),
    ensures
        at.len() == usable_ways(names, usable, n).len(),
        forall|i: int| 0 <= i < at.len() ==> 0 <= #[trigger] at[i] < n && usable[at[i]] && usable_ways(names, usable, n)[i] == names[at[i]],
        forall|i: int, j: int| 0 <= i < j < at.len() ==> #[trigger] at[i] < #[trigger] at[j],
        forall|k: int| 0 <= k < n && #[trigger] usable[k] ==> at.contains(k),
    decreases n,
{
    if n <= 0 {
        Seq::empty()
    } else {
        let was = law_usable_ways(names, usable, n - 1);
        let at = if usable[n - 1] {
            was.push(n - 1)
        } else {
            was
        };
        assert forall|k: int| 0 <= k < n && #[trigger] usable[k] implies at.contains(k) by {
            if k < n - 1 {
                assert(was.contains(k));
                let i = choose|i: int| 0 <= i < was.len() && was[i] == k;
                assert(at[i] == k);
            } else {
                assert(at[at.len() - 1] == k);
            }
        }
        at
    }
}

/// The encoders that are tried: for `auto` those that can be used, in their order; else the one that is named. The one that needs no graphics
/// card comes last, if it can be used and is not there already, or if there is no other.
pub proof fn law_encoders(choice: Seq<char>, chain: Seq<Seq<char>>, usable: Seq<bool>, x264: bool)
    ensures
        ({
            let l = if choice == "auto"@ { usable_ways(chain, usable, usable.len() as int) } else { seq![choice] };
            let r = encoders_for(choice, chain, usable, x264);
            &&& r.len() >= l.len()
            &&& r.take(l.len() as int) == l
            &&& r.len() <= l.len() + 1
            &&& r.len() == l.len() + 1 <==> l.len() == 0 || (x264 && !l.contains("libx264"@))
            &&& r.len() == l.len() + 1 ==> r.last() == "libx264"@
        }),
{
    let l = if choice == "auto"@ { usable_ways(chain, usable, usable.len() as int) } else { seq![choice] };
    let r = encoders_for(choice, chain, usable, x264);
    assert(r.take(l.len() as int) =~= l);
}

/// The ways of decoding that are tried end with the one without help, and the others come before it in their order.
pub proof fn law_then_software(s: Seq<Seq<char>>, i: int)
    requires
        0 <= i < s.len(),
    ensures
        then_software(s).len() == s.len() + 1,
        then_software(s)[i] == Some(s[i]),
        then_software(s).last() is None,
        then_software(Seq::empty()).len() == 1 && then_software(Seq::empty())[0] is None,
{
}

proof fn lemma_last_dot(a: Seq<char>, b: Seq<char>)
    requires
        forall|i: int| 0 <= i < b.len() ==> #[trigger] b[i] != '.',
    ensures
        last_dot(a + seq!['.'] + b) == Some(a.len() as int),
        last_dot(b) is None,
    decreases b.len(),
{
    let s = a + seq!['.'] + b;
    if b.len() == 0 {
        assert(s.last() == '.');
    } else {
        let c = b.drop_last();
        assert forall|i: int| 0 <= i < c.len() implies #[trigger] c[i] != '.' by {
            assert(c[i] == b[i]);
        }
        lemma_last_dot(a, c);
        assert(s.drop_last() =~= a + seq!['.'] + c);
        assert(s.last() == b[b.len() - 1]);
        assert(b.last() == b[b.len() - 1]);
    }
}

/// A name without its ending is what stands before its last dot, if anything does; else it is the name.
pub proof fn law_stem(a: Seq<char>, b: Seq<char>)
    requires
        forall|i: int| 0 <= i < b.len() ==> #[trigger] b[i] != '.',
    ensures
        a.len() > 0 ==> stem(a + seq!['.'] + b) == a,
        a.len() == 0 ==> stem(a + seq!['.'] + b) == a + seq!['.'] + b,
        stem(b) == b,
{
    lemma_last_dot(a, b);
    assert((a + seq!['.'] + b).take(a.len() as int) =~= a);
}

/// The lines that say something: in their order, exactly those that are not only white space. `at` are their places.
pub proof fn law_said(l: Seq<Seq<char>>, n: int) -> (at: Seq<int>)
    requires
        0 <= n <= l.len(),
    ensures
        at.len() == said(l, n).len(),
        forall|i: int| 0 <= i < at.len() ==> 0 <= #[trigger] at[i] < n && said(l, n)[i] == l[at[i]] && crate::text::trim(l[at[i]]).len() > 0,
        forall|i: int, j: int| 0 <= i < j < at.len() ==> #[trigger] at[i] < #[trigger] at[j],
        forall|k: int| 0 <= k < n && crate::text::trim(#[trigger] l[k]).len() > 0 ==> at.contains(k),
    decreases n,
{
    if n <= 0 {
        Seq::empty()
    } else {
        let was = law_said(l, n - 1);
        let at = if crate::text::trim(l[n - 1]).len() == 0 {
            was
        } else {
            was.push(n - 1)
        };
        assert forall|k: int| 0 <= k < n && crate::text::trim(#[trigger] l[k]).len() > 0 implies at.contains(k) by {
            if k < n - 1 {
                assert(was.contains(k));
                let i = choose|i: int| 0 <= i < was.len() && was[i] == k;
                assert(at[i] == k);
            } else {
                assert(at[at.len() - 1] == k);
            }
        }
        at
    }
}

/// What a tool said last: no more than 240 characters, of the last three lines that say something, with a mark between them and without
/// carriage returns, behind the number of frames.
pub proof fn law_compact(stderr: Seq<char>, frames: nat)
    ensures
        ({
            let l = crate::text::lines(stderr);
            let s = said(l, l.len() as int);
            let front = "帧"@ + dec(frames) + ": "@;
            let c = compact(stderr, frames);
            &&& front.len() <= c.len() <= front.len() + 240
            &&& c.take(front.len() as int) == front
            &&& s.len() == 0 ==> c == front
            &&& s.len() == 1 && s[0].len() <= 240 && (forall|i: int| 0 <= i < s[0].len() ==> #[trigger] s[0][i] != '\r') ==> c == front + s[0]
            &&& s.len() >= 3 && (forall|i: int| 0 <= i < s[s.len() - 3].len() ==> #[trigger] s[s.len() - 3][i] != '\r') && s[s.len() - 3].len() <= 240
                ==> c.subrange(front.len() as int, (front.len() + s[s.len() - 3].len()) as int) == s[s.len() - 3]
        }),
{
    let l = crate::text::lines(stderr);
    let s = said(l, l.len() as int);
    let t = last_of(s, 3);
    let front = "帧"@ + dec(frames) + ": "@;
    let c = compact(stderr, frames);
    let text = without_returns(strung(t, t.len() as int));
    assert(c =~= front + head(text, 240));
    assert(c.take(front.len() as int) =~= front);
    if s.len() == 0 {
        assert(strung(t, 0) =~= Seq::<char>::empty());
        assert(c =~= front);
    }
    if s.len() == 1 && s[0].len() <= 240 && (forall|i: int| 0 <= i < s[0].len() ==> #[trigger] s[0][i] != '\r') {
        lemma_no_returns(s[0]);
        assert(strung(t, 1) == s[0]);
    }
    if s.len() >= 3 && (forall|i: int| 0 <= i < s[s.len() - 3].len() ==> #[trigger] s[s.len() - 3][i] != '\r') && s[s.len() - 3].len() <= 240 {
        let a = s[s.len() - 3];
        assert(t.len() == 3 && t[0] == a);
        let b = " ⏎ "@ + t[1] + " ⏎ "@ + t[2];
        reveal_with_fuel(strung, 4);
        assert(strung(t, 3) =~= a + b);
        lemma_returns_add(a, b);
        lemma_no_returns(a);
        assert(text =~= a + without_returns(b));
        assert(c.subrange(front.len() as int, (front.len() + a.len()) as int) =~= a);
    }
}

proof fn lemma_no_returns(s: Seq<char>)
    requires
        forall|i: int| 0 <= i < s.len() ==> #[trigger] s[i] != '\r',
    ensures
        without_returns(s) == s,
    decreases s.len(),
{
    if s.len() > 0 {
        let t = s.drop_last();
        assert forall|i: int| 0 <= i < t.len() implies #[trigger] t[i] != '\r' by {
            assert(t[i] == s[i]);
        }
        lemma_no_returns(t);
        assert(s[s.len() - 1] != '\r');
        assert(t.push(s.last()) =~= s);
    } else {
        assert(s =~= Seq::<char>::empty());
    }
}

proof fn lemma_returns_add(a: Seq<char>, b: Seq<char>)
    ensures
        without_returns(a + b) == without_returns(a) + without_returns(b),
    decreases b.len(),
{
    if b.len() == 0 {
        assert(a + b =~= a);
        assert(without_returns(a) + without_returns(b) =~= without_returns(a));
    } else {
        lemma_returns_add(a, b.drop_last());
        assert((a + b).drop_last() =~= a + b.drop_last());
        assert((a + b).last() == b.last());
        assert(without_returns(a + b) =~= without_returns(a) + without_returns(b));
    }
}

} // verus!
