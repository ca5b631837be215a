//! Presets: from a wish for speed or quality to models and settings.
use crate::text::same;
use vstd::prelude::*;

verus! {

/// The usual least score: the bits of 0.35.
pub const CONF_USUAL: u32 = 0x3EB3_3333;

/// A lower one: the bits of 0.3.
pub const CONF_LOWER: u32 = 0x3E99_999A;

/// The lowest one: the bits of 0.25.
pub const CONF_LOWEST: u32 = 0x3E80_0000;

/// A wish for speed or quality.
#[derive(Debug, Clone, Copy, PartialEq, Eq, Hash, Structural)]
pub enum QualityPreset {
    Speed,
    Balanced,
    Accurate,
    Extreme,
    /// The most thorough: several models, and a review before the video is written.
    Archive,
}

/// The name by which a preset is stored.
pub open spec fn id_of(p: QualityPreset) -> Seq<char> {
    match p {
        QualityPreset::Speed => "speed"@,
        QualityPreset::Balanced => "balanced"@,
        QualityPreset::Accurate => "accurate"@,
        QualityPreset::Extreme => "extreme"@,
        QualityPreset::Archive => "archive"@,
    }
}

/// The name by which a preset is shown.
pub open spec fn label_of(p: QualityPreset) -> Seq<char> {
    match p {
        QualityPreset::Speed => "速度"@,
        QualityPreset::Balanced => "均衡"@,
        QualityPreset::Accurate => "准确"@,
        QualityPreset::Extreme => "极致"@,
        QualityPreset::Archive => "极限·档案级"@,
    }
}

/// The preset that is stored by a name.
pub open spec fn preset_of(s: Seq<char>) -> Option<QualityPreset> {
    if s == "speed"@ {
        Some(QualityPreset::Speed)
    } else if s == "balanced"@ {
        Some(QualityPreset::Balanced)
    } else if s == "accurate"@ {
        Some(QualityPreset::Accurate)
    } else if s == "extreme"@ {
        Some(QualityPreset::Extreme)
    } else if s == "archive"@ {
        Some(QualityPreset::Archive)
    } else {
        None
    }
}

/// The names by which presets are stored lead back to them, and no other name leads to a preset.
pub proof fn law_ids_round_trip(p: QualityPreset, s: Seq<char>)
    ensures
        preset_of(id_of(p)) == Some(p),
        preset_of(s) == Some(p) ==> s == id_of(p),
{
    reveal_strlit("speed");
    reveal_strlit("balanced");
    reveal_strlit("accurate");
    reveal_strlit("extreme");
    reveal_strlit("archive");
    assert("speed"@.len() == 5);
    assert("balanced"@.len() == 8 && "accurate"@.len() == 8);
    assert("extreme"@.len() == 7 && "archive"@.len() == 7);
    assert("balanced"@[0] == 'b' && "accurate"@[0] == 'a');
    assert("extreme"@[0] == 'e' && "archive"@[0] == 'a');
}

/// The models of the most thorough preset.
#[derive(Debug, Clone, Copy, PartialEq, Eq)]
pub struct ArchiveModelRefs {
    /// A second detector, which looks for what a text describes.
    pub gd: &'static str,
    pub sam_encoder: &'static str,
    pub sam_decoder: &'static str,
    pub retina: &'static str,
    /// Recognises people by how they look; may be missing.
    pub reid: &'static str,
}

impl Default for ArchiveModelRefs {
    fn default() -> (r: ArchiveModelRefs)
        ensures
            r.gd@ == "grounding-dino-tiny.onnx"@,
            r.sam_encoder@ == "sam2.1-large-encoder.onnx"@,
            r.sam_decoder@ == "sam2.1-large-decoder.onnx"@,
            r.retina@ == "retinaface-r34.onnx"@,
            r.reid@ == "osnet-x025-msmt17.onnx"@,
    {
        ArchiveModelRefs {
            gd: "grounding-dino-tiny.onnx",
            sam_encoder: "sam2.1-large-encoder.onnx",
            sam_decoder: "sam2.1-large-decoder.onnx",
            retina: "retinaface-r34.onnx",
            reid: "osnet-x025-msmt17.onnx",
        }
    }
}

/// The settings of a preset.
#[derive(Debug, Clone)]
pub struct PresetParams {
    /// The file of the model that finds people.
    pub body_model: String,
    /// The file of the model that finds faces.
    pub face_model: String,
    /// The least score: the bits of a single-precision number.
    pub conf: u32,
    /// One frame in so many is looked into.
    pub detect_every: u32,
    /// How many frames are looked into at a time, if there is a model for it.
    pub batch: u32,
    /// Whether faces are looked for.
    pub face: bool,
    /// By how many pixels the box of a face is widened.
    pub face_expand: u32,
    /// Whether people are followed.
    pub track: bool,
    /// Whether masks are smoothed over time.
    pub smooth: bool,
    /// Whether faces are looked for once more in the upper part of each person.
    pub face_roi: bool,
    /// Whether the mirror image of each frame is looked into too.
    pub tta: bool,
    /// The models of the most thorough preset.
    pub archive: Option<ArchiveModelRefs>,
}

/// Whether all settings but the models are the usual ones, with the given exceptions.
pub open spec fn usual_but(p: PresetParams, conf: u32, face_roi: bool, tta: bool) -> bool {
    &&& p.conf == conf
    &&& p.detect_every == 1
    &&& p.batch == 4
    &&& p.face
    &&& p.face_expand == 12
    &&& p.track
    &&& p.smooth
    &&& p.face_roi == face_roi
    &&& p.tta == tta
}

/// Whether a group of models is the usual one.
pub open spec fn usual_group(r: ArchiveModelRefs) -> bool {
    &&& r.gd@ == "grounding-dino-tiny.onnx"@
    &&& r.sam_encoder@ == "sam2.1-large-encoder.onnx"@
    &&& r.sam_decoder@ == "sam2.1-large-decoder.onnx"@
    &&& r.retina@ == "retinaface-r34.onnx"@
    &&& r.reid@ == "osnet-x025-msmt17.onnx"@
}

/// The file of the model with which a preset finds people.
pub open spec fn body_of(q: QualityPreset) -> Seq<char> {
    match q {
        QualityPreset::Speed => "yolo26n.onnx"@,
        QualityPreset::Balanced => "yolo26n-seg.onnx"@,
        QualityPreset::Accurate => "yolo26s-seg.onnx"@,
        QualityPreset::Extreme => "yolo26x-seg.onnx"@,
        QualityPreset::Archive => "yolo26x-seg-1536.onnx"@,
    }
}

/// The file of the model with which a preset finds faces; the most thorough one names it elsewhere.
pub open spec fn face_of(q: QualityPreset) -> Seq<char> {
    match q {
        QualityPreset::Speed => "face_detection_yunet_2023mar.onnx"@,
        QualityPreset::Balanced => "yolo11n-face-pose.onnx"@,
        QualityPreset::Accurate => "yolo11s-face-pose.onnx"@,
        QualityPreset::Extreme => "yolo11s-face-pose.onnx"@,
        QualityPreset::Archive => Seq::empty(),
    }
}

/// The least score with which a preset believes in a person.
pub open spec fn conf_of(q: QualityPreset) -> u32 {
    match q {
        QualityPreset::Speed => CONF_USUAL,
        QualityPreset::Balanced => CONF_USUAL,
        QualityPreset::Accurate => CONF_LOWER,
        QualityPreset::Extreme => CONF_LOWER,
        QualityPreset::Archive => CONF_LOWEST,
    }
}

/// Whether `p` are the settings of a preset.
pub open spec fn settings_of(q: QualityPreset, p: PresetParams) -> bool {
    &&& p.body_model@ == body_of(q)
    &&& p.face_model@ == face_of(q)
    &&& usual_but(
        p,
        conf_of(q),
        q == QualityPreset::Extreme,
        q == QualityPreset::Extreme || q == QualityPreset::Archive,
    )
    &&& p.archive is Some <==> q == QualityPreset::Archive
    &&& p.archive is Some ==> usual_group(p.archive->0)
}

impl Default for PresetParams {
    fn default() -> (p: PresetParams)
        ensures
            usual_but(p, CONF_USUAL, false, false),
            p.body_model@ == Seq::<char>::empty(),
            p.face_model@ == Seq::<char>::empty(),
            p.archive is None,
    {
        PresetParams {
            body_model: String::new(),
            face_model: String::new(),
            conf: CONF_USUAL,
            detect_every: 1,
            batch: 4,
            face: true,
            face_expand: 12,
            track: true,
            smooth: true,
            face_roi: false,
            tta: false,
            archive: None,
        }
    }
}

impl QualityPreset {
    /// All presets, from the fastest to the most thorough.
    pub const ALL: [QualityPreset; 5] = [
        QualityPreset::Speed,
        QualityPreset::Balanced,
        QualityPreset::Accurate,
        QualityPreset::Extreme,
        QualityPreset::Archive,
    ];

    /// The name by which the preset is stored.
    pub fn id(&self) -> (s: &'static str)
        ensures
            s@ == id_of(*self),
    {
        match self {
            QualityPreset::Speed => "speed",
            QualityPreset::Balanced => "balanced",
            QualityPreset::Accurate => "accurate",
            QualityPreset::Extreme => "extreme",
            QualityPreset::Archive => "archive",
        }
    }

    /// The name by which the preset is shown.
    pub fn label(&self) -> (s: &'static str)
        ensures
            s@ == label_of(*self),
    {
        match self {
            QualityPreset::Speed => "速度",
            QualityPreset::Balanced => "均衡",
            QualityPreset::Accurate => "准确",
            QualityPreset::Extreme => "极致",
            QualityPreset::Archive => "极限·档案级",
        }
    }

    /// The preset that is stored by a name.
    pub fn from_id(s: &str) -> (p: Option<QualityPreset>)
        ensures
            p == preset_of(s@),
    {
        if same(s, "speed") {
            Some(QualityPreset::Speed)
        } else if same(s, "balanced") {
            Some(QualityPreset::Balanced)
        } else if same(s, "accurate") {
            Some(QualityPreset::Accurate)
        } else if same(s, "extreme") {
            Some(QualityPreset::Extreme)
        } else if same(s, "archive") {
            Some(QualityPreset::Archive)
        } else {
            None
        }
    }

    /// The settings of the preset. There are settings for every preset.
    pub fn params(&self) -> (r: Result<PresetParams, String>)
        ensures
            r is Ok,
            settings_of(*self, r->Ok_0),
    {
        let mut p = PresetParams::default();
        match self {
            QualityPreset::Speed => {
                p.body_model = "yolo26n.onnx".to_owned();
                p.face_model = "face_detection_yunet_2023mar.onnx".to_owned();
            },
            QualityPreset::Balanced => {
                p.body_model = "yolo26n-seg.onnx".to_owned();
                p.face_model = "yolo11n-face-pose.onnx".to_owned();
            },
            QualityPreset::Accurate => {
                p.body_model = "yolo26s-seg.onnx".to_owned();
                p.face_model = "yolo11s-face-pose.onnx".to_owned();
                p.conf = CONF_LOWER;
            },
            QualityPreset::Extreme => {
                p.body_model = "yolo26x-seg.onnx".to_owned();
                p.face_model = "yolo11s-face-pose.onnx".to_owned();
                p.conf = CONF_LOWER;
                p.face_roi = true;
                p.tta = true;
            },
            QualityPreset::Archive => {
                p.body_model = "yolo26x-seg-1536.onnx".to_owned();
                p.conf = CONF_LOWEST;
                p.tta = true;
                p.archive = Some(ArchiveModelRefs::default());
            },
        }
        Ok(p)
    }
}

/// What the presets stand for: which models find people and faces, from which score on a person counts, and what is done besides. All look
/// into every frame, four at a time, look for faces and widen them by twelve pixels, follow people and smooth masks.
pub proof fn law_settings(q: QualityPreset, p: PresetParams)
    requires
        settings_of(q, p),
    ensures
        q is Speed ==> p.body_model@ == "yolo26n.onnx"@ && p.face_model@ == "face_detection_yunet_2023mar.onnx"@ && p.conf == 0x3EB3_3333 && !p.face_roi
            && !p.tta && p.archive is None,
        q is Balanced ==> p.body_model@ == "yolo26n-seg.onnx"@ && p.face_model@ == "yolo11n-face-pose.onnx"@ && p.conf == 0x3EB3_3333 && !p.face_roi
            && !p.tta && p.archive is None,
        q is Accurate ==> p.body_model@ == "yolo26s-seg.onnx"@ && p.face_model@ == "yolo11s-face-pose.onnx"@ && p.conf == 0x3E99_999A && !p.face_roi
            && !p.tta && p.archive is None,
        q is Extreme ==> p.body_model@ == "yolo26x-seg.onnx"@ && p.face_model@ == "yolo11s-face-pose.onnx"@ && p.conf == 0x3E99_999A && p.face_roi
            && p.tta && p.archive is None,
        q is Archive ==> p.body_model@ == "yolo26x-seg-1536.onnx"@ && p.face_model@.len() == 0 && p.conf == 0x3E80_0000 && !p.face_roi && p.tta
            && p.archive is Some && p.archive->0.gd@ == "grounding-dino-tiny.onnx"@ && p.archive->0.sam_encoder@ == "sam2.1-large-encoder.onnx"@
            && p.archive->0.sam_decoder@ == "sam2.1-large-decoder.onnx"@ && p.archive->0.retina@ == "retinaface-r34.onnx"@ && p.archive->0.reid@
            == "osnet-x025-msmt17.onnx"@,
        p.detect_every == 1 && p.batch == 4 && p.face && p.face_expand == 12 && p.track && p.smooth,
{
}

/// The names by which presets are stored and shown.
pub proof fn law_names()
    ensures
        id_of(QualityPreset::Speed) == "speed"@ && label_of(QualityPreset::Speed) == "速度"@,
        id_of(QualityPreset::Balanced) == "balanced"@ && label_of(QualityPreset::Balanced) == "均衡"@,
        id_of(QualityPreset::Accurate) == "accurate"@ && label_of(QualityPreset::Accurate) == "准确"@,
        id_of(QualityPreset::Extreme) == "extreme"@ && label_of(QualityPreset::Extreme) == "极致"@,
        id_of(QualityPreset::Archive) == "archive"@ && label_of(QualityPreset::Archive) == "极限·档案级"@,
{
}

} // verus!
