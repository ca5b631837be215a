//! Verified core of a video anonymiser: masks, their storage and smoothing,
//! tracking decisions, job control and the planning of external commands.
pub mod api;
pub mod archive;
pub mod assign;
pub mod attempt;
pub mod bytes;
pub mod color;
pub mod compose;
pub mod debug;
pub mod decode;
pub mod detect;
pub mod fraction;
pub mod gdino;
pub mod gmc;
pub mod grid;
pub mod job;
pub mod jpeg;
pub mod link;
pub mod maskstore;
pub mod media;
pub mod models;
pub mod morph;
pub mod mosaic;
pub mod nms;
pub mod options;
pub mod paths;
pub mod pipe;
pub mod preset;
pub mod probe;
pub mod rank;
pub mod remap;
pub mod retinaface;
pub mod rle;
pub mod sam2;
pub mod stages;
pub mod text;
pub mod track;
pub mod wbf;
