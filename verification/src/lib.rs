//! Verified core of a fighting-game clip extractor: region geometry,
//! template matching arithmetic, the scan state machine, text handling for
//! file names and settings, and the integer parts of the OCR post-processing.

pub mod geometry;
pub mod roi;
pub mod components;
pub mod text;
pub mod parse;
pub mod scan;
pub mod ocr;
pub mod imaging;
pub mod launch;
