//! A verified core for a local object-detection pipeline.
//!
//! Raw image bytes are decoded and preprocessed into a fixed-size
//! channel-major tensor, handed to a pluggable inference backend, and the
//! backend's raw anchor grid is filtered, rescaled and deduplicated into
//! labeled, confidence-scored bounding boxes.
//!
//! Confidences, thresholds and normalized coordinates are fixed-point
//! numbers: the real value `x` in `[0, 1]` is stored as the integer
//! `x * UNIT`.

use vstd::prelude::*;

mod api;
pub mod boxes;
pub mod codec;
pub mod config;
pub mod detections;
pub mod digest;
pub mod engine;
pub mod errors;
pub mod postprocess;
pub mod preprocess;
pub mod stats;
pub mod text;

pub use api::ApiResult;

verus! {

/// Fixed-point scale: the stored integer `UNIT` stands for the real value 1.
pub const UNIT: u32 = 1_000_000;

} // verus!
