//! Detections and detection results: the labeled, confidence-scored boxes
//! that post-processing produces, and the ghost-level model used by the
//! post-processing specifications.

use vstd::prelude::*;

use crate::boxes::BBox;
use crate::UNIT;

verus! {

/// One detected object: a class, its display name, a fixed-point
/// confidence in `[0, UNIT]`, and a box in original-image pixels.
pub struct Detection {
    pub class_id: u32,
    pub class_name: String,
    pub confidence: u32,
    pub bbox: BBox,
}

/// The ghost model of a detection: what post-processing logic depends on.
/// The display name is left out; it is a catalog lookup of `class_id`.
pub struct DetModel {
    pub class_id: int,
    pub confidence: int,
    pub bbox: BBox,
}

impl Detection {
    /// The ghost model of this detection.
    pub open spec fn model(self) -> DetModel {
        DetModel { class_id: self.class_id as int, confidence: self.confidence as int, bbox: self.bbox }
    }

    /// Confidence in range and a well-formed box.
    pub open spec fn wf(self) -> bool {
        self.confidence <= UNIT && self.bbox.wf()
    }
}

impl Clone for Detection {
    fn clone(&self) -> (r: Self)
        ensures
            r == *self,
    {
        Detection {
            class_id: self.class_id,
            class_name: self.class_name.clone(),
            confidence: self.confidence,
            bbox: self.bbox,
        }
    }
}

/// The ghost models of a sequence of detections.
pub open spec fn models_of(s: Seq<Detection>) -> Seq<DetModel> {
    s.map_values(|d: Detection| d.model())
}

/// The result of one detection call: the surviving detections, the
/// original image dimensions, the call's wall-clock time, and the model's
/// fixed input resolution.
pub struct DetectionResult {
    pub detections: Vec<Detection>,
    pub image_width: u32,
    pub image_height: u32,
    pub processing_time_ms: u64,
    pub model_input_size: (u32, u32),
}

} // verus!
