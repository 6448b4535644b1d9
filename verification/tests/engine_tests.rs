use std::io::Cursor;

use yolo_core::engine::DetectionEngine;
use yolo_core::errors::{DetectError, ModelLoadError};
use yolo_core::postprocess::RawOutput;
use yolo_core::preprocess::InputTensor;

/// A tiny valid PNG built in memory.
fn png_bytes(shade: u8) -> Vec<u8> {
    let mut img = image::RgbImage::new(8, 6);
    for p in img.pixels_mut() {
        *p = image::Rgb([shade, shade / 2, 255 - shade]);
    }
    let mut out = Vec::new();
    img.write_to(&mut Cursor::new(&mut out), image::ImageFormat::Png)
        .unwrap();
    out
}

/// A backend that reports no anchor above any threshold.
fn silent_backend(t: InputTensor) -> Result<RawOutput, String> {
    let _ = t;
    Ok(RawOutput { num_classes: 2, num_anchors: 1, data: vec![0u32; 6] })
}

/// A backend with one confident detection of the given class.
fn one_box_backend(class: usize, conf: u32) -> impl Fn(InputTensor) -> Result<RawOutput, String> {
    move |_t: InputTensor| {
        let mut data = vec![0u32; 6];
        data[0] = 500_000;
        data[1] = 500_000;
        data[2] = 200_000;
        data[3] = 300_000;
        data[4 + class] = conf;
        Ok(RawOutput { num_classes: 2, num_anchors: 1, data })
    }
}

#[test]
fn uninitialized_detect_fails_and_stats_stay_zero() {
    let mut engine = DetectionEngine::new();
    let r = engine.detect_image(&png_bytes(10), &silent_backend);
    assert!(matches!(r, Err(DetectError::NotInitialized)));
    let stats = engine.get_stats();
    assert_eq!(stats.total_inferences, 0);
    assert_eq!(stats.cache_hits, 0);
    assert_eq!(stats.cache_misses, 0);
    assert_eq!(stats.total_preprocess_time_ms, 0);
    assert_eq!(stats.avg_fps_milli, 0);
}

#[test]
fn empty_detections_is_a_success_not_an_error() {
    let mut engine = DetectionEngine::new();
    engine.load_model(Ok(()), None).unwrap();
    let r = engine.detect_image(&png_bytes(10), &silent_backend).unwrap();
    assert_eq!(r.detections.len(), 0);
    assert_eq!(r.image_width, 8);
    assert_eq!(r.image_height, 6);
    assert_eq!(r.model_input_size, (640, 640));
    assert_eq!(engine.get_stats().total_inferences, 1);
}

#[test]
fn undecodable_bytes_fail_with_decode_error() {
    let mut engine = DetectionEngine::new();
    engine.load_model(Ok(()), None).unwrap();
    let r = engine.detect_image(b"definitely not an image", &silent_backend);
    assert!(matches!(r, Err(DetectError::Decode)));
    let r2 = engine.detect_image(b"", &silent_backend);
    assert!(matches!(r2, Err(DetectError::Decode)));
    assert_eq!(engine.get_stats().total_inferences, 0);
}

#[test]
fn backend_error_propagates_verbatim() {
    let mut engine = DetectionEngine::new();
    engine.load_model(Ok(()), None).unwrap();
    let backend = |_t: InputTensor| -> Result<RawOutput, String> { Err("gpu on fire".to_string()) };
    match engine.detect_image(&png_bytes(10), &backend) {
        Err(DetectError::Inference(m)) => assert_eq!(m, "gpu on fire"),
        other => panic!("unexpected: {:?}", other.map(|r| r.detections.len())),
    }
}

#[test]
fn malformed_backend_output_is_an_inference_error() {
    let mut engine = DetectionEngine::new();
    engine.load_model(Ok(()), None).unwrap();
    let backend =
        |_t: InputTensor| -> Result<RawOutput, String> {
            Ok(RawOutput { num_classes: 2, num_anchors: 3, data: vec![0u32; 5] })
        };
    assert!(matches!(
        engine.detect_image(&png_bytes(10), &backend),
        Err(DetectError::Inference(_))
    ));
    // Right shape but wrong class count for the two-class catalog.
    let backend2 =
        |_t: InputTensor| -> Result<RawOutput, String> {
            Ok(RawOutput { num_classes: 3, num_anchors: 1, data: vec![0u32; 7] })
        };
    assert!(matches!(
        engine.detect_image(&png_bytes(10), &backend2),
        Err(DetectError::Inference(_))
    ));
}

#[test]
fn second_preprocess_of_same_bytes_hits_cache() {
    let mut engine = DetectionEngine::new();
    engine.load_model(Ok(()), None).unwrap();
    let bytes = png_bytes(42);
    let r1 = engine.detect_image(&bytes, &one_box_backend(0, 800_000)).unwrap();
    let r2 = engine.detect_image(&bytes, &one_box_backend(0, 800_000)).unwrap();
    let stats = engine.get_stats();
    assert_eq!(stats.cache_misses, 1);
    assert_eq!(stats.cache_hits, 1);
    // Identical input gives numerically identical detections both times.
    assert_eq!(r1.detections.len(), 1);
    assert_eq!(r2.detections.len(), 1);
    assert_eq!(r1.detections[0].bbox, r2.detections[0].bbox);
    assert_eq!(r1.detections[0].confidence, r2.detections[0].confidence);
    // Different bytes invalidate the single-slot cache.
    let other = png_bytes(200);
    engine.detect_image(&other, &one_box_backend(0, 800_000)).unwrap();
    assert_eq!(engine.get_stats().cache_misses, 2);
}

#[test]
fn detection_carries_catalog_name_and_pixel_box() {
    let mut engine = DetectionEngine::new();
    engine.load_model(Ok(()), None).unwrap();
    let r = engine
        .detect_image(&png_bytes(10), &one_box_backend(1, 900_000))
        .unwrap();
    assert_eq!(r.detections.len(), 1);
    let d = &r.detections[0];
    assert_eq!(d.class_id, 1);
    assert_eq!(d.class_name, "\u{6b63}\u{5e38}".to_string());
    assert_eq!(d.confidence, 900_000);
    // Center (0.5, 0.5), size (0.2, 0.3) on the 8 x 6 original:
    // x = 0.4 * 8 = 3, y = 0.35 * 6 = 2 (truncated), w = 1, h = 1.
    assert_eq!((d.bbox.x, d.bbox.y, d.bbox.w, d.bbox.h), (3, 2, 1, 1));
}

#[test]
fn disabling_a_class_excludes_it_from_results() {
    let mut engine = DetectionEngine::new();
    engine.load_model(Ok(()), None).unwrap();
    engine.set_enabled_classes(&vec![1]).unwrap();
    let r = engine
        .detect_image(&png_bytes(10), &one_box_backend(0, 990_000))
        .unwrap();
    assert!(r.detections.iter().all(|d| d.class_id != 0));
    assert_eq!(r.detections.len(), 0);
}

#[test]
fn unknown_enabled_ids_are_dropped_silently() {
    let mut engine = DetectionEngine::new();
    engine.load_model(Ok(()), None).unwrap();
    assert!(engine.set_enabled_classes(&vec![0, 1, 7, 99]).is_ok());
    let r = engine
        .detect_image(&png_bytes(10), &one_box_backend(0, 990_000))
        .unwrap();
    assert_eq!(r.detections.len(), 1);
}

#[test]
fn update_threshold_rejects_unknown_class() {
    let mut engine = DetectionEngine::new();
    engine.load_model(Ok(()), None).unwrap();
    assert!(engine.update_threshold("nonexistent", 100_000).is_err());
    assert!(engine.update_threshold("\u{6b63}\u{5e38}", 100_000).is_ok());
}

#[test]
fn update_threshold_clamps_to_unit() {
    let mut engine = DetectionEngine::new();
    engine.load_model(Ok(()), None).unwrap();
    engine
        .update_threshold("\u{6b63}\u{5e38}", 4_000_000_000)
        .unwrap();
    assert_eq!(engine.get_threshold("\u{6b63}\u{5e38}"), yolo_core::UNIT);
}

#[test]
fn raising_threshold_removes_only_that_class() {
    let mut engine = DetectionEngine::new();
    engine.load_model(Ok(()), None).unwrap();
    let bytes = png_bytes(99);
    let before = engine
        .detect_image(&bytes, &one_box_backend(0, 300_000))
        .unwrap();
    assert_eq!(before.detections.len(), 1);
    engine.update_threshold("\u{5f02}\u{5e38}", 500_000).unwrap();
    let after = engine
        .detect_image(&bytes, &one_box_backend(0, 300_000))
        .unwrap();
    assert_eq!(after.detections.len(), 0);
}

#[test]
fn default_thresholds_of_builtin_catalog() {
    let engine = DetectionEngine::new();
    assert_eq!(engine.get_threshold("\u{5f02}\u{5e38}"), 200_000);
    assert_eq!(engine.get_threshold("\u{6b63}\u{5e38}"), 500_000);
    assert_eq!(engine.get_threshold("unheard-of"), 500_000);
}

#[test]
fn load_model_with_catalog_file_replaces_catalog_wholesale() {
    let mut engine = DetectionEngine::new();
    engine
        .load_model(Ok(()), Some("cat\n dog \n\ncow\n"))
        .unwrap();
    assert!(engine.is_initialized());
    let catalog = engine.get_class_catalog();
    assert_eq!(catalog, vec!["cat".to_string(), "dog".to_string(), "cow".to_string()]);
    // Thresholds reset to the default for every name.
    assert_eq!(engine.get_threshold("cat"), 500_000);
    assert_eq!(engine.get_threshold("\u{5f02}\u{5e38}"), 500_000);
}

#[test]
fn load_model_backend_failure_keeps_state() {
    let mut engine = DetectionEngine::new();
    match engine.load_model(Err("missing file".to_string()), None) {
        Err(ModelLoadError::Backend(m)) => assert_eq!(m, "missing file"),
        _ => panic!("expected a backend error"),
    }
    assert!(!engine.is_initialized());
}

#[test]
fn load_model_empty_catalog_file_fails_and_keeps_state() {
    let mut engine = DetectionEngine::new();
    let r = engine.load_model(Ok(()), Some("  \n\t\n\r\n"));
    assert!(matches!(r, Err(ModelLoadError::EmptyCatalog)));
    assert!(!engine.is_initialized());
    assert_eq!(engine.get_class_catalog().len(), 2);
}

#[test]
fn reset_stats_zeroes_counters() {
    let mut engine = DetectionEngine::new();
    engine.load_model(Ok(()), None).unwrap();
    engine
        .detect_image(&png_bytes(10), &silent_backend)
        .unwrap();
    assert_eq!(engine.get_stats().total_inferences, 1);
    engine.reset_stats();
    let s = engine.get_stats();
    assert_eq!(s.total_inferences, 0);
    assert_eq!(s.cache_misses, 0);
    assert_eq!(s.total_preprocess_time_ms, 0);
}
