use yolo_core::boxes::BBox;
use yolo_core::config::ConfigStore;
use yolo_core::detections::Detection;
use yolo_core::postprocess::{apply_nms, postprocess, RawOutput};

/// Build a raw output from per-anchor rows: for each anchor a center box
/// `(cx, cy, w, h)` and per-class scores, all fixed-point.
fn raw_from_anchors(num_classes: usize, anchors: &[(u32, u32, u32, u32, Vec<u32>)]) -> RawOutput {
    let na = anchors.len();
    let rows = 4 + num_classes;
    let mut data = vec![0u32; rows * na];
    for (a, (cx, cy, w, h, scores)) in anchors.iter().enumerate() {
        assert_eq!(scores.len(), num_classes);
        data[a] = *cx;
        data[na + a] = *cy;
        data[2 * na + a] = *w;
        data[3 * na + a] = *h;
        for (c, s) in scores.iter().enumerate() {
            data[(4 + c) * na + a] = *s;
        }
    }
    RawOutput { num_classes, num_anchors: na, data }
}

fn det(class_id: u32, confidence: u32, x: i64, y: i64, w: i64, h: i64) -> Detection {
    Detection {
        class_id,
        class_name: String::new(),
        confidence,
        bbox: BBox { x, y, w, h },
    }
}

#[test]
fn validate_accepts_good_shape_and_rejects_bad() {
    let good = raw_from_anchors(2, &[(0, 0, 0, 0, vec![0, 0])]);
    assert!(good.validate());
    let bad = RawOutput { num_classes: 2, num_anchors: 2, data: vec![0u32; 5] };
    assert!(!bad.validate());
    let out_of_range = RawOutput { num_classes: 1, num_anchors: 1, data: vec![2_000_000u32; 5] };
    assert!(!out_of_range.validate());
}

#[test]
fn two_class_catalog_scenario() {
    // Catalog [class 0 at threshold 0.20, class 1 at threshold 0.5].
    // Anchor 0 scores (0.24, 0.76): argmax is class 1 at 0.76 >= 0.5.
    // Anchor 1 scores (0.10, 0.05): argmax is class 0 at 0.10 < 0.20,
    // so the anchor is dropped by its own argmax class's threshold.
    let cfg = ConfigStore::new();
    let raw = raw_from_anchors(
        2,
        &[
            (250_000, 250_000, 100_000, 100_000, vec![240_000, 760_000]),
            (750_000, 750_000, 100_000, 100_000, vec![100_000, 50_000]),
        ],
    );
    let dets = postprocess(&raw, &cfg, 640, 640);
    assert_eq!(dets.len(), 1);
    assert_eq!(dets[0].class_id, 1);
    assert_eq!(dets[0].confidence, 760_000);
    assert_eq!(dets[0].class_name, "\u{6b63}\u{5e38}".to_string());
}

#[test]
fn argmax_tie_goes_to_lowest_class_id() {
    let cfg = ConfigStore::new();
    // Both scores 0.6: argmax must pick class 0 (threshold 0.2 passes).
    let raw = raw_from_anchors(
        2,
        &[(500_000, 500_000, 200_000, 200_000, vec![600_000, 600_000])],
    );
    let dets = postprocess(&raw, &cfg, 100, 100);
    assert_eq!(dets.len(), 1);
    assert_eq!(dets[0].class_id, 0);
    assert_eq!(dets[0].confidence, 600_000);
}

#[test]
fn coordinates_rescale_to_original_pixels() {
    let cfg = ConfigStore::new();
    // Center (0.5, 0.5), size (0.2, 0.2) on a 1000 x 500 image:
    // x = (0.5 - 0.1) * 1000 = 400, y = (0.5 - 0.1) * 500 = 200,
    // w = 200, h = 100.
    let raw = raw_from_anchors(
        2,
        &[(500_000, 500_000, 200_000, 200_000, vec![900_000, 100_000])],
    );
    let dets = postprocess(&raw, &cfg, 1000, 500);
    assert_eq!(dets.len(), 1);
    let b = dets[0].bbox;
    assert_eq!((b.x, b.y, b.w, b.h), (400, 200, 200, 100));
}

#[test]
fn nms_dedup_scenario() {
    // Two boxes with IoU 0.6 (> 0.4) and confidences 0.9 and 0.8: only
    // the 0.9 box survives.
    let a = det(0, 900_000, 0, 0, 100, 100);
    let b = det(0, 800_000, 0, 25, 100, 100);
    let kept = apply_nms(vec![a, b]);
    assert_eq!(kept.len(), 1);
    assert_eq!(kept[0].confidence, 900_000);
}

#[test]
fn nms_keeps_distant_boxes() {
    let a = det(0, 900_000, 0, 0, 10, 10);
    let b = det(1, 800_000, 500, 500, 10, 10);
    let kept = apply_nms(vec![a, b]);
    assert_eq!(kept.len(), 2);
}

#[test]
fn nms_is_idempotent_on_concrete_input() {
    let input = vec![
        det(0, 900_000, 0, 0, 100, 100),
        det(1, 850_000, 0, 25, 100, 100),
        det(0, 800_000, 300, 300, 50, 50),
        det(1, 700_000, 310, 300, 50, 50),
    ];
    let once = apply_nms(input);
    let twice = apply_nms(once.clone());
    assert_eq!(once.len(), twice.len());
    for (a, b) in once.iter().zip(twice.iter()) {
        assert_eq!(a.class_id, b.class_id);
        assert_eq!(a.confidence, b.confidence);
        assert_eq!(a.bbox, b.bbox);
    }
}

#[test]
fn nms_output_is_confidence_descending() {
    let input = vec![
        det(0, 500_000, 0, 0, 10, 10),
        det(0, 900_000, 100, 0, 10, 10),
        det(0, 700_000, 200, 0, 10, 10),
    ];
    let kept = apply_nms(input);
    assert_eq!(kept.len(), 3);
    assert!(kept[0].confidence >= kept[1].confidence);
    assert!(kept[1].confidence >= kept[2].confidence);
}

#[test]
fn disabled_class_is_excluded_regardless_of_confidence() {
    let mut cfg = ConfigStore::new();
    // Enable only class 1; class 0 scores highest on the sole anchor.
    cfg.set_enabled_classes(&vec![1]);
    let raw = raw_from_anchors(
        2,
        &[(500_000, 500_000, 200_000, 200_000, vec![990_000, 10_000])],
    );
    let dets = postprocess(&raw, &cfg, 640, 640);
    assert_eq!(dets.len(), 0);
}

#[test]
fn raising_threshold_only_removes_detections_of_that_class() {
    let mut cfg = ConfigStore::new();
    let raw = raw_from_anchors(
        2,
        &[
            (200_000, 200_000, 100_000, 100_000, vec![300_000, 100_000]),
            (800_000, 800_000, 100_000, 100_000, vec![100_000, 700_000]),
        ],
    );
    let before = postprocess(&raw, &cfg, 640, 640);
    assert_eq!(before.len(), 2);
    // Raise class 0's threshold above its only score.
    cfg.set_threshold(&"\u{5f02}\u{5e38}".to_string(), 400_000);
    let after = postprocess(&raw, &cfg, 640, 640);
    assert_eq!(after.len(), 1);
    assert_eq!(after[0].class_id, 1);
    // The surviving detection was already in the earlier result.
    assert!(before.iter().any(|d| d.class_id == 1 && d.confidence == after[0].confidence));
}
