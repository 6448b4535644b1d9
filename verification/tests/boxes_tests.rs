use yolo_core::boxes::{iou, BBox};
use yolo_core::UNIT;

fn bx(x: i64, y: i64, w: i64, h: i64) -> BBox {
    BBox { x, y, w, h }
}

#[test]
fn iou_of_identical_positive_box_is_one() {
    let a = bx(10, 20, 100, 50);
    assert_eq!(iou(&a, &a), UNIT);
}

#[test]
fn iou_of_disjoint_boxes_is_zero() {
    let a = bx(0, 0, 10, 10);
    let b = bx(100, 100, 10, 10);
    assert_eq!(iou(&a, &b), 0);
    assert_eq!(iou(&b, &a), 0);
}

#[test]
fn iou_is_symmetric() {
    let a = bx(0, 0, 100, 100);
    let b = bx(50, 50, 100, 100);
    assert_eq!(iou(&a, &b), iou(&b, &a));
}

#[test]
fn iou_half_overlap_exact_value() {
    // a covers b's lower half: intersection 50, union 100.
    let a = bx(0, 0, 10, 10);
    let b = bx(0, 0, 10, 5);
    assert_eq!(iou(&a, &b), UNIT / 2);
}

#[test]
fn iou_of_degenerate_box_is_zero() {
    let a = bx(0, 0, 0, 10);
    let b = bx(0, 0, 10, 10);
    assert_eq!(iou(&a, &b), 0);
    assert_eq!(iou(&a, &a), 0);
}

#[test]
fn iou_within_bounds() {
    let a = bx(-5, -5, 30, 40);
    let b = bx(3, 1, 17, 22);
    let v = iou(&a, &b);
    assert!(v <= UNIT);
}

#[test]
fn iou_point_six_overlap() {
    // Intersection 100 x 75 = 7500; union 10000 + 10000 - 7500 = 12500.
    let a = bx(0, 0, 100, 100);
    let b = bx(0, 25, 100, 100);
    assert_eq!(iou(&a, &b), 600_000);
}
