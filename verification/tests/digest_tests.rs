use yolo_core::digest::{compute, DIGEST_LEN};

#[test]
fn digest_is_deterministic() {
    let a = compute(b"hello world");
    let b = compute(b"hello world");
    assert!(a.equals(&b));
    assert_eq!(a.to_bytes(), b.to_bytes());
}

#[test]
fn digest_has_sixteen_bytes() {
    assert_eq!(compute(b"").to_bytes().len(), DIGEST_LEN);
    assert_eq!(compute(b"abc").to_bytes().len(), DIGEST_LEN);
}

#[test]
fn digest_distinguishes_simple_inputs() {
    let a = compute(b"image-a");
    let b = compute(b"image-b");
    assert!(!a.equals(&b));
}

#[test]
fn digest_depends_on_length() {
    let a = compute(b"");
    let b = compute(b"\0");
    assert!(!a.equals(&b));
}

#[test]
fn digest_exact_value_of_empty_input() {
    // Folding no bytes leaves zeros; the length phase adds the base-256
    // digits of 0, so every byte stays zero.
    assert_eq!(compute(b"").to_bytes(), vec![0u8; 16]);
}

#[test]
fn digest_exact_value_of_one_byte() {
    // One byte 0x41 at position 0: slot 0 becomes 0x41 ^ 0 = 0x41, then
    // the length phase adds 1 to slot 0.
    let d = compute(b"A").to_bytes();
    let mut expected = vec![0u8; 16];
    expected[0] = 0x41 + 1;
    assert_eq!(d, expected);
}
