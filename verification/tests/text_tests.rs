use yolo_core::text::parse_class_names;

#[test]
fn one_name_per_line() {
    assert_eq!(
        parse_class_names("cat\ndog\ncow"),
        vec!["cat".to_string(), "dog".to_string(), "cow".to_string()]
    );
}

#[test]
fn blank_lines_are_dropped() {
    assert_eq!(
        parse_class_names("\ncat\n\n\ndog\n\n"),
        vec!["cat".to_string(), "dog".to_string()]
    );
}

#[test]
fn lines_are_trimmed() {
    assert_eq!(
        parse_class_names("  cat \t\n\tdog\r\n"),
        vec!["cat".to_string(), "dog".to_string()]
    );
}

#[test]
fn carriage_returns_of_windows_files_are_stripped() {
    assert_eq!(
        parse_class_names("cat\r\ndog\r\n"),
        vec!["cat".to_string(), "dog".to_string()]
    );
}

#[test]
fn empty_text_gives_empty_catalog() {
    assert_eq!(parse_class_names(""), Vec::<String>::new());
    assert_eq!(parse_class_names(" \n\t\n"), Vec::<String>::new());
}

#[test]
fn non_ascii_names_survive() {
    assert_eq!(
        parse_class_names("\u{5f02}\u{5e38}\n\u{6b63}\u{5e38}\n"),
        vec!["\u{5f02}\u{5e38}".to_string(), "\u{6b63}\u{5e38}".to_string()]
    );
}

#[test]
fn interior_spaces_are_kept() {
    assert_eq!(
        parse_class_names("traffic light\nfire hydrant\n"),
        vec!["traffic light".to_string(), "fire hydrant".to_string()]
    );
}

use yolo_core::text::{get_file_extension, is_model_path, is_supported_image_path};

#[test]
fn extension_is_lowercased_tail_after_last_dot() {
    assert_eq!(get_file_extension("photo.JPG"), Some("jpg".to_string()));
    assert_eq!(get_file_extension("dir.v2/archive.tar.GZ"), Some("gz".to_string()));
    assert_eq!(get_file_extension("C:\\models\\best.ONNX"), Some("onnx".to_string()));
}

#[test]
fn files_without_extension_have_none() {
    assert_eq!(get_file_extension("README"), None);
    assert_eq!(get_file_extension(".gitignore"), None);
    assert_eq!(get_file_extension("dir.v2/plain"), None);
}

#[test]
fn supported_image_paths() {
    assert!(is_supported_image_path("a/b/c.png"));
    assert!(is_supported_image_path("x.WEBP"));
    assert!(!is_supported_image_path("x.txt"));
    assert!(!is_supported_image_path("x"));
}

#[test]
fn model_paths_must_be_onnx() {
    assert!(is_model_path("models/best.onnx"));
    assert!(!is_model_path("models/best.pt"));
    assert!(!is_model_path("models/onnx"));
}
