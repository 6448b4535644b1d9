use yolo_core::config::{ConfigStore, DEFAULT_THRESHOLD};
use yolo_core::ApiResult;

#[test]
fn builtin_catalog_has_two_classes() {
    let cfg = ConfigStore::new();
    assert_eq!(cfg.class_count(), 2);
    assert_eq!(cfg.class_name(0), "\u{5f02}\u{5e38}".to_string());
    assert_eq!(cfg.class_name(1), "\u{6b63}\u{5e38}".to_string());
    assert!(cfg.is_enabled(0));
    assert!(cfg.is_enabled(1));
    assert!(!cfg.is_enabled(2));
}

#[test]
fn threshold_lookup_falls_back_to_default() {
    let cfg = ConfigStore::new();
    assert_eq!(cfg.get_threshold(&"someone else".to_string()), DEFAULT_THRESHOLD);
}

#[test]
fn set_threshold_clamps_and_upserts() {
    let mut cfg = ConfigStore::new();
    let name = "\u{6b63}\u{5e38}".to_string();
    cfg.set_threshold(&name, 123_456);
    assert_eq!(cfg.get_threshold(&name), 123_456);
    cfg.set_threshold(&name, u32::MAX);
    assert_eq!(cfg.get_threshold(&name), yolo_core::UNIT);
    let fresh = "brand new".to_string();
    cfg.set_threshold(&fresh, 250_000);
    assert_eq!(cfg.get_threshold(&fresh), 250_000);
}

#[test]
fn stale_threshold_entries_survive_catalog_reload_of_enabled_set() {
    let mut cfg = ConfigStore::new();
    cfg.set_threshold(&"ghost".to_string(), 700_000);
    cfg.set_enabled_classes(&vec![0]);
    assert_eq!(cfg.get_threshold(&"ghost".to_string()), 700_000);
}

#[test]
fn load_catalog_resets_enabled_and_thresholds() {
    let mut cfg = ConfigStore::new();
    cfg.set_threshold(&"cat".to_string(), 900_000);
    cfg.load_catalog(vec!["cat".to_string(), "dog".to_string(), "cow".to_string()]);
    assert_eq!(cfg.class_count(), 3);
    assert!(cfg.is_enabled(0) && cfg.is_enabled(1) && cfg.is_enabled(2));
    assert_eq!(cfg.get_threshold(&"cat".to_string()), DEFAULT_THRESHOLD);
    assert_eq!(cfg.catalog_names(), vec!["cat".to_string(), "dog".to_string(), "cow".to_string()]);
}

#[test]
fn set_enabled_classes_replaces_the_set() {
    let mut cfg = ConfigStore::new();
    cfg.set_enabled_classes(&vec![1]);
    assert!(!cfg.is_enabled(0));
    assert!(cfg.is_enabled(1));
    cfg.set_enabled_classes(&vec![]);
    assert!(!cfg.is_enabled(0));
    assert!(!cfg.is_enabled(1));
}

#[test]
fn api_result_wraps_success_and_error() {
    let ok: ApiResult<u32> = ApiResult::success(7);
    assert!(ok.success);
    assert_eq!(ok.data, Some(7));
    assert!(ok.error.is_none());
    let err: ApiResult<u32> = ApiResult::error("boom".to_string());
    assert!(!err.success);
    assert!(err.data.is_none());
    assert_eq!(err.error, Some("boom".to_string()));
}
