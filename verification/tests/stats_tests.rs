use yolo_core::stats::StatsCollector;

#[test]
fn counters_accumulate_per_stage() {
    let mut sc = StatsCollector::new();
    sc.record_preprocess(5, false);
    sc.record_preprocess(7, true);
    sc.record_inference(11);
    sc.record_postprocess(3);
    let s = sc.snapshot();
    assert_eq!(s.total_preprocess_time_ms, 12);
    assert_eq!(s.total_inference_time_ms, 11);
    assert_eq!(s.total_postprocess_time_ms, 3);
    assert_eq!(s.cache_hits, 1);
    assert_eq!(s.cache_misses, 1);
    assert_eq!(s.total_inferences, 0);
}

#[test]
fn finish_call_counts_and_computes_fps() {
    let mut sc = StatsCollector::new();
    sc.finish_call(50);
    let s = sc.snapshot();
    assert_eq!(s.total_inferences, 1);
    // 1000 / 50 ms = 20 frames per second, scaled by 1000.
    assert_eq!(s.avg_fps_milli, 20_000);
}

#[test]
fn finish_call_with_zero_time_keeps_previous_fps() {
    let mut sc = StatsCollector::new();
    sc.finish_call(100);
    assert_eq!(sc.snapshot().avg_fps_milli, 10_000);
    sc.finish_call(0);
    let s = sc.snapshot();
    assert_eq!(s.total_inferences, 2);
    assert_eq!(s.avg_fps_milli, 10_000);
}

#[test]
fn counters_saturate_instead_of_wrapping() {
    let mut sc = StatsCollector::new();
    sc.record_inference(u64::MAX);
    sc.record_inference(10);
    assert_eq!(sc.snapshot().total_inference_time_ms, u64::MAX);
}

#[test]
fn reset_zeroes_everything() {
    let mut sc = StatsCollector::new();
    sc.record_preprocess(5, true);
    sc.finish_call(10);
    sc.reset();
    let s = sc.snapshot();
    assert_eq!(s.total_inferences, 0);
    assert_eq!(s.total_preprocess_time_ms, 0);
    assert_eq!(s.cache_hits, 0);
    assert_eq!(s.avg_fps_milli, 0);
}
