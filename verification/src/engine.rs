//! The detection engine: it owns the configuration, the statistics, and
//! the preprocessing cache, enforces the initialization state machine,
//! and sequences preprocess, inference and post-process for each call.
//!
//! The inference backend is pluggable: `detect_image` takes it as a
//! function value from the input tensor to a raw output tensor, and is
//! verified for every answer the backend may give.  Loading the model
//! file itself is outside work; `load_model` takes its outcome as an
//! event and decides the state transition.

use vstd::prelude::*;

use crate::codec::decoded_rgb;
use crate::config::ConfigStore;
use crate::detections::{models_of, DetectionResult};
use crate::errors::{DetectError, ModelLoadError, UnknownClassError};
use crate::postprocess::{postprocess, postprocess_spec, RawOutput};
use crate::preprocess::{
    preprocess_samples_spec,
    InputTensor,
    Preprocessor,
    DEFAULT_INPUT_HEIGHT,
    DEFAULT_INPUT_WIDTH,
};
use crate::stats::{sat_add, ModelStats, StatsCollector};
use crate::text::parse_class_names;

verus! {

#[verifier::external_type_specification]
#[verifier::external_body]
pub struct ExInstant(std::time::Instant);

/// A point in time.
///
/// Relies on `std::time::Instant::now`; nothing is assumed about the
/// value.
#[verifier::external_body]
fn instant_now() -> (r: std::time::Instant) {
    std::time::Instant::now()
}

/// Whole milliseconds elapsed since `t`, saturating at `u64::MAX`.
///
/// Relies on `std::time::Instant::elapsed`; nothing is assumed about the
/// value.
#[verifier::external_body]
fn elapsed_millis(t: &std::time::Instant) -> (r: u64) {
    u64::try_from(t.elapsed().as_millis()).unwrap_or(u64::MAX)
}

/// The engine: initialization state, configuration, statistics and the
/// preprocessing cache.  `initialized` is false until a model load
/// succeeds.
pub struct DetectionEngine {
    pub initialized: bool,
    pub config: ConfigStore,
    pub stats: StatsCollector,
    pub pre: Preprocessor,
}

/// The samples of the tensor that a detection call on `bytes` hands to
/// the backend: the cached tensor when the digest matches, else the
/// freshly preprocessed one.
pub open spec fn detect_tensor_samples(e: DetectionEngine, bytes: Seq<u8>) -> Seq<u8> {
    if e.pre.cache_matches(bytes) {
        e.pre.cache->Some_0.1.data@
    } else {
        preprocess_samples_spec(bytes, e.pre.input_width, e.pre.input_height)
    }
}

impl DetectionEngine {
    /// Well-formed configuration and preprocessor.
    pub open spec fn wf(self) -> bool {
        self.config.wf() && self.pre.wf()
    }

    /// A fresh engine: uninitialized, the built-in two-class catalog and
    /// thresholds, zeroed statistics, an empty cache, and the default
    /// model input resolution.
    pub fn new() -> (r: Self)
        ensures
            r.wf(),
            !r.initialized,
            r.stats.stats.zeroed(),
            r.pre.cache is None,
            r.pre.input_width == DEFAULT_INPUT_WIDTH,
            r.pre.input_height == DEFAULT_INPUT_HEIGHT,
            r.config.num_classes() == 2,
            r.config.threshold_spec("\u{5f02}\u{5e38}"@)
                == crate::config::DEFAULT_ABNORMAL_THRESHOLD,
            r.config.threshold_spec("\u{6b63}\u{5e38}"@) == crate::config::DEFAULT_THRESHOLD,
            forall|id: int| r.config.enabled_spec(id) == (0 <= id < 2),
    {
        DetectionEngine {
            initialized: false,
            config: ConfigStore::new(),
            stats: StatsCollector::new(),
            pre: Preprocessor::new(DEFAULT_INPUT_WIDTH, DEFAULT_INPUT_HEIGHT),
        }
    }

    /// Whether a model has been loaded.
    pub fn is_initialized(&self) -> (r: bool)
        ensures
            r == self.initialized,
    {
        self.initialized
    }

    /// Decide a model-load attempt: `backend` is the outcome of the
    /// outside work of locating and loading the model file, and
    /// `class_text` the content of the sibling class-catalog file when
    /// one exists.
    ///
    /// On a backend failure the error is returned verbatim and nothing
    /// changes.  On success with a catalog file, the parsed catalog
    /// replaces the old one wholesale — all classes enabled, thresholds
    /// reset to the default — unless it is empty, which fails the load
    /// and changes nothing.  Without a catalog file the current catalog
    /// and thresholds are kept.  The engine is initialized exactly when
    /// the load succeeds, and an earlier initialized state survives a
    /// failed reload.
    pub fn load_model(&mut self, backend: Result<(), String>, class_text: Option<&str>) -> (r:
        Result<(), ModelLoadError>)
        requires
            old(self).wf(),
        ensures
            final(self).wf(),
            final(self).stats == old(self).stats,
            final(self).pre == old(self).pre,
            backend matches Err(m) ==> r == Err::<(), ModelLoadError>(ModelLoadError::Backend(m))
                && *final(self) == *old(self),
            backend is Ok && class_text is None ==> r is Ok && final(self).initialized && final(self).config == old(self).config,
            backend is Ok ==> (class_text matches Some(t) ==> {
                if crate::text::split_class_lines(t@).len() == 0 {
                    r == Err::<(), ModelLoadError>(ModelLoadError::EmptyCatalog) && *final(self)
                        == *old(self)
                } else {
                    &&& r is Ok
                    &&& final(self).initialized
                    &&& final(self).config.catalog_spec() == crate::text::split_class_lines(t@)
                    &&& forall|id: int|
                        final(self).config.enabled_spec(id) == (0 <= id
                            < crate::text::split_class_lines(t@).len())
                    &&& forall|m: Seq<char>|
                        final(self).config.threshold_spec(m)
                            == crate::config::DEFAULT_THRESHOLD
                }
            }),
    {
        match backend {
            Err(m) => Err(ModelLoadError::Backend(m)),
            Ok(()) => {
                match class_text {
                    None => {
                        self.initialized = true;
                        Ok(())
                    },
                    Some(text) => {
                        let names = parse_class_names(text);
                        if names.len() == 0 {
                            proof {
                                assert(names@.map_values(|s: String| s@).len() == 0);
                            }
                            Err(ModelLoadError::EmptyCatalog)
                        } else {
                            proof {
                                assert(names@.map_values(|s: String| s@).len() == names@.len());
                            }
                            self.config.load_catalog(names);
                            self.initialized = true;
                            Ok(())
                        }
                    },
                }
            },
        }
    }

    /// Set the confidence threshold for a class name, clamped to
    /// `[0, UNIT]`.  A name absent from the catalog is rejected and
    /// nothing changes.
    pub fn update_threshold(&mut self, class_name: &str, value: u32) -> (r: Result<
        (),
        UnknownClassError,
    >)
        requires
            old(self).wf(),
        ensures
            final(self).wf(),
            final(self).initialized == old(self).initialized,
            final(self).stats == old(self).stats,
            final(self).pre == old(self).pre,
            final(self).config.catalog == old(self).config.catalog,
            final(self).config.enabled == old(self).config.enabled,
            r is Ok <==> old(self).config.has_class_name(class_name@),
            r is Err ==> *final(self) == *old(self),
            r is Ok ==> final(self).config.threshold_spec(class_name@) == (if value
                <= crate::UNIT {
                value
            } else {
                crate::UNIT
            }),
            r is Ok ==> forall|m: Seq<char>|
                m != class_name@ ==> final(self).config.threshold_spec(m) == old(self).config.threshold_spec(m),
    {
        let owned: String = class_name.to_owned();
        if self.config.contains_class_name(&owned) {
            self.config.set_threshold(&owned, value);
            Ok(())
        } else {
            Err(UnknownClassError)
        }
    }

    /// Look up the threshold for a class name: the stored value, or the
    /// default when no entry exists.
    pub fn get_threshold(&self, class_name: &str) -> (r: u32)
        requires
            self.wf(),
        ensures
            r == self.config.threshold_spec(class_name@),
            r <= crate::UNIT,
    {
        let owned: String = class_name.to_owned();
        self.config.get_threshold(&owned)
    }

    /// Replace the enabled-class set; ids outside the catalog are dropped
    /// silently, never an error.
    pub fn set_enabled_classes(&mut self, class_ids: &Vec<u32>) -> (r: Result<(), ()>)
        requires
            old(self).wf(),
        ensures
            final(self).wf(),
            r is Ok,
            final(self).initialized == old(self).initialized,
            final(self).stats == old(self).stats,
            final(self).pre == old(self).pre,
            final(self).config.catalog == old(self).config.catalog,
            final(self).config.thresholds == old(self).config.thresholds,
            forall|id: int|
                final(self).config.enabled_spec(id) == (0 <= id < final(self).config.num_classes() && class_ids@.contains(id as u32)),
    {
        self.config.set_enabled_classes(class_ids);
        Ok(())
    }

    /// A snapshot of the statistics counters.
    pub fn get_stats(&self) -> (r: ModelStats)
        ensures
            r == self.stats.stats,
    {
        self.stats.snapshot()
    }

    /// Zero every statistics counter.
    pub fn reset_stats(&mut self)
        requires
            old(self).wf(),
        ensures
            final(self).wf(),
            final(self).stats.stats.zeroed(),
            final(self).initialized == old(self).initialized,
            final(self).config == old(self).config,
            final(self).pre == old(self).pre,
    {
        self.stats.reset();
    }

    /// A copy of the class catalog; class ids are the indices.
    pub fn get_class_catalog(&self) -> (r: Vec<String>)
        ensures
            r@.map_values(|s: String| s@) == self.config.catalog_spec(),
    {
        self.config.catalog_names()
    }

    /// Run one detection: decode and preprocess `bytes` (through the
    /// single-slot cache), hand the tensor to the `infer` backend, and
    /// post-process its raw output into labeled detections in original
    /// pixels, updating the statistics along the way.
    ///
    /// Before a model is loaded the call fails with `NotInitialized` and
    /// has no effect.  Undecodable bytes fail with `Decode` and leave the
    /// engine unchanged.  A backend error is propagated verbatim, and a
    /// backend answer of the wrong shape or range is rejected, as an
    /// `Inference` error.  On success the detections are exactly
    /// `postprocess_spec` of the backend's answer under the current
    /// configuration: every detection's class is in the catalog and
    /// enabled, carries its catalog name, and clears its class's
    /// threshold.
    pub fn detect_image<F: Fn(InputTensor) -> Result<RawOutput, String>>(
        &mut self,
        bytes: &[u8],
        infer: &F,
    ) -> (r: Result<DetectionResult, DetectError>)
        requires
            old(self).wf(),
            forall|t: InputTensor| call_requires(*infer, (t,)),
        ensures
            final(self).wf(),
            final(self).initialized == old(self).initialized,
            final(self).config == old(self).config,
            final(self).pre.input_width == old(self).pre.input_width,
            final(self).pre.input_height == old(self).pre.input_height,
            r == Err::<DetectionResult, DetectError>(DetectError::NotInitialized) <==> !old(self).initialized,
            !old(self).initialized ==> *final(self) == *old(self),
            old(self).initialized ==> (r == Err::<DetectionResult, DetectError>(
                DetectError::Decode,
            ) <==> decoded_rgb(bytes@) is None),
            r == Err::<DetectionResult, DetectError>(DetectError::Decode) ==> *final(self)
                == *old(self),
            r matches Ok(res) ==> {
                &&& decoded_rgb(bytes@) matches Some(d) && res.image_width == d.0
                    && res.image_height == d.1
                &&& res.model_input_size == (
                    old(self).pre.input_width,
                    old(self).pre.input_height,
                )
                &&& exists|t: InputTensor, raw: RawOutput|
                    {
                        &&& #[trigger] call_ensures(*infer, (t,), Ok(raw))
                        &&& t.width == old(self).pre.input_width
                        &&& t.height == old(self).pre.input_height
                        &&& t.data@ == detect_tensor_samples(*old(self), bytes@)
                        &&& raw.wf()
                        &&& raw.num_classes == old(self).config.num_classes()
                        &&& models_of(res.detections@) == postprocess_spec(
                            raw,
                            old(self).config,
                            res.image_width,
                            res.image_height,
                        )
                    }
                &&& forall|i: int|
                    0 <= i < res.detections@.len() ==> {
                        &&& 0 <= (#[trigger] res.detections@[i]).class_id < old(self).config.num_classes()
                        &&& res.detections@[i].class_name@ == old(self).config.catalog_spec()[res.detections@[i].class_id as int]
                        &&& old(self).config.enabled_spec(res.detections@[i].class_id as int)
                        &&& res.detections@[i].confidence >= old(self).config.threshold_spec(
                            res.detections@[i].class_name@,
                        )
                        &&& res.detections@[i].wf()
                    }
                &&& final(self).stats.stats.total_inferences == sat_add(
                    old(self).stats.stats.total_inferences,
                    1,
                )
                &&& final(self).pre.cache_matches(bytes@)
            },
            (r is Ok || (r matches Err(e) && e is Inference)) ==> {
                &&& final(self).stats.stats.cache_hits == (if old(self).pre.cache_matches(
                    bytes@,
                ) {
                    sat_add(old(self).stats.stats.cache_hits, 1)
                } else {
                    old(self).stats.stats.cache_hits
                })
                &&& final(self).stats.stats.cache_misses == (if old(self).pre.cache_matches(
                    bytes@,
                ) {
                    old(self).stats.stats.cache_misses
                } else {
                    sat_add(old(self).stats.stats.cache_misses, 1)
                })
            },
            (r matches Err(e) && e is Inference) ==> final(self).stats.stats.total_inferences
                == old(self).stats.stats.total_inferences,
            r matches Err(e) ==> e is Inference ==> exists|t: InputTensor, out: Result<
                RawOutput,
                String,
            >|
                {
                    &&& #[trigger] call_ensures(*infer, (t,), out)
                    &&& t.width == old(self).pre.input_width
                    &&& t.height == old(self).pre.input_height
                    &&& t.data@ == detect_tensor_samples(*old(self), bytes@)
                    &&& match out {
                        Err(m) => e == DetectError::Inference(m),
                        Ok(raw) => !(raw.wf() && raw.num_classes == old(
                            self,
                        ).config.num_classes()),
                    }
                },
    {
        let total_start = instant_now();
        if !self.initialized {
            return Err(DetectError::NotInitialized);
        }
        let pre_start = instant_now();
        let outcome = match self.pre.preprocess(bytes) {
            Err(_) => {
                return Err(DetectError::Decode);
            },
            Ok(o) => o,
        };
        let pre_ms = elapsed_millis(&pre_start);
        self.stats.record_preprocess(pre_ms, outcome.cache_hit);
        let ow = outcome.width;
        let oh = outcome.height;
        let inf_start = instant_now();
        let ghost tensor_arg = outcome.tensor;
        let raw = match infer(outcome.tensor) {
            Err(m) => {
                proof {
                    assert(call_ensures(*infer, (tensor_arg,), Err::<RawOutput, String>(m)));
                }
                return Err(DetectError::Inference(m));
            },
            Ok(raw) => raw,
        };
        let nc = self.config.class_count();
        if !(raw.validate() && raw.num_classes == nc) {
            proof {
                assert(call_ensures(*infer, (tensor_arg,), Ok::<RawOutput, String>(raw)));
            }
            return Err(DetectError::Inference("raw output has an unexpected shape".to_owned()));
        }
        let inf_ms = elapsed_millis(&inf_start);
        self.stats.record_inference(inf_ms);
        let post_start = instant_now();
        let detections = postprocess(&raw, &self.config, ow, oh);
        let post_ms = elapsed_millis(&post_start);
        self.stats.record_postprocess(post_ms);
        let total_ms = elapsed_millis(&total_start);
        self.stats.finish_call(total_ms);
        let result = DetectionResult {
            detections,
            image_width: ow,
            image_height: oh,
            processing_time_ms: total_ms,
            model_input_size: (self.pre.input_width, self.pre.input_height),
        };
        Ok(result)
    }
}

} // verus!
