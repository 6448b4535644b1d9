//! Monotonic performance counters for the detection engine: per-stage
//! cumulative times, cache hit and miss counts, total inference count, and
//! a rolling frames-per-second figure derived from the most recent call.
//!
//! Times are wall-clock milliseconds.  `avg_fps_milli` is frames per
//! second scaled by 1000 (fixed point), recomputed from the latest call's
//! total time.  Counter additions saturate at `u64::MAX` instead of
//! wrapping, so counters never decrease.

use vstd::prelude::*;

verus! {

/// A snapshot of the engine's counters.
#[derive(Clone, Copy, PartialEq, Eq, Structural, Debug)]
pub struct ModelStats {
    pub total_inferences: u64,
    pub total_preprocess_time_ms: u64,
    pub total_inference_time_ms: u64,
    pub total_postprocess_time_ms: u64,
    pub avg_fps_milli: u64,
    pub cache_hits: u64,
    pub cache_misses: u64,
}

/// `a + b`, stopping at `u64::MAX`.
pub open spec fn sat_add(a: u64, b: u64) -> u64 {
    if a + b <= u64::MAX {
        (a + b) as u64
    } else {
        u64::MAX
    }
}

/// Saturating addition of two counters.
fn add_sat(a: u64, b: u64) -> (r: u64)
    ensures
        r == sat_add(a, b),
{
    if a <= u64::MAX - b {
        a + b
    } else {
        u64::MAX
    }
}

impl ModelStats {
    /// All counters at zero.
    pub open spec fn zeroed(self) -> bool {
        &&& self.total_inferences == 0
        &&& self.total_preprocess_time_ms == 0
        &&& self.total_inference_time_ms == 0
        &&& self.total_postprocess_time_ms == 0
        &&& self.avg_fps_milli == 0
        &&& self.cache_hits == 0
        &&& self.cache_misses == 0
    }

    /// Fresh counters, all zero.
    pub fn new() -> (r: Self)
        ensures
            r.zeroed(),
    {
        ModelStats {
            total_inferences: 0,
            total_preprocess_time_ms: 0,
            total_inference_time_ms: 0,
            total_postprocess_time_ms: 0,
            avg_fps_milli: 0,
            cache_hits: 0,
            cache_misses: 0,
        }
    }
}

/// Accumulates the engine's statistics.
pub struct StatsCollector {
    pub stats: ModelStats,
}

impl StatsCollector {
    /// Fresh collector with zeroed counters.
    pub fn new() -> (r: Self)
        ensures
            r.stats.zeroed(),
    {
        StatsCollector { stats: ModelStats::new() }
    }

    /// Record one preprocessing stage: its time and whether the cache hit.
    pub fn record_preprocess(&mut self, ms: u64, hit: bool)
        ensures
            final(self).stats == (ModelStats {
                total_preprocess_time_ms: sat_add(old(self).stats.total_preprocess_time_ms, ms),
                cache_hits: if hit {
                    sat_add(old(self).stats.cache_hits, 1)
                } else {
                    old(self).stats.cache_hits
                },
                cache_misses: if hit {
                    old(self).stats.cache_misses
                } else {
                    sat_add(old(self).stats.cache_misses, 1)
                },
                ..old(self).stats
            }),
    {
        self.stats.total_preprocess_time_ms = add_sat(self.stats.total_preprocess_time_ms, ms);
        if hit {
            self.stats.cache_hits = add_sat(self.stats.cache_hits, 1);
        } else {
            self.stats.cache_misses = add_sat(self.stats.cache_misses, 1);
        }
    }

    /// Record one inference stage's time.
    pub fn record_inference(&mut self, ms: u64)
        ensures
            final(self).stats == (ModelStats {
                total_inference_time_ms: sat_add(old(self).stats.total_inference_time_ms, ms),
                ..old(self).stats
            }),
    {
        self.stats.total_inference_time_ms = add_sat(self.stats.total_inference_time_ms, ms);
    }

    /// Record one post-processing stage's time.
    pub fn record_postprocess(&mut self, ms: u64)
        ensures
            final(self).stats == (ModelStats {
                total_postprocess_time_ms: sat_add(old(self).stats.total_postprocess_time_ms, ms),
                ..old(self).stats
            }),
    {
        self.stats.total_postprocess_time_ms = add_sat(self.stats.total_postprocess_time_ms, ms);
    }

    /// Finish one call: count it and recompute the rolling
    /// frames-per-second figure from the call's total time.  A total of
    /// zero milliseconds leaves the figure unchanged.
    pub fn finish_call(&mut self, total_ms: u64)
        ensures
            final(self).stats == (ModelStats {
                total_inferences: sat_add(old(self).stats.total_inferences, 1),
                avg_fps_milli: if total_ms > 0 {
                    (1_000_000u64 / total_ms) as u64
                } else {
                    old(self).stats.avg_fps_milli
                },
                ..old(self).stats
            }),
    {
        self.stats.total_inferences = add_sat(self.stats.total_inferences, 1);
        if total_ms > 0 {
            self.stats.avg_fps_milli = 1_000_000u64 / total_ms;
        }
    }

    /// An immutable copy of the counters.
    pub fn snapshot(&self) -> (r: ModelStats)
        ensures
            r == self.stats,
    {
        self.stats.clone()
    }

    /// Zero every counter.
    pub fn reset(&mut self)
        ensures
            final(self).stats.zeroed(),
    {
        self.stats = ModelStats::new();
    }
}

} // verus!
