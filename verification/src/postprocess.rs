//! Post-processing of the inference backend's raw output: per-anchor
//! argmax decoding, per-class confidence filtering, class-enable
//! filtering, rescaling to original-image pixels, and non-maximum
//! suppression.
//!
//! Every step is specified as a function of the raw tensor and the
//! configuration snapshot, so the executable pipeline is verified to
//! compute exactly `nms_spec(sort_desc_spec(candidates_spec(..)))`.

use vstd::arithmetic::div_mod::{lemma_div_is_ordered, lemma_div_pos_is_pos};
use vstd::prelude::*;

use crate::boxes::{iou, iou_spec, BBox, COORD_LIMIT};
use crate::config::ConfigStore;
use crate::detections::{models_of, DetModel, Detection};
use crate::UNIT;

verus! {

/// Fixed-point IoU threshold above which NMS suppresses a box: 0.4.
pub const NMS_IOU_THRESHOLD: u32 = 400_000;

/// The backend's raw output tensor of shape `[1, 4 + num_classes,
/// num_anchors]`, flattened row-major: entry `(row, anchor)` lives at
/// `row * num_anchors + anchor`.  The first four rows are the anchor's
/// normalized center-box `(cx, cy, w, h)`; the remaining rows are
/// per-class scores.  All values are fixed-point in `[0, UNIT]`.
pub struct RawOutput {
    pub num_classes: usize,
    pub num_anchors: usize,
    pub data: Vec<u32>,
}

impl RawOutput {
    /// Shape and range constraints of a usable raw output.
    pub open spec fn wf(self) -> bool {
        &&& 1 <= self.num_classes <= 0xffff_ffff
        &&& self.data@.len() == (4 + self.num_classes) * self.num_anchors
        &&& forall|i: int| 0 <= i < self.data@.len() ==> #[trigger] self.data@[i] <= UNIT
    }

    /// Entry at `(row, anchor)`.
    pub open spec fn at_spec(self, row: int, anchor: int) -> u32 {
        self.data@[row * (self.num_anchors as int) + anchor]
    }

    /// Score of `class` at `anchor`.
    pub open spec fn score(self, anchor: int, class: int) -> u32 {
        self.at_spec(4 + class, anchor)
    }

    /// The flat index of an in-range `(row, anchor)` pair is in bounds.
    proof fn lemma_index_in_bounds(self, row: int, anchor: int)
        requires
            self.wf(),
            0 <= row < 4 + self.num_classes,
            0 <= anchor < self.num_anchors,
        ensures
            0 <= row * (self.num_anchors as int) + anchor < self.data@.len(),
    {
        let na = self.num_anchors as int;
        assert(row * na + anchor < (4 + self.num_classes) * na) by (nonlinear_arith)
            requires
                0 <= row < 4 + self.num_classes,
                0 <= anchor < na,
        ;
        assert(0 <= row * na) by (nonlinear_arith)
            requires
                0 <= row,
                0 <= na,
        ;
    }

    /// With at least one anchor, a whole row of entries fits in the data.
    proof fn lemma_rows_le_len(self)
        requires
            self.wf(),
            self.num_anchors >= 1,
        ensures
            4 + self.num_classes <= self.data@.len(),
    {
        assert((4 + self.num_classes) * self.num_anchors >= (4 + self.num_classes) * 1)
            by (nonlinear_arith)
            requires
                self.num_anchors >= 1,
                self.num_classes >= 1,
        ;
    }

    /// Entry at `(row, anchor)`, verified against `at_spec`.
    pub fn at(&self, row: usize, anchor: usize) -> (r: u32)
        requires
            self.wf(),
            row < 4 + self.num_classes,
            anchor < self.num_anchors,
        ensures
            r == self.at_spec(row as int, anchor as int),
            r <= UNIT,
    {
        let n = self.data.len();
        proof {
            self.lemma_index_in_bounds(row as int, anchor as int);
            assert(row * (self.num_anchors as int) + anchor < n);
        }
        self.data[row * self.num_anchors + anchor]
    }

    /// Whether `data` has the advertised shape and all values in range;
    /// a backend result failing this is rejected as an inference error.
    pub fn validate(&self) -> (r: bool)
        ensures
            r == self.wf(),
    {
        if self.num_classes < 1 || self.num_classes > 0xffff_ffff {
            return false;
        }
        if self.num_anchors == 0 {
            if self.data.len() != 0 {
                return false;
            }
        } else {
            let len = self.data.len();
            let na = self.num_anchors;
            let q = len / na;
            let rem = len % na;
            proof {
                vstd::arithmetic::div_mod::lemma_fundamental_div_mod(len as int, na as int);
            }
            if rem != 0 || q < 4 || q - 4 != self.num_classes {
                proof {
                    assert(len as int != (4 + self.num_classes) * (self.num_anchors as int))
                        by (nonlinear_arith)
                        requires
                            na == self.num_anchors,
                            na >= 1,
                            len == (na as int) * (q as int) + rem,
                            0 <= rem < na,
                            rem != 0 || q != 4 + self.num_classes,
                    ;
                }
                return false;
            }
            proof {
                assert(len as int == (4 + self.num_classes) * (self.num_anchors as int))
                    by (nonlinear_arith)
                    requires
                        na == self.num_anchors,
                        len == (na as int) * (q as int) + rem,
                        rem == 0,
                        q == 4 + self.num_classes,
                ;
            }
        }
        let mut i: usize = 0;
        while i < self.data.len()
            invariant
                i <= self.data@.len(),
                forall|j: int| 0 <= j < i ==> #[trigger] self.data@[j] <= UNIT,
            decreases self.data@.len() - i,
        {
            if self.data[i] > UNIT {
                return false;
            }
            i += 1;
        }
        true
    }
}

/// The class with the highest score among classes `[0, k)` at `anchor`,
/// ties broken in favour of the lowest class id.
pub open spec fn best_class_upto(raw: RawOutput, anchor: int, k: int) -> int
    decreases k,
{
    if k <= 1 {
        0
    } else {
        let b = best_class_upto(raw, anchor, k - 1);
        if raw.score(anchor, k - 1) > raw.score(anchor, b) {
            k - 1
        } else {
            b
        }
    }
}

/// The argmax class at `anchor`, ties broken by lowest class id.
pub open spec fn best_class(raw: RawOutput, anchor: int) -> int {
    best_class_upto(raw, anchor, raw.num_classes as int)
}

/// The argmax class is a valid class id.
pub proof fn lemma_best_class_in_range(raw: RawOutput, anchor: int, k: int)
    requires
        k >= 1,
    ensures
        0 <= best_class_upto(raw, anchor, k) < k,
    decreases k,
{
    if k > 1 {
        lemma_best_class_in_range(raw, anchor, k - 1);
    }
}

/// Truncating division by `UNIT` (rounding toward zero).
pub open spec fn trunc_div_unit(n: int) -> int {
    if n >= 0 {
        n / (UNIT as int)
    } else {
        -((-n) / (UNIT as int))
    }
}

/// The anchor's normalized center-box, rescaled to original-image pixels
/// and converted to a top-left-corner box.
pub open spec fn scaled_bbox(cx: u32, cy: u32, w: u32, h: u32, ow: u32, oh: u32) -> BBox {
    BBox {
        x: trunc_div_unit(((cx as int) - (w as int) / 2) * (ow as int)) as i64,
        y: trunc_div_unit(((cy as int) - (h as int) / 2) * (oh as int)) as i64,
        w: trunc_div_unit((w as int) * (ow as int)) as i64,
        h: trunc_div_unit((h as int) * (oh as int)) as i64,
    }
}

/// The candidate that `anchor` contributes, if any: its argmax class must
/// clear that class's confidence threshold and be enabled.
pub open spec fn anchor_cand(
    raw: RawOutput,
    cfg: ConfigStore,
    ow: u32,
    oh: u32,
    anchor: int,
) -> Option<DetModel> {
    let c = best_class(raw, anchor);
    let conf = raw.score(anchor, c);
    if conf >= cfg.threshold_spec(cfg.catalog_spec()[c]) && cfg.enabled_spec(c) {
        Some(
            DetModel {
                class_id: c,
                confidence: conf as int,
                bbox: scaled_bbox(
                    raw.at_spec(0, anchor),
                    raw.at_spec(1, anchor),
                    raw.at_spec(2, anchor),
                    raw.at_spec(3, anchor),
                    ow,
                    oh,
                ),
            },
        )
    } else {
        None
    }
}

/// The candidates of the first `n` anchors, in anchor order.
pub open spec fn candidates_upto(
    raw: RawOutput,
    cfg: ConfigStore,
    ow: u32,
    oh: u32,
    n: int,
) -> Seq<DetModel>
    decreases n,
{
    if n <= 0 {
        Seq::empty()
    } else {
        let prev = candidates_upto(raw, cfg, ow, oh, n - 1);
        match anchor_cand(raw, cfg, ow, oh, n - 1) {
            Some(d) => prev.push(d),
            None => prev,
        }
    }
}

/// All surviving candidates, in anchor order: decoded, thresholded,
/// enable-filtered and rescaled, before NMS.
pub open spec fn candidates_spec(raw: RawOutput, cfg: ConfigStore, ow: u32, oh: u32) -> Seq<
    DetModel,
> {
    candidates_upto(raw, cfg, ow, oh, raw.num_anchors as int)
}

/// Multiply a fixed-point value by a pixel dimension and drop the scale,
/// rounding toward zero.
fn mul_dim_div_unit(v: i64, m: u32) -> (r: i64)
    requires
        -2 * (UNIT as int) <= v <= 2 * (UNIT as int),
    ensures
        r == trunc_div_unit(v * (m as int)),
        -COORD_LIMIT <= r <= COORD_LIMIT,
        v >= 0 ==> r >= 0,
{
    proof {
        let bound = 2 * (UNIT as int) * (u32::MAX as int);
        assert(-(2 * (UNIT as int) * (u32::MAX as int)) <= v * (m as int) <= 2 * (UNIT as int)
            * (u32::MAX as int)) by (nonlinear_arith)
            requires
                -2 * (UNIT as int) <= v <= 2 * (UNIT as int),
                0 <= m <= u32::MAX,
        ;
        if v >= 0 {
            assert(v * (m as int) >= 0) by (nonlinear_arith)
                requires
                    v >= 0,
                    m >= 0,
            ;
            lemma_div_pos_is_pos(v * (m as int), UNIT as int);
            lemma_div_is_ordered(v * (m as int), bound, UNIT as int);
            assert(bound / (UNIT as int) <= COORD_LIMIT);
        } else {
            assert(v * (m as int) <= 0) by (nonlinear_arith)
                requires
                    v < 0,
                    m >= 0,
            ;
            lemma_div_pos_is_pos(-(v * (m as int)), UNIT as int);
            lemma_div_is_ordered(-(v * (m as int)), bound, UNIT as int);
            assert(bound / (UNIT as int) <= COORD_LIMIT);
        }
    }
    let num: i64 = v * (m as i64);
    if num >= 0 {
        ((num as u64) / (UNIT as u64)) as i64
    } else {
        -(((((-num)) as u64) / (UNIT as u64)) as i64)
    }
}

/// Decode every anchor into its surviving candidate detections, in anchor
/// order: argmax class (ties to the lowest id), threshold filter on that
/// class's name, enabled filter, and rescaling to original pixels.
pub fn decode_candidates(raw: &RawOutput, cfg: &ConfigStore, ow: u32, oh: u32) -> (r: Vec<
    Detection,
>)
    requires
        raw.wf(),
        cfg.wf(),
        raw.num_classes == cfg.num_classes(),
    ensures
        models_of(r@) == candidates_spec(*raw, *cfg, ow, oh),
        forall|i: int| 0 <= i < r@.len() ==> (#[trigger] r@[i]).wf(),
        forall|i: int|
            0 <= i < r@.len() ==> 0 <= (#[trigger] r@[i]).class_id < cfg.num_classes()
                && r@[i].class_name@ == cfg.catalog_spec()[r@[i].class_id as int],
        forall|i: int|
            0 <= i < r@.len() ==> cfg.enabled_spec((#[trigger] r@[i]).class_id as int)
                && r@[i].confidence >= cfg.threshold_spec(r@[i].class_name@),
{
    let mut out: Vec<Detection> = Vec::new();
    let na = raw.num_anchors;
    let nc = raw.num_classes;
    let dlen = raw.data.len();
    let mut a: usize = 0;
    proof {
        assert(models_of(out@) =~= candidates_upto(*raw, *cfg, ow, oh, 0));
    }
    while a < na
        invariant
            raw.wf(),
            cfg.wf(),
            raw.num_classes == cfg.num_classes(),
            na == raw.num_anchors,
            nc == raw.num_classes,
            dlen == raw.data@.len(),
            a <= na,
            models_of(out@) == candidates_upto(*raw, *cfg, ow, oh, a as int),
            forall|i: int| 0 <= i < out@.len() ==> (#[trigger] out@[i]).wf(),
            forall|i: int|
                0 <= i < out@.len() ==> 0 <= (#[trigger] out@[i]).class_id < cfg.num_classes()
                    && out@[i].class_name@ == cfg.catalog_spec()[out@[i].class_id as int],
            forall|i: int|
                0 <= i < out@.len() ==> cfg.enabled_spec((#[trigger] out@[i]).class_id as int)
                    && out@[i].confidence >= cfg.threshold_spec(out@[i].class_name@),
        decreases na - a,
    {
        proof {
            raw.lemma_rows_le_len();
        }
        let mut best: usize = 0;
        let mut c: usize = 1;
        while c < nc
            invariant
                raw.wf(),
                na == raw.num_anchors,
                nc == raw.num_classes,
                dlen == raw.data@.len(),
                4 + nc <= dlen,
                a < na,
                1 <= c <= nc,
                best == best_class_upto(*raw, a as int, c as int),
                best < c,
            decreases nc - c,
        {
            if raw.at(4 + c, a) > raw.at(4 + best, a) {
                best = c;
            }
            c += 1;
        }
        proof {
            assert(best == best_class(*raw, a as int));
        }
        let conf = raw.at(4 + best, a);
        let name = cfg.class_name(best);
        let thr = cfg.get_threshold(&name);
        let keep = conf >= thr && cfg.is_enabled(best);
        proof {
            assert(keep == (raw.score(a as int, best_class(*raw, a as int))
                >= cfg.threshold_spec(cfg.catalog_spec()[best_class(*raw, a as int)])
                && cfg.enabled_spec(best_class(*raw, a as int))));
        }
        if keep {
            let cx = raw.at(0, a);
            let cy = raw.at(1, a);
            let w = raw.at(2, a);
            let h = raw.at(3, a);
            let x = mul_dim_div_unit(cx as i64 - (w / 2) as i64, ow);
            let y = mul_dim_div_unit(cy as i64 - (h / 2) as i64, oh);
            let bw = mul_dim_div_unit(w as i64, ow);
            let bh = mul_dim_div_unit(h as i64, oh);
            let bbox = BBox { x, y, w: bw, h: bh };
            proof {
                assert(bbox == scaled_bbox(cx, cy, w, h, ow, oh));
                assert(bbox.wf());
            }
            let ghost pre = out@;
            out.push(Detection { class_id: best as u32, class_name: name, confidence: conf, bbox });
            proof {
                assert(models_of(out@) =~= models_of(pre).push(out@[pre.len() as int].model()));
                assert(anchor_cand(*raw, *cfg, ow, oh, a as int) == Some(
                    out@[pre.len() as int].model(),
                ));
            }
        } else {
            proof {
                assert(anchor_cand(*raw, *cfg, ow, oh, a as int) is None);
            }
        }
        proof {
            lemma_best_class_in_range(*raw, a as int, raw.num_classes as int);
            assert(models_of(out@) == candidates_upto(*raw, *cfg, ow, oh, a + 1));
        }
        a += 1;
    }
    out
}


/// Insert `d` into a confidence-descending sequence, after every element
/// whose confidence is at least `d`'s: the stable insertion step.
pub open spec fn insert_desc(s: Seq<DetModel>, d: DetModel) -> Seq<DetModel>
    decreases s.len(),
{
    if s.len() == 0 {
        seq![d]
    } else if s[0].confidence >= d.confidence {
        seq![s[0]] + insert_desc(s.drop_first(), d)
    } else {
        seq![d] + s
    }
}

/// Stable sort by descending confidence: elements of equal confidence
/// keep their original relative order.
pub open spec fn sort_desc_spec(s: Seq<DetModel>) -> Seq<DetModel>
    decreases s.len(),
{
    if s.len() == 0 {
        Seq::empty()
    } else {
        insert_desc(sort_desc_spec(s.drop_last()), s.last())
    }
}

/// Descending by confidence.
pub open spec fn sorted_desc(s: Seq<DetModel>) -> bool {
    forall|i: int, j: int| 0 <= i < j < s.len() ==> s[i].confidence >= s[j].confidence
}

/// Inserting into a sorted sequence keeps it sorted, adds exactly the new
/// element, and grows the length by one.
pub proof fn lemma_insert_desc(s: Seq<DetModel>, d: DetModel)
    requires
        sorted_desc(s),
    ensures
        sorted_desc(insert_desc(s, d)),
        insert_desc(s, d).len() == s.len() + 1,
        forall|x: DetModel| insert_desc(s, d).contains(x) <==> (s.contains(x) || x == d),
        insert_desc(s, d).contains(d),
    decreases s.len(),
{
    let r = insert_desc(s, d);
    if s.len() == 0 {
        assert(r =~= seq![d]);
        assert(r[0] == d);
        assert forall|x: DetModel| r.contains(x) implies (s.contains(x) || x == d) by {
            let k = choose|k: int| 0 <= k < r.len() && r[k] == x;
            assert(r[0] == d);
        }
        assert(r.contains(d));
    } else if s[0].confidence >= d.confidence {
        assert(sorted_desc(s.drop_first()));
        lemma_insert_desc(s.drop_first(), d);
        let sub = insert_desc(s.drop_first(), d);
        assert(r == seq![s[0]] + sub);
        assert forall|i: int, j: int| 0 <= i < j < r.len() implies r[i].confidence
            >= r[j].confidence by {
            if i == 0 {
                if j >= 1 {
                    assert(r[j] == sub[j - 1]);
                    assert(sub.contains(sub[j - 1]));
                    if sub[j - 1] == d {
                        assert(r[0].confidence >= r[j].confidence);
                    } else {
                        assert(s.drop_first().contains(sub[j - 1]));
                        let k = choose|k: int|
                            0 <= k < s.drop_first().len() && s.drop_first()[k] == sub[j - 1];
                        assert(s[k + 1] == sub[j - 1]);
                    }
                }
            } else {
                assert(r[i] == sub[i - 1] && r[j] == sub[j - 1]);
            }
        }
        assert forall|x: DetModel| r.contains(x) implies (s.contains(x) || x == d) by {
            let k = choose|k: int| 0 <= k < r.len() && r[k] == x;
            if k == 0 {
                assert(s[0] == x);
            } else {
                assert(sub[k - 1] == x);
                assert(sub.contains(x));
                if s.drop_first().contains(x) {
                    let m = choose|m: int|
                        0 <= m < s.drop_first().len() && s.drop_first()[m] == x;
                    assert(s[m + 1] == x);
                }
            }
        }
        assert forall|x: DetModel| (s.contains(x) || x == d) implies r.contains(x) by {
            if x == d {
                let m = choose|m: int| 0 <= m < sub.len() && sub[m] == d;
                assert(r.len() == 1 + sub.len());
                assert(r[m + 1] == sub[m]);
                assert(r[m + 1] == d);
            } else {
                let k = choose|k: int| 0 <= k < s.len() && s[k] == x;
                if k == 0 {
                    assert(r[0] == x);
                } else {
                    assert(s.drop_first()[k - 1] == x);
                    assert(s.drop_first().contains(x));
                    assert(sub.contains(x));
                    let m = choose|m: int| 0 <= m < sub.len() && sub[m] == x;
                    assert(r.len() == 1 + sub.len());
                    assert(r[m + 1] == sub[m]);
                    assert(r[m + 1] == x);
                }
            }
        }
    } else {
        assert(r == seq![d] + s);
        assert forall|i: int, j: int| 0 <= i < j < r.len() implies r[i].confidence
            >= r[j].confidence by {
            if i == 0 {
                assert(r[j] == s[j - 1]);
                if j - 1 > 0 {
                    assert(s[0].confidence >= s[j - 1].confidence);
                }
            } else {
                assert(r[i] == s[i - 1] && r[j] == s[j - 1]);
            }
        }
        assert forall|x: DetModel| r.contains(x) implies (s.contains(x) || x == d) by {
            let k = choose|k: int| 0 <= k < r.len() && r[k] == x;
            if k > 0 {
                assert(s[k - 1] == x);
            }
        }
        assert forall|x: DetModel| (s.contains(x) || x == d) implies r.contains(x) by {
            if x == d {
                assert(r[0] == d);
            } else {
                let k = choose|k: int| 0 <= k < s.len() && s[k] == x;
                assert(r[k + 1] == x);
            }
        }
    }
}

/// The sorted sequence is a reordering: same length, same elements, in
/// descending confidence order.
pub proof fn lemma_sort_desc_spec(s: Seq<DetModel>)
    ensures
        sorted_desc(sort_desc_spec(s)),
        sort_desc_spec(s).len() == s.len(),
        forall|x: DetModel| sort_desc_spec(s).contains(x) <==> s.contains(x),
    decreases s.len(),
{
    if s.len() > 0 {
        lemma_sort_desc_spec(s.drop_last());
        lemma_insert_desc(sort_desc_spec(s.drop_last()), s.last());
        assert forall|x: DetModel| sort_desc_spec(s).contains(x) implies s.contains(x) by {
            if s.drop_last().contains(x) {
                let k = choose|k: int| 0 <= k < s.drop_last().len() && s.drop_last()[k] == x;
                assert(s[k] == x);
            } else {
                assert(x == s.last());
                assert(s[s.len() - 1] == x);
            }
        }
        assert forall|x: DetModel| s.contains(x) implies sort_desc_spec(s).contains(x) by {
            assert(sort_desc_spec(s) == insert_desc(sort_desc_spec(s.drop_last()), s.last()));
            let k = choose|k: int| 0 <= k < s.len() && s[k] == x;
            if k < s.len() - 1 {
                assert(s.drop_last()[k] == x);
                assert(s.drop_last().contains(x));
                assert(sort_desc_spec(s.drop_last()).contains(x));
            } else {
                assert(x == s.last());
                assert(insert_desc(sort_desc_spec(s.drop_last()), s.last()).contains(s.last()));
            }
        }
    }
}

/// Inserting at the first position whose confidence is below `d`'s is
/// exactly the stable insertion step.
proof fn lemma_insert_desc_at(s: Seq<DetModel>, d: DetModel, p: int)
    requires
        0 <= p <= s.len(),
        forall|j: int| 0 <= j < p ==> (#[trigger] s[j]).confidence >= d.confidence,
        p < s.len() ==> s[p].confidence < d.confidence,
    ensures
        insert_desc(s, d) == s.subrange(0, p) + seq![d] + s.skip(p),
    decreases p,
{
    if p == 0 {
        if s.len() == 0 {
            assert(insert_desc(s, d) =~= s.subrange(0, 0) + seq![d] + s.skip(0));
        } else {
            assert(s[0].confidence < d.confidence);
            assert(insert_desc(s, d) == seq![d] + s);
            assert(insert_desc(s, d) =~= s.subrange(0, 0) + seq![d] + s.skip(0));
        }
    } else {
        assert(s[0].confidence >= d.confidence);
        assert(forall|j: int|
            0 <= j < p - 1 ==> (#[trigger] s.drop_first()[j]).confidence >= d.confidence);
        lemma_insert_desc_at(s.drop_first(), d, p - 1);
        assert(insert_desc(s, d) == seq![s[0]] + (s.drop_first().subrange(0, p - 1) + seq![d]
            + s.drop_first().skip(p - 1)));
        assert(insert_desc(s, d) =~= s.subrange(0, p) + seq![d] + s.skip(p));
    }
}

/// Sort detections by descending confidence with a stable insertion sort,
/// verified to compute exactly `sort_desc_spec` on the models.
pub fn sort_by_confidence(dets: &Vec<Detection>) -> (r: Vec<Detection>)
    ensures
        models_of(r@) == sort_desc_spec(models_of(dets@)),
        r@.len() == dets@.len(),
        forall|i: int| 0 <= i < r@.len() ==> dets@.contains(#[trigger] r@[i]),
{
    let ghost ms = models_of(dets@);
    let mut out: Vec<Detection> = Vec::new();
    let mut k: usize = 0;
    proof {
        assert(models_of(out@) =~= sort_desc_spec(ms.take(0)));
    }
    while k < dets.len()
        invariant
            k <= dets@.len(),
            ms == models_of(dets@),
            out@.len() == k,
            models_of(out@) == sort_desc_spec(ms.take(k as int)),
            forall|i: int| 0 <= i < out@.len() ==> dets@.contains(#[trigger] out@[i]),
        decreases dets@.len() - k,
    {
        let d = dets[k].clone();
        let mut p: usize = 0;
        while p < out.len() && out[p].confidence >= d.confidence
            invariant
                p <= out@.len(),
                d == dets@[k as int],
                forall|j: int|
                    0 <= j < p ==> (#[trigger] out@[j]).confidence >= d.confidence,
            decreases out@.len() - p,
        {
            p += 1;
        }
        let ghost pre = out@;
        out.insert(p, d);
        proof {
            lemma_insert_desc_at(models_of(pre), dets@[k as int].model(), p as int);
            assert(forall|j: int|
                0 <= j < p ==> (#[trigger] models_of(pre)[j]).confidence
                    == pre[j].confidence as int);
            assert(models_of(out@) =~= models_of(pre).subrange(0, p as int) + seq![
                dets@[k as int].model(),
            ] + models_of(pre).skip(p as int));
            assert(ms.take(k + 1).drop_last() =~= ms.take(k as int));
            assert(ms.take(k + 1).last() == dets@[k as int].model());
            assert(models_of(out@) == sort_desc_spec(ms.take(k + 1)));
            assert forall|i: int| 0 <= i < out@.len() implies dets@.contains(
                #[trigger] out@[i],
            ) by {
                if i < p {
                    assert(out@[i] == pre[i]);
                } else if i == p {
                    assert(out@[i] == dets@[k as int]);
                } else {
                    assert(out@[i] == pre[i - 1]);
                }
            }
        }
        k += 1;
    }
    proof {
        assert(ms.take(dets@.len() as int) =~= ms);
    }
    out
}


/// Whether every index in `ks` overlaps `s[i]` at or below the NMS
/// threshold.
pub open spec fn compat_all(s: Seq<DetModel>, ks: Set<int>, i: int) -> bool {
    forall|k: int| #[trigger] ks.contains(k) ==> iou_spec(s[k].bbox, s[i].bbox)
        <= NMS_IOU_THRESHOLD
}

/// The set of indices among `[0, n)` that survive greedy NMS on `s`:
/// index `n - 1` survives exactly when it is compatible with every
/// earlier survivor.
pub open spec fn kept_upto(s: Seq<DetModel>, n: int) -> Set<int>
    decreases n,
{
    if n <= 0 {
        Set::empty()
    } else {
        let prev = kept_upto(s, n - 1);
        if compat_all(s, prev, n - 1) {
            prev.insert(n - 1)
        } else {
            prev
        }
    }
}

/// Whether index `i` survives greedy NMS on `s`: no earlier surviving
/// index overlaps it above the threshold.
pub open spec fn kept(s: Seq<DetModel>, i: int) -> bool {
    kept_upto(s, i + 1).contains(i)
}

/// Survivor indices among `[0, n)` are in `[0, n)`.
proof fn lemma_kept_upto_subset(s: Seq<DetModel>, n: int)
    ensures
        forall|k: int| #[trigger] kept_upto(s, n).contains(k) ==> 0 <= k < n,
    decreases n,
{
    if n > 0 {
        lemma_kept_upto_subset(s, n - 1);
        assert forall|k: int| #[trigger] kept_upto(s, n).contains(k) implies 0 <= k < n by {
            if kept_upto(s, n - 1).contains(k) {
                assert(0 <= k < n - 1);
            } else {
                assert(k == n - 1);
            }
        }
    }
}

/// Whether an index below `n` survives does not depend on how far the
/// survivor set was computed past it.
proof fn lemma_kept_upto_mono(s: Seq<DetModel>, n: int, m: int)
    requires
        0 <= n <= m,
    ensures
        forall|i: int|
            0 <= i < n ==> kept_upto(s, m).contains(i) == #[trigger] kept_upto(s, n).contains(i),
    decreases m,
{
    if m > n {
        lemma_kept_upto_mono(s, n, m - 1);
        lemma_kept_upto_subset(s, m - 1);
    }
}

/// An index survives exactly when every earlier survivor overlaps it at
/// or below the threshold: the defining property of greedy NMS.
pub proof fn lemma_kept_characterization(s: Seq<DetModel>, i: int)
    requires
        0 <= i,
    ensures
        kept(s, i) == (forall|j: int|
            0 <= j < i && #[trigger] kept(s, j) ==> iou_spec(s[j].bbox, s[i].bbox)
                <= NMS_IOU_THRESHOLD),
{
    let prev = kept_upto(s, i);
    lemma_kept_upto_subset(s, i + 1);
    lemma_kept_upto_subset(s, i);
    assert forall|j: int| 0 <= j < i implies kept_upto(s, i).contains(j) == kept(s, j) by {
        lemma_kept_upto_mono(s, j + 1, i);
    }
    if compat_all(s, prev, i) {
        assert(kept_upto(s, i + 1) == prev.insert(i));
        assert(kept(s, i));
        assert forall|j: int|
            0 <= j < i && #[trigger] kept(s, j) implies iou_spec(s[j].bbox, s[i].bbox)
                <= NMS_IOU_THRESHOLD by {
            assert(prev.contains(j));
        }
    } else {
        assert(kept_upto(s, i + 1) == prev);
        assert(!prev.contains(i));
        assert(!kept(s, i));
        let k = choose|k: int|
            #[trigger] prev.contains(k) && iou_spec(s[k].bbox, s[i].bbox) > NMS_IOU_THRESHOLD;
        assert(kept(s, k));
        assert(!(forall|j: int|
            0 <= j < i && #[trigger] kept(s, j) ==> iou_spec(s[j].bbox, s[i].bbox)
                <= NMS_IOU_THRESHOLD));
    }
}

/// The surviving elements among the first `n`, in order.
pub open spec fn nms_upto(s: Seq<DetModel>, n: int) -> Seq<DetModel>
    decreases n,
{
    if n <= 0 {
        Seq::empty()
    } else if kept(s, n - 1) {
        nms_upto(s, n - 1).push(s[n - 1])
    } else {
        nms_upto(s, n - 1)
    }
}

/// Greedy cross-class non-maximum suppression over a sorted sequence:
/// the elements whose index survives `kept`.
pub open spec fn nms_spec(s: Seq<DetModel>) -> Seq<DetModel> {
    nms_upto(s, s.len() as int)
}

/// Some earlier index below `limit` survives and overlaps `j` above the
/// threshold: the reason `j` is suppressed.
pub open spec fn blocked(s: Seq<DetModel>, j: int, limit: int) -> bool {
    exists|k: int|
        0 <= k < limit && k < j && #[trigger] kept(s, k) && iou_spec(s[k].bbox, s[j].bbox)
            > NMS_IOU_THRESHOLD
}

/// Once every earlier index has been examined, being blocked is exactly
/// not being kept.
proof fn lemma_blocked_is_not_kept(s: Seq<DetModel>, i: int)
    requires
        0 <= i,
    ensures
        blocked(s, i, i) == !kept(s, i),
{
    lemma_kept_characterization(s, i);
    if blocked(s, i, i) {
        let k = choose|k: int|
            0 <= k < i && k < i && #[trigger] kept(s, k) && iou_spec(s[k].bbox, s[i].bbox)
                > NMS_IOU_THRESHOLD;
        assert(!kept(s, i));
    } else {
        assert forall|j: int| 0 <= j < i && #[trigger] kept(s, j) implies iou_spec(
            s[j].bbox,
            s[i].bbox,
        ) <= NMS_IOU_THRESHOLD by {
            if iou_spec(s[j].bbox, s[i].bbox) > NMS_IOU_THRESHOLD {
                assert(blocked(s, i, i));
            }
        }
        assert(kept(s, i));
    }
}

/// Every element of the NMS result is an element of its input.
pub proof fn lemma_nms_membership(s: Seq<DetModel>, n: int)
    requires
        0 <= n <= s.len(),
    ensures
        forall|x: DetModel| nms_upto(s, n).contains(x) ==> s.contains(x),
    decreases n,
{
    if n > 0 {
        lemma_nms_membership(s, n - 1);
        assert forall|x: DetModel| nms_upto(s, n).contains(x) implies s.contains(x) by {
            let r = nms_upto(s, n);
            let k = choose|k: int| 0 <= k < r.len() && r[k] == x;
            if kept(s, n - 1) {
                if k < r.len() - 1 {
                    assert(nms_upto(s, n - 1)[k] == x);
                    assert(nms_upto(s, n - 1).contains(x));
                } else {
                    assert(x == s[n - 1]);
                }
            } else {
                assert(nms_upto(s, n - 1).contains(x));
            }
        }
    }
}

/// Greedy non-maximum suppression: sort by descending confidence, then
/// keep each box in turn and suppress every later box overlapping it
/// above the IoU threshold.  Verified to compute exactly
/// `nms_spec(sort_desc_spec(..))` on the models.
pub fn apply_nms(dets: Vec<Detection>) -> (r: Vec<Detection>)
    requires
        forall|i: int| 0 <= i < dets@.len() ==> (#[trigger] dets@[i]).wf(),
    ensures
        models_of(r@) == nms_spec(sort_desc_spec(models_of(dets@))),
        forall|i: int| 0 <= i < r@.len() ==> dets@.contains(#[trigger] r@[i]),
{
    let sorted = sort_by_confidence(&dets);
    let ghost sm = models_of(sorted@);
    let n = sorted.len();
    let mut suppressed: Vec<bool> = Vec::new();
    let mut t: usize = 0;
    while t < n
        invariant
            t <= n,
            suppressed@.len() == t,
            forall|m: int| 0 <= m < t ==> !(#[trigger] suppressed@[m]),
        decreases n - t,
    {
        suppressed.push(false);
        t += 1;
    }
    let mut out: Vec<Detection> = Vec::new();
    let mut i: usize = 0;
    proof {
        assert(models_of(out@) =~= nms_upto(sm, 0));
    }
    while i < n
        invariant
            n == sorted@.len(),
            sm == models_of(sorted@),
            i <= n,
            suppressed@.len() == n,
            forall|i0: int| 0 <= i0 < sorted@.len() ==> (#[trigger] sorted@[i0]).wf(),
            forall|i0: int| 0 <= i0 < sorted@.len() ==> dets@.contains(#[trigger] sorted@[i0]),
            forall|m: int| 0 <= m < n ==> #[trigger] suppressed@[m] == blocked(sm, m, i as int),
            models_of(out@) == nms_upto(sm, i as int),
            forall|m: int| 0 <= m < out@.len() ==> dets@.contains(#[trigger] out@[m]),
        decreases n - i,
    {
        let keep_i = !suppressed[i];
        proof {
            lemma_blocked_is_not_kept(sm, i as int);
        }
        if keep_i {
            let ghost pre = out@;
            out.push(sorted[i].clone());
            proof {
                assert(models_of(out@) =~= models_of(pre).push(sm[i as int]));
                assert(models_of(out@) == nms_upto(sm, i + 1));
            }
            let mut j: usize = i + 1;
            while j < n
                invariant
                    n == sorted@.len(),
                    sm == models_of(sorted@),
                    i < n,
                    i < j <= n,
                    kept(sm, i as int),
                    suppressed@.len() == n,
                    forall|i0: int| 0 <= i0 < sorted@.len() ==> (#[trigger] sorted@[i0]).wf(),
                    forall|m: int|
                        0 <= m <= i ==> #[trigger] suppressed@[m] == blocked(sm, m, i as int),
                    forall|m: int|
                        i < m < j ==> #[trigger] suppressed@[m] == blocked(sm, m, i + 1),
                    forall|m: int|
                        j <= m < n ==> #[trigger] suppressed@[m] == blocked(sm, m, i as int),
                decreases n - j,
            {
                if !suppressed[j] {
                    let overlap = iou(&sorted[i].bbox, &sorted[j].bbox);
                    if overlap > NMS_IOU_THRESHOLD {
                        suppressed[j] = true;
                        proof {
                            assert(blocked(sm, j as int, i + 1));
                        }
                    } else {
                        proof {
                            assert forall|k: int|
                                0 <= k < i + 1 && k < j && #[trigger] kept(sm, k) && iou_spec(
                                    sm[k].bbox,
                                    sm[j as int].bbox,
                                ) > NMS_IOU_THRESHOLD implies false by {
                                assert(blocked(sm, j as int, i as int));
                            }
                            assert(!blocked(sm, j as int, i + 1));
                        }
                    }
                } else {
                    proof {
                        let k = choose|k: int|
                            0 <= k < i && k < j && #[trigger] kept(sm, k) && iou_spec(
                                sm[k].bbox,
                                sm[j as int].bbox,
                            ) > NMS_IOU_THRESHOLD;
                        assert(blocked(sm, j as int, i + 1));
                    }
                }
                j += 1;
            }
            proof {
                assert forall|m: int| 0 <= m < n implies #[trigger] suppressed@[m] == blocked(
                    sm,
                    m,
                    i + 1,
                ) by {
                    if m <= i {
                        if blocked(sm, m, i + 1) && !blocked(sm, m, i as int) {
                            let k = choose|k: int|
                                0 <= k < i + 1 && k < m && #[trigger] kept(sm, k) && iou_spec(
                                    sm[k].bbox,
                                    sm[m].bbox,
                                ) > NMS_IOU_THRESHOLD;
                            assert(k == i);
                            assert(false);
                        }
                    }
                }
            }
        } else {
            proof {
                assert(!kept(sm, i as int));
                assert(models_of(out@) == nms_upto(sm, i + 1));
                assert forall|m: int| 0 <= m < n implies #[trigger] suppressed@[m] == blocked(
                    sm,
                    m,
                    i + 1,
                ) by {
                    if blocked(sm, m, i + 1) && !blocked(sm, m, i as int) {
                        let k = choose|k: int|
                            0 <= k < i + 1 && k < m && #[trigger] kept(sm, k) && iou_spec(
                                sm[k].bbox,
                                sm[m].bbox,
                            ) > NMS_IOU_THRESHOLD;
                        assert(k == i);
                        assert(false);
                    }
                }
            }
        }
        i += 1;
    }
    proof {
        assert(models_of(out@) == nms_spec(sm));
        assert(sm.len() == models_of(dets@).len());
        assert(nms_spec(sort_desc_spec(models_of(dets@))) == nms_spec(sm));
    }
    out
}



/// The whole post-processing pipeline as a function of the raw output and
/// the configuration snapshot.
pub open spec fn postprocess_spec(raw: RawOutput, cfg: ConfigStore, ow: u32, oh: u32) -> Seq<
    DetModel,
> {
    nms_spec(sort_desc_spec(candidates_spec(raw, cfg, ow, oh)))
}

/// Decode, filter, rescale and deduplicate the raw output into the final
/// detections, in descending-confidence order.  Every returned detection
/// carries a class of the catalog that is enabled, its catalog display
/// name, and a confidence at or above that class's threshold.
pub fn postprocess(raw: &RawOutput, cfg: &ConfigStore, ow: u32, oh: u32) -> (r: Vec<Detection>)
    requires
        raw.wf(),
        cfg.wf(),
        raw.num_classes == cfg.num_classes(),
    ensures
        models_of(r@) == postprocess_spec(*raw, *cfg, ow, oh),
        forall|i: int| 0 <= i < r@.len() ==> (#[trigger] r@[i]).wf(),
        forall|i: int|
            0 <= i < r@.len() ==> 0 <= (#[trigger] r@[i]).class_id < cfg.num_classes()
                && r@[i].class_name@ == cfg.catalog_spec()[r@[i].class_id as int],
        forall|i: int|
            0 <= i < r@.len() ==> cfg.enabled_spec((#[trigger] r@[i]).class_id as int)
                && r@[i].confidence >= cfg.threshold_spec(r@[i].class_name@),
{
    let cands = decode_candidates(raw, cfg, ow, oh);
    let ghost cs = cands@;
    let r = apply_nms(cands);
    proof {
        assert forall|i: int| 0 <= i < r@.len() implies (#[trigger] r@[i]).wf() && 0
            <= r@[i].class_id < cfg.num_classes() && r@[i].class_name@
            == cfg.catalog_spec()[r@[i].class_id as int] && cfg.enabled_spec(
            r@[i].class_id as int,
        ) && r@[i].confidence >= cfg.threshold_spec(r@[i].class_name@) by {
            assert(cs.contains(r@[i]));
            let k = choose|k: int| 0 <= k < cs.len() && cs[k] == r@[i];
        }
    }
    r
}

/// Whether `x` is a kept element among the first `n` of `t`.
pub open spec fn survivor_of(t: Seq<DetModel>, n: int, x: DetModel) -> bool {
    exists|k: int| 0 <= k < n && #[trigger] kept(t, k) && x == t[k]
}

/// The survivors of greedy NMS overlap each other only at or below the
/// threshold, each survivor is a kept element of the input, and on a
/// sorted input the survivors stay sorted.
#[verifier::rlimit(50)]
proof fn lemma_nms_structure(t: Seq<DetModel>, n: int)
    requires
        0 <= n <= t.len(),
        sorted_desc(t),
    ensures
        forall|p: int|
            0 <= p < nms_upto(t, n).len() ==> survivor_of(t, n, #[trigger] nms_upto(t, n)[p]),
        sorted_desc(nms_upto(t, n)),
        forall|p: int, q: int|
            #![trigger nms_upto(t, n)[p], nms_upto(t, n)[q]]
            0 <= p < q < nms_upto(t, n).len() ==> iou_spec(
                nms_upto(t, n)[p].bbox,
                nms_upto(t, n)[q].bbox,
            ) <= NMS_IOU_THRESHOLD,
    decreases n,
{
    if n > 0 {
        lemma_nms_structure(t, n - 1);
        let prev = nms_upto(t, n - 1);
        let cur = nms_upto(t, n);
        if kept(t, n - 1) {
            assert(cur == prev.push(t[n - 1]));
            assert forall|p: int| 0 <= p < cur.len() implies survivor_of(
                t,
                n,
                #[trigger] cur[p],
            ) by {
                if p < cur.len() - 1 {
                    assert(cur[p] == prev[p]);
                    assert(survivor_of(t, n - 1, prev[p]));
                    let k = choose|k: int|
                        0 <= k < n - 1 && #[trigger] kept(t, k) && prev[p] == t[k];
                    assert(0 <= k < n && kept(t, k) && cur[p] == t[k]);
                } else {
                    assert(cur[p] == t[n - 1] && kept(t, n - 1));
                }
            }
            assert forall|p: int, q: int|
                #![trigger cur[p], cur[q]]
                0 <= p < q < cur.len() implies iou_spec(cur[p].bbox, cur[q].bbox)
                <= NMS_IOU_THRESHOLD by {
                if q < cur.len() - 1 {
                    assert(cur[p] == prev[p] && cur[q] == prev[q]);
                } else {
                    assert(cur[p] == prev[p]);
                    assert(survivor_of(t, n - 1, prev[p]));
                    let k = choose|k: int|
                        0 <= k < n - 1 && #[trigger] kept(t, k) && prev[p] == t[k];
                    lemma_kept_characterization(t, n - 1);
                    assert(iou_spec(t[k].bbox, t[n - 1].bbox) <= NMS_IOU_THRESHOLD);
                }
            }
            assert forall|p: int, q: int|
                #![trigger cur[p], cur[q]]
                0 <= p < q < cur.len() implies cur[p].confidence >= cur[q].confidence by {
                if q < cur.len() - 1 {
                    assert(cur[p] == prev[p] && cur[q] == prev[q]);
                } else {
                    assert(cur[p] == prev[p]);
                    assert(survivor_of(t, n - 1, prev[p]));
                    let k = choose|k: int|
                        0 <= k < n - 1 && #[trigger] kept(t, k) && prev[p] == t[k];
                    assert(t[k].confidence >= t[n - 1].confidence);
                }
            }
        } else {
            assert(cur == prev);
            assert forall|p: int| 0 <= p < cur.len() implies survivor_of(
                t,
                n,
                #[trigger] cur[p],
            ) by {
                assert(cur[p] == prev[p]);
                assert(survivor_of(t, n - 1, prev[p]));
                let k = choose|k: int|
                    0 <= k < n - 1 && #[trigger] kept(t, k) && prev[p] == t[k];
                assert(0 <= k < n && kept(t, k) && cur[p] == t[k]);
            }
        }
    }
}

/// A kept element appears in the NMS result.
proof fn lemma_kept_in_nms(t: Seq<DetModel>, q: int, n: int)
    requires
        0 <= q < n <= t.len(),
        kept(t, q),
    ensures
        nms_upto(t, n).contains(t[q]),
    decreases n,
{
    if q == n - 1 {
        let cur = nms_upto(t, n);
        assert(cur == nms_upto(t, n - 1).push(t[n - 1]));
        assert(cur[cur.len() - 1] == t[q]);
    } else {
        lemma_kept_in_nms(t, q, n - 1);
        let prev = nms_upto(t, n - 1);
        let k = choose|k: int| 0 <= k < prev.len() && prev[k] == t[q];
        if kept(t, n - 1) {
            assert(nms_upto(t, n)[k] == t[q]);
        }
    }
}

/// Sorting an already sorted sequence leaves it unchanged.
proof fn lemma_sort_of_sorted(s: Seq<DetModel>)
    requires
        sorted_desc(s),
    ensures
        sort_desc_spec(s) == s,
    decreases s.len(),
{
    if s.len() > 0 {
        assert(sorted_desc(s.drop_last()));
        lemma_sort_of_sorted(s.drop_last());
        assert(forall|j: int|
            0 <= j < s.drop_last().len() ==> (#[trigger] s.drop_last()[j]).confidence
                >= s.last().confidence);
        lemma_insert_desc_at(s.drop_last(), s.last(), s.len() - 1);
        assert(sort_desc_spec(s) =~= s);
    }
}

/// When every index of `s` is kept, NMS returns the input unchanged.
proof fn lemma_nms_all_kept(s: Seq<DetModel>, n: int)
    requires
        0 <= n <= s.len(),
        forall|i: int| 0 <= i < s.len() ==> #[trigger] kept(s, i),
    ensures
        nms_upto(s, n) == s.take(n),
    decreases n,
{
    if n > 0 {
        lemma_nms_all_kept(s, n - 1);
        assert(nms_upto(s, n) =~= s.take(n));
    }
}

/// Non-maximum suppression is idempotent: running the sort-then-suppress
/// pipeline on its own output returns that output unchanged (a fixed
/// point).
pub proof fn lemma_nms_idempotent(s: Seq<DetModel>)
    ensures
        nms_spec(sort_desc_spec(nms_spec(sort_desc_spec(s)))) == nms_spec(sort_desc_spec(s)),
{
    lemma_sort_desc_spec(s);
    let t = sort_desc_spec(s);
    let o = nms_spec(t);
    lemma_nms_structure(t, t.len() as int);
    assert(sorted_desc(o));
    lemma_sort_of_sorted(o);
    assert forall|i: int| 0 <= i < o.len() implies #[trigger] kept(o, i) by {
        lemma_kept_characterization(o, i);
        assert forall|j: int|
            0 <= j < i && #[trigger] kept(o, j) implies iou_spec(o[j].bbox, o[i].bbox)
                <= NMS_IOU_THRESHOLD by {
            assert(iou_spec(o[j].bbox, o[i].bbox) <= NMS_IOU_THRESHOLD);
        }
    }
    lemma_nms_all_kept(o, o.len() as int);
    assert(o.take(o.len() as int) =~= o);
    assert(nms_spec(sort_desc_spec(o)) == o);
}


/// Every element of a filtered sequence is an element of the source.
proof fn lemma_filter_membership(s: Seq<DetModel>, pred: spec_fn(DetModel) -> bool)
    ensures
        forall|x: DetModel| s.filter(pred).contains(x) ==> s.contains(x),
    decreases s.len(),
{
    reveal(Seq::filter);
    if s.len() > 0 {
        lemma_filter_membership(s.drop_last(), pred);
        assert forall|x: DetModel| s.filter(pred).contains(x) implies s.contains(x) by {
            let f = s.filter(pred);
            let f0 = s.drop_last().filter(pred);
            let k = choose|k: int| 0 <= k < f.len() && f[k] == x;
            if pred(s.last()) {
                assert(f == f0.push(s.last()));
                if k == f.len() - 1 {
                    assert(x == s.last());
                    assert(s[s.len() - 1] == x);
                } else {
                    assert(f[k] == f0[k]);
                    assert(f0.contains(x));
                    assert(s.drop_last().contains(x));
                    let m = choose|m: int|
                        0 <= m < s.drop_last().len() && s.drop_last()[m] == x;
                    assert(s[m] == x);
                }
            } else {
                assert(f == f0);
                assert(f0.contains(x));
                assert(s.drop_last().contains(x));
                let m = choose|m: int|
                    0 <= m < s.drop_last().len() && s.drop_last()[m] == x;
                assert(s[m] == x);
            }
        }
    }
}

/// Filtering keeps everything when every element passes.
proof fn lemma_filter_all_pass(s: Seq<DetModel>, pred: spec_fn(DetModel) -> bool)
    requires
        forall|i: int| 0 <= i < s.len() ==> pred(#[trigger] s[i]),
    ensures
        s.filter(pred) == s,
    decreases s.len(),
{
    reveal(Seq::filter);
    if s.len() > 0 {
        assert(pred(s[s.len() - 1]));
        lemma_filter_all_pass(s.drop_last(), pred);
        assert(s.filter(pred) =~= s);
    }
}

/// Stable insertion commutes with filtering a sorted sequence: inserting
/// then filtering equals filtering then inserting (or just filtering,
/// when the new element is itself dropped).
#[verifier::rlimit(100)]
proof fn lemma_insert_filter_commute(
    u: Seq<DetModel>,
    d: DetModel,
    pred: spec_fn(DetModel) -> bool,
)
    requires
        sorted_desc(u),
    ensures
        pred(d) ==> insert_desc(u, d).filter(pred) == insert_desc(u.filter(pred), d),
        !pred(d) ==> insert_desc(u, d).filter(pred) == u.filter(pred),
{
    let p = first_below(u, d.confidence);
    lemma_first_below(u, d.confidence);
    lemma_insert_desc_at(u, d, p);
    let front = u.subrange(0, p);
    let back = u.subrange(p, u.len() as int);
    assert(u.skip(p) =~= back);
    assert(u =~= front + back);
    assert(insert_desc(u, d) == front + seq![d] + back);
    proof_filter_add(front + seq![d], back, pred);
    proof_filter_add(front, seq![d], pred);
    proof_filter_add(front, back, pred);
    assert((front + seq![d] + back).filter(pred) == (front + seq![d]).filter(pred)
        + back.filter(pred));
    assert((front + seq![d]).filter(pred) == front.filter(pred) + seq![d].filter(pred));
    assert(u.filter(pred) == front.filter(pred) + back.filter(pred));
    reveal(Seq::filter);
    assert(seq![d].drop_last() =~= Seq::<DetModel>::empty());
    let ff = front.filter(pred);
    let fb = back.filter(pred);
    if pred(d) {
        assert(seq![d].filter(pred) =~= seq![d]);
        lemma_filter_membership(front, pred);
        lemma_filter_membership(back, pred);
        let combined = ff + fb;
        assert(combined == u.filter(pred));
        assert forall|j: int| 0 <= j < ff.len() implies (#[trigger] combined[j]).confidence
            >= d.confidence by {
            assert(combined[j] == ff[j]);
            assert(ff.contains(ff[j]));
            assert(front.contains(ff[j]));
            let m = choose|m: int| 0 <= m < front.len() && front[m] == ff[j];
            assert(front[m] == u[m]);
            assert(u[m].confidence >= d.confidence);
        }
        if ff.len() < combined.len() {
            assert(fb.len() > 0);
            assert(combined[ff.len() as int] == fb[0]);
            assert(fb.contains(fb[0]));
            assert(back.contains(fb[0]));
            let m = choose|m: int| 0 <= m < back.len() && back[m] == fb[0];
            assert(back[m] == u[p + m]);
            if m > 0 {
                assert(u[p].confidence >= u[p + m].confidence);
            }
            assert(u[p].confidence < d.confidence);
            assert(combined[ff.len() as int].confidence < d.confidence);
        }
        lemma_insert_desc_at(combined, d, ff.len() as int);
        assert(combined.subrange(0, ff.len() as int) =~= ff);
        assert(combined.skip(ff.len() as int) =~= fb);
        assert(insert_desc(u.filter(pred), d) == ff + seq![d] + fb);
        assert(insert_desc(u, d).filter(pred) == ff + seq![d] + fb);
    } else {
        assert(Seq::<DetModel>::empty().filter(pred) =~= Seq::<DetModel>::empty());
        assert(seq![d].filter(pred) =~= Seq::<DetModel>::empty());
        assert(ff + seq![d].filter(pred) =~= ff);
        assert((front + seq![d]).filter(pred) == ff);
        assert(insert_desc(u, d).filter(pred) == ff + fb);
        assert(u.filter(pred) == ff + fb);
    }
}

/// The first index whose confidence is below `c`, or the length.
spec fn first_below(u: Seq<DetModel>, c: int) -> int
    decreases u.len(),
{
    if u.len() == 0 {
        0
    } else if u[0].confidence < c {
        0
    } else {
        1 + first_below(u.drop_first(), c)
    }
}

/// `first_below` marks the boundary: everything before it is at or above
/// `c`, and the element there (if any) is below.
proof fn lemma_first_below(u: Seq<DetModel>, c: int)
    ensures
        0 <= first_below(u, c) <= u.len(),
        forall|j: int| 0 <= j < first_below(u, c) ==> (#[trigger] u[j]).confidence >= c,
        first_below(u, c) < u.len() ==> u[first_below(u, c)].confidence < c,
    decreases u.len(),
{
    if u.len() > 0 && u[0].confidence >= c {
        lemma_first_below(u.drop_first(), c);
        assert(forall|j: int|
            0 <= j < first_below(u.drop_first(), c) ==> (#[trigger] u.drop_first()[j]).confidence
                >= c);
        assert forall|j: int| 0 <= j < first_below(u, c) implies (#[trigger] u[j]).confidence
            >= c by {
            if j > 0 {
                assert(u.drop_first()[j - 1] == u[j]);
            }
        }
    }
}

/// Filtering commutes with the stable sort.
proof fn lemma_sort_filter_commute(s: Seq<DetModel>, pred: spec_fn(DetModel) -> bool)
    ensures
        sort_desc_spec(s.filter(pred)) == sort_desc_spec(s).filter(pred),
    decreases s.len(),
{
    reveal(Seq::filter);
    if s.len() > 0 {
        let s0 = s.drop_last();
        let l = s.last();
        lemma_sort_filter_commute(s0, pred);
        lemma_sort_desc_spec(s0);
        lemma_insert_filter_commute(sort_desc_spec(s0), l, pred);
        if pred(l) {
            assert(s.filter(pred) == s0.filter(pred).push(l));
            assert(s0.filter(pred).push(l).drop_last() =~= s0.filter(pred));
            assert(s0.filter(pred).push(l).last() == l);
            assert(sort_desc_spec(s.filter(pred)) == insert_desc(
                sort_desc_spec(s0.filter(pred)),
                l,
            ));
            assert(sort_desc_spec(s).filter(pred) == insert_desc(sort_desc_spec(s0), l).filter(
                pred,
            ));
        } else {
            assert(s.filter(pred) == s0.filter(pred));
        }
    }
}

/// Two sequences agreeing on their first `n` elements have the same
/// survivors there.
proof fn lemma_kept_prefix(s1: Seq<DetModel>, s2: Seq<DetModel>, n: int)
    requires
        0 <= n <= s1.len(),
        n <= s2.len(),
        s1.take(n) == s2.take(n),
    ensures
        kept_upto(s1, n) == kept_upto(s2, n),
    decreases n,
{
    if n > 0 {
        assert(s1.take(n - 1) =~= s2.take(n - 1));
        lemma_kept_prefix(s1, s2, n - 1);
        let prev = kept_upto(s1, n - 1);
        lemma_kept_upto_subset(s1, n - 1);
        assert(s1.take(n)[n - 1] == s1[n - 1]);
        assert(s2.take(n)[n - 1] == s2[n - 1]);
        assert(s1[n - 1] == s2[n - 1]);
        assert forall|k: int| #[trigger] prev.contains(k) implies s1[k] == s2[k] by {
            assert(s1.take(n)[k] == s1[k]);
            assert(s2.take(n)[k] == s2[k]);
        }
        assert(compat_all(s1, prev, n - 1) == compat_all(s2, prev, n - 1)) by {
            if compat_all(s1, prev, n - 1) {
                assert forall|k: int| #[trigger] prev.contains(k) implies iou_spec(
                    s2[k].bbox,
                    s2[n - 1].bbox,
                ) <= NMS_IOU_THRESHOLD by {
                    assert(iou_spec(s1[k].bbox, s1[n - 1].bbox) <= NMS_IOU_THRESHOLD);
                }
            }
            if compat_all(s2, prev, n - 1) {
                assert forall|k: int| #[trigger] prev.contains(k) implies iou_spec(
                    s1[k].bbox,
                    s1[n - 1].bbox,
                ) <= NMS_IOU_THRESHOLD by {
                    assert(iou_spec(s2[k].bbox, s2[n - 1].bbox) <= NMS_IOU_THRESHOLD);
                }
            }
        }
    }
}

/// In a sorted sequence whose dropped elements all have confidence below
/// `c`, a surviving element with confidence at least `c` has every
/// earlier position untouched by the filter.
proof fn lemma_filter_high_prefix(
    t: Seq<DetModel>,
    pred: spec_fn(DetModel) -> bool,
    c: int,
    p: int,
)
    requires
        sorted_desc(t),
        forall|x: DetModel| !pred(x) ==> x.confidence < c,
        0 <= p < t.filter(pred).len(),
        t.filter(pred)[p].confidence >= c,
    ensures
        p < t.len(),
        t.take(p + 1) == t.filter(pred).take(p + 1),
    decreases t.len(),
{
    reveal(Seq::filter);
    broadcast use vstd::seq_lib::group_filter_ensures;

    let f = t.filter(pred);
    let t0 = t.drop_last();
    let l = t.last();
    assert(t.len() > 0);
    assert(sorted_desc(t0));
    if pred(l) {
        assert(f == t0.filter(pred).push(l));
        if p < t0.filter(pred).len() {
            assert(f[p] == t0.filter(pred)[p]);
            lemma_filter_high_prefix(t0, pred, c, p);
            assert(t.take(p + 1) =~= t0.take(p + 1));
            assert(f.take(p + 1) =~= t0.filter(pred).take(p + 1));
        } else {
            assert(p == t0.filter(pred).len());
            assert(f[p] == l);
            assert forall|i: int| 0 <= i < t0.len() implies pred(#[trigger] t0[i]) by {
                if !pred(t0[i]) {
                    assert(t0[i].confidence < c);
                    assert(t[i].confidence >= t[t.len() - 1].confidence);
                }
            }
            lemma_filter_all_pass(t0, pred);
            assert(p == t0.len());
            assert(f =~= t);
            assert(t.take(p + 1) =~= f.take(p + 1));
        }
    } else {
        assert(f == t0.filter(pred));
        lemma_filter_high_prefix(t0, pred, c, p);
        assert(t.take(p + 1) =~= t0.take(p + 1));
    }
}

/// Every candidate's class id is a catalog index, its confidence clears
/// its class's threshold, and its class is enabled.
proof fn lemma_candidates_properties(raw: RawOutput, cfg: ConfigStore, ow: u32, oh: u32, n: int)
    requires
        raw.num_classes >= 1,
        0 <= n,
    ensures
        forall|p: int|
            0 <= p < candidates_upto(raw, cfg, ow, oh, n).len() ==> {
                let d = #[trigger] candidates_upto(raw, cfg, ow, oh, n)[p];
                &&& 0 <= d.class_id < raw.num_classes
                &&& d.confidence >= cfg.threshold_spec(cfg.catalog_spec()[d.class_id])
                &&& cfg.enabled_spec(d.class_id)
            },
    decreases n,
{
    if n > 0 {
        lemma_candidates_properties(raw, cfg, ow, oh, n - 1);
        lemma_best_class_in_range(raw, n - 1, raw.num_classes as int);
        let cur = candidates_upto(raw, cfg, ow, oh, n);
        let prev = candidates_upto(raw, cfg, ow, oh, n - 1);
        assert forall|p: int| 0 <= p < cur.len() implies {
            let d = #[trigger] cur[p];
            &&& 0 <= d.class_id < raw.num_classes
            &&& d.confidence >= cfg.threshold_spec(cfg.catalog_spec()[d.class_id])
            &&& cfg.enabled_spec(d.class_id)
        } by {
            match anchor_cand(raw, cfg, ow, oh, n - 1) {
                Some(d0) => {
                    assert(cur == prev.push(d0));
                    if p < cur.len() - 1 {
                        assert(cur[p] == prev[p]);
                    } else {
                        assert(cur[p] == d0);
                    }
                },
                None => {
                    assert(cur == prev);
                    assert(cur[p] == prev[p]);
                },
            }
        }
    }
}

/// Under a raised threshold, the candidate list is the old one with the
/// raised class's now-subthreshold candidates dropped.
proof fn lemma_candidates_filter(
    raw: RawOutput,
    cfg: ConfigStore,
    cfg2: ConfigStore,
    ow: u32,
    oh: u32,
    name: Seq<char>,
    n: int,
)
    requires
        0 <= n,
        raw.num_classes >= 1,
        cfg2.catalog == cfg.catalog,
        cfg2.enabled == cfg.enabled,
        cfg2.threshold_spec(name) >= cfg.threshold_spec(name),
        forall|m: Seq<char>| m != name ==> cfg2.threshold_spec(m) == cfg.threshold_spec(m),
    ensures
        candidates_upto(raw, cfg2, ow, oh, n) == candidates_upto(raw, cfg, ow, oh, n).filter(
            |d: DetModel|
                !(cfg.catalog_spec()[d.class_id] == name && d.confidence < cfg2.threshold_spec(
                    name,
                )),
        ),
    decreases n,
{
    reveal(Seq::filter);
    let pred = |d: DetModel|
        !(cfg.catalog_spec()[d.class_id] == name && d.confidence < cfg2.threshold_spec(name));
    if n > 0 {
        lemma_candidates_filter(raw, cfg, cfg2, ow, oh, name, n - 1);
        lemma_best_class_in_range(raw, n - 1, raw.num_classes as int);
        let prev1 = candidates_upto(raw, cfg, ow, oh, n - 1);
        let prev2 = candidates_upto(raw, cfg2, ow, oh, n - 1);
        let c = best_class(raw, n - 1);
        let cname = cfg.catalog_spec()[c];
        assert(cfg2.catalog_spec() == cfg.catalog_spec());
        assert(forall|id: int| cfg2.enabled_spec(id) == cfg.enabled_spec(id));
        match anchor_cand(raw, cfg, ow, oh, n - 1) {
            Some(d) => {
                assert(candidates_upto(raw, cfg, ow, oh, n) == prev1.push(d));
                assert(prev1.push(d).drop_last() =~= prev1);
                assert(prev1.push(d).last() == d);
                if pred(d) {
                    assert(anchor_cand(raw, cfg2, ow, oh, n - 1) == Some(d));
                    assert(candidates_upto(raw, cfg2, ow, oh, n) == prev2.push(d));
                    assert(prev1.push(d).filter(pred) == prev1.filter(pred).push(d));
                } else {
                    assert(cname == name && d.confidence < cfg2.threshold_spec(name));
                    assert(anchor_cand(raw, cfg2, ow, oh, n - 1) is None);
                    assert(candidates_upto(raw, cfg2, ow, oh, n) == prev2);
                    assert(prev1.push(d).filter(pred) == prev1.filter(pred));
                }
            },
            None => {
                assert(candidates_upto(raw, cfg, ow, oh, n) == prev1);
                assert(anchor_cand(raw, cfg2, ow, oh, n - 1) is None);
                assert(candidates_upto(raw, cfg2, ow, oh, n) == prev2);
            },
        }
    } else {
        assert(candidates_upto(raw, cfg, ow, oh, n).filter(pred) =~= Seq::<DetModel>::empty());
    }
}

/// Raising one class's confidence threshold can only remove that class's
/// detections from a result, never add any: every detection of the
/// raised class present under the higher threshold was already present
/// under the lower one.  Detections of other classes may change, since
/// removing a box can stop it from suppressing neighbours.
pub proof fn lemma_threshold_monotone(
    raw: RawOutput,
    cfg: ConfigStore,
    cfg2: ConfigStore,
    ow: u32,
    oh: u32,
    name: Seq<char>,
)
    requires
        raw.num_classes >= 1,
        cfg2.catalog == cfg.catalog,
        cfg2.enabled == cfg.enabled,
        cfg2.threshold_spec(name) >= cfg.threshold_spec(name),
        forall|m: Seq<char>| m != name ==> cfg2.threshold_spec(m) == cfg.threshold_spec(m),
    ensures
        forall|x: DetModel|
            postprocess_spec(raw, cfg2, ow, oh).contains(x) && 0 <= x.class_id
                < cfg.catalog_spec().len() && cfg.catalog_spec()[x.class_id] == name
                ==> #[trigger] postprocess_spec(raw, cfg, ow, oh).contains(x),
{
    let pred = |d: DetModel|
        !(cfg.catalog_spec()[d.class_id] == name && d.confidence < cfg2.threshold_spec(name));
    let thr2 = cfg2.threshold_spec(name) as int;
    let cands1 = candidates_spec(raw, cfg, ow, oh);
    let cands2 = candidates_spec(raw, cfg2, ow, oh);
    lemma_candidates_filter(raw, cfg, cfg2, ow, oh, name, raw.num_anchors as int);
    assert(cands2 == cands1.filter(pred));
    let t1 = sort_desc_spec(cands1);
    let t2 = sort_desc_spec(cands2);
    lemma_sort_filter_commute(cands1, pred);
    assert(t2 == t1.filter(pred));
    lemma_sort_desc_spec(cands1);
    lemma_sort_desc_spec(cands2);
    assert forall|x: DetModel|
        postprocess_spec(raw, cfg2, ow, oh).contains(x) && 0 <= x.class_id < cfg.catalog_spec(
        ).len() && cfg.catalog_spec()[x.class_id] == name implies #[trigger] postprocess_spec(
        raw,
        cfg,
        ow,
        oh,
    ).contains(x) by {
        lemma_nms_structure(t2, t2.len() as int);
        let o2 = nms_spec(t2);
        let q = choose|q: int| 0 <= q < o2.len() && o2[q] == x;
        assert(survivor_of(t2, t2.len() as int, o2[q]));
        let p = choose|p: int|
            0 <= p < t2.len() && #[trigger] kept(t2, p) && x == t2[p];
        assert(x.confidence >= thr2) by {
            assert(t2.contains(t2[p]));
            assert(cands2.contains(x));
            let m = choose|m: int| 0 <= m < cands2.len() && cands2[m] == x;
            lemma_candidates_properties(raw, cfg2, ow, oh, raw.num_anchors as int);
            assert(cfg2.catalog_spec() == cfg.catalog_spec());
        }
        assert forall|y: DetModel| !pred(y) implies y.confidence < thr2 by {}
        lemma_filter_high_prefix(t1, pred, thr2, p);
        assert(t1.take(p + 1) == t2.take(p + 1));
        lemma_kept_prefix(t1, t2, p + 1);
        assert(kept_upto(t1, p + 1) == kept_upto(t2, p + 1));
        assert(kept(t1, p));
        assert(t1.take(p + 1)[p] == t1[p]);
        assert(t2.take(p + 1)[p] == t2[p]);
        assert(t1[p] == x);
        lemma_kept_in_nms(t1, p, t1.len() as int);
    }
}


/// Filtering distributes over concatenation.
proof fn proof_filter_add(a: Seq<DetModel>, b: Seq<DetModel>, pred: spec_fn(DetModel) -> bool)
    ensures
        (a + b).filter(pred) == a.filter(pred) + b.filter(pred),
{
    Seq::<DetModel>::filter_distributes_over_add(a, b, pred);
}


/// Disabling a class excludes it entirely: no detection of a class that
/// the configuration does not enable ever survives post-processing,
/// regardless of its confidence.
pub proof fn lemma_disabled_class_excluded(
    raw: RawOutput,
    cfg: ConfigStore,
    ow: u32,
    oh: u32,
    id: int,
)
    requires
        raw.num_classes >= 1,
        !cfg.enabled_spec(id),
    ensures
        forall|x: DetModel|
            #[trigger] postprocess_spec(raw, cfg, ow, oh).contains(x) ==> x.class_id != id,
{
    let cands = candidates_spec(raw, cfg, ow, oh);
    let t = sort_desc_spec(cands);
    lemma_sort_desc_spec(cands);
    lemma_nms_membership(t, t.len() as int);
    lemma_candidates_properties(raw, cfg, ow, oh, raw.num_anchors as int);
    assert forall|x: DetModel|
        #[trigger] postprocess_spec(raw, cfg, ow, oh).contains(x) implies x.class_id != id by {
        assert(t.contains(x));
        assert(cands.contains(x));
        let p = choose|p: int| 0 <= p < cands.len() && cands[p] == x;
        assert(cfg.enabled_spec(cands[p].class_id));
    }
}

} // verus!
