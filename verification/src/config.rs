//! Per-class confidence thresholds, the enabled-class set and the class
//! catalog.
//!
//! The catalog maps dense, 0-based class ids to display names.  Thresholds
//! are keyed by class name; a name without an entry falls back to
//! `DEFAULT_THRESHOLD`.  Stale threshold entries for names no longer in the
//! catalog are tolerated.  The enabled set is kept as one flag per catalog
//! entry; a class that is not enabled is excluded from results regardless
//! of confidence.

use vstd::prelude::*;

use crate::UNIT;

verus! {

/// Fixed-point threshold used for any class name without an entry:
/// stands for 0.5.
pub const DEFAULT_THRESHOLD: u32 = 500_000;

/// Fixed-point default threshold of the first built-in class: stands for
/// 0.2, deliberately low so that faint anomalies are still reported.
pub const DEFAULT_ABNORMAL_THRESHOLD: u32 = 200_000;

/// First-match lookup in a threshold association list, falling back to
/// `DEFAULT_THRESHOLD`.
pub open spec fn assoc_threshold(entries: Seq<(String, u32)>, name: Seq<char>) -> u32
    decreases entries.len(),
{
    if entries.len() == 0 {
        DEFAULT_THRESHOLD
    } else if entries[0].0@ == name {
        entries[0].1
    } else {
        assoc_threshold(entries.drop_first(), name)
    }
}

/// Class catalog, per-class thresholds and the enabled-class set.
pub struct ConfigStore {
    pub catalog: Vec<String>,
    pub thresholds: Vec<(String, u32)>,
    pub enabled: Vec<bool>,
}

impl ConfigStore {
    /// Every stored threshold is in range and there is one enabled flag per
    /// catalog entry.
    pub open spec fn wf(self) -> bool {
        &&& self.enabled@.len() == self.catalog@.len()
        &&& forall|i: int| 0 <= i < self.thresholds@.len() ==> (#[trigger] self.thresholds@[i]).1
            <= UNIT
    }

    /// The catalog as a sequence of class names; class ids are indices.
    pub open spec fn catalog_spec(self) -> Seq<Seq<char>> {
        self.catalog@.map_values(|s: String| s@)
    }

    /// Number of classes in the catalog.
    pub open spec fn num_classes(self) -> nat {
        self.catalog@.len()
    }

    /// Whether `name` is a display name of some class in the catalog.
    pub open spec fn has_class_name(self, name: Seq<char>) -> bool {
        exists|i: int| 0 <= i < self.catalog@.len() && (#[trigger] self.catalog@[i])@ == name
    }

    /// The threshold looked up for `name`.
    pub open spec fn threshold_spec(self, name: Seq<char>) -> u32 {
        assoc_threshold(self.thresholds@, name)
    }

    /// Whether class id `id` is enabled.
    pub open spec fn enabled_spec(self, id: int) -> bool {
        0 <= id < self.enabled@.len() && self.enabled@[id]
    }

    /// The built-in two-class catalog: class 0 is the anomaly class with a
    /// deliberately low threshold, class 1 the normal class at the default.
    pub fn new() -> (r: Self)
        ensures
            r.wf(),
            r.num_classes() == 2,
            r.catalog_spec()[0] == "\u{5f02}\u{5e38}"@,
            r.catalog_spec()[1] == "\u{6b63}\u{5e38}"@,
            r.threshold_spec("\u{5f02}\u{5e38}"@) == DEFAULT_ABNORMAL_THRESHOLD,
            r.threshold_spec("\u{6b63}\u{5e38}"@) == DEFAULT_THRESHOLD,
            forall|id: int| r.enabled_spec(id) == (0 <= id < 2),
    {
        let abnormal: String = "\u{5f02}\u{5e38}".to_owned();
        let normal: String = "\u{6b63}\u{5e38}".to_owned();
        let mut catalog: Vec<String> = Vec::new();
        catalog.push(abnormal.clone());
        catalog.push(normal.clone());
        let mut thresholds: Vec<(String, u32)> = Vec::new();
        thresholds.push((abnormal, DEFAULT_ABNORMAL_THRESHOLD));
        thresholds.push((normal, DEFAULT_THRESHOLD));
        let mut enabled: Vec<bool> = Vec::new();
        enabled.push(true);
        enabled.push(true);
        let r = ConfigStore { catalog, thresholds, enabled };
        proof {
            assert(r.thresholds@.len() == 2);
            reveal_strlit("\u{5f02}\u{5e38}");
            reveal_strlit("\u{6b63}\u{5e38}");
            assert(("\u{5f02}\u{5e38}"@)[0] == '\u{5f02}');
            assert(("\u{6b63}\u{5e38}"@)[0] == '\u{6b63}');
            assert(r.thresholds@[0].0@ != r.thresholds@[1].0@);
            assert(r.thresholds@.drop_first() =~= seq![r.thresholds@[1]]);
            assert(assoc_threshold(r.thresholds@, "\u{5f02}\u{5e38}"@)
                == DEFAULT_ABNORMAL_THRESHOLD);
            assert(assoc_threshold(r.thresholds@, "\u{6b63}\u{5e38}"@) == assoc_threshold(
                r.thresholds@.drop_first(),
                "\u{6b63}\u{5e38}"@,
            ));
            assert(assoc_threshold(r.thresholds@.drop_first(), "\u{6b63}\u{5e38}"@)
                == DEFAULT_THRESHOLD);
            assert(r.enabled@ =~= seq![true, true]);
        }
        r
    }

    /// The number of classes, as a machine integer.
    pub fn class_count(&self) -> (r: usize)
        ensures
            r == self.num_classes(),
    {
        self.catalog.len()
    }

    /// The display name of class `id`.
    pub fn class_name(&self, id: usize) -> (r: String)
        requires
            id < self.num_classes(),
        ensures
            r@ == self.catalog_spec()[id as int],
    {
        self.catalog[id].clone()
    }

    /// A copy of the whole catalog, class ids being the indices.
    pub fn catalog_names(&self) -> (r: Vec<String>)
        ensures
            r@.map_values(|s: String| s@) == self.catalog_spec(),
    {
        let mut out: Vec<String> = Vec::new();
        let mut i: usize = 0;
        while i < self.catalog.len()
            invariant
                i <= self.catalog@.len(),
                out@.len() == i,
                forall|j: int| 0 <= j < i ==> (#[trigger] out@[j])@ == self.catalog@[j]@,
            decreases self.catalog@.len() - i,
        {
            out.push(self.catalog[i].clone());
            i += 1;
        }
        proof {
            assert(out@.map_values(|s: String| s@) =~= self.catalog_spec());
        }
        out
    }

    /// Whether `name` is in the catalog.
    pub fn contains_class_name(&self, name: &String) -> (r: bool)
        ensures
            r == self.has_class_name(name@),
    {
        let mut i: usize = 0;
        while i < self.catalog.len()
            invariant
                i <= self.catalog@.len(),
                forall|j: int| 0 <= j < i ==> (#[trigger] self.catalog@[j])@ != name@,
            decreases self.catalog@.len() - i,
        {
            if self.catalog[i].eq(name) {
                return true;
            }
            i += 1;
        }
        false
    }

    /// Whether class id `id` is enabled.
    pub fn is_enabled(&self, id: usize) -> (r: bool)
        ensures
            r == self.enabled_spec(id as int),
    {
        if id < self.enabled.len() {
            self.enabled[id]
        } else {
            false
        }
    }

    /// The threshold for `name`: the stored value, or `DEFAULT_THRESHOLD`
    /// when no entry exists.
    pub fn get_threshold(&self, name: &String) -> (r: u32)
        requires
            self.wf(),
        ensures
            r == self.threshold_spec(name@),
            r <= UNIT,
    {
        proof {
            assert(self.thresholds@.skip(0) =~= self.thresholds@);
        }
        let mut i: usize = 0;
        while i < self.thresholds.len()
            invariant
                self.wf(),
                i <= self.thresholds@.len(),
                assoc_threshold(self.thresholds@, name@) == assoc_threshold(
                    self.thresholds@.skip(i as int),
                    name@,
                ),
            decreases self.thresholds@.len() - i,
        {
            let e = &self.thresholds[i];
            if e.0.eq(name) {
                proof {
                    assert(self.thresholds@.skip(i as int)[0] == self.thresholds@[i as int]);
                }
                return e.1;
            }
            proof {
                assert(self.thresholds@.skip(i as int)[0] == self.thresholds@[i as int]);
                assert(self.thresholds@.skip(i as int).drop_first() =~= self.thresholds@.skip(
                    i + 1,
                ));
            }
            i += 1;
        }
        proof {
            assert(self.thresholds@.skip(i as int).len() == 0);
        }
        DEFAULT_THRESHOLD
    }

    /// Clamp `value` to `[0, UNIT]` and store it as the threshold for
    /// `name`, inserting or replacing its entry.  The catalog and the
    /// enabled set are untouched.
    pub fn set_threshold(&mut self, name: &String, value: u32)
        requires
            old(self).wf(),
        ensures
            final(self).wf(),
            final(self).catalog == old(self).catalog,
            final(self).enabled == old(self).enabled,
            final(self).threshold_spec(name@) == if value <= UNIT {
                value
            } else {
                UNIT
            },
            forall|m: Seq<char>|
                m != name@ ==> final(self).threshold_spec(m) == old(self).threshold_spec(m),
    {
        let clamped: u32 = if value <= UNIT {
            value
        } else {
            UNIT
        };
        let mut found: Option<usize> = None;
        let mut i: usize = 0;
        while i < self.thresholds.len() && found.is_none()
            invariant
                i <= self.thresholds@.len(),
                match found {
                    Some(k) => k < self.thresholds@.len() && self.thresholds@[k as int].0@
                        == name@ && (forall|j: int|
                        0 <= j < k ==> (#[trigger] self.thresholds@[j]).0@ != name@),
                    None => forall|j: int|
                        0 <= j < i ==> (#[trigger] self.thresholds@[j]).0@ != name@,
                },
            decreases self.thresholds@.len() - i,
        {
            if self.thresholds[i].0.eq(name) {
                found = Some(i);
            }
            i += 1;
        }
        match found {
            Some(k) => {
                let ghost pre = self.thresholds@;
                self.thresholds[k].1 = clamped;
                proof {
                    assert(self.thresholds@.len() == pre.len());
                    assert(self.thresholds@[k as int].1 == clamped);
                    assert(self.thresholds@[k as int].0 == pre[k as int].0);
                    assert(forall|j: int|
                        0 <= j < pre.len() && j != k ==> self.thresholds@[j] == pre[j]);
                    assert(self.thresholds@ == pre.update(
                        k as int,
                        (pre[k as int].0, clamped),
                    ));
                    lemma_assoc_update(pre, k as int, clamped, name@);
                }
            },
            None => {
                let ghost pre = self.thresholds@;
                self.thresholds.push((name.clone(), clamped));
                proof {
                    lemma_assoc_push(pre, self.thresholds@[pre.len() as int], name@, clamped);
                    assert(self.thresholds@ == pre.push(self.thresholds@[pre.len() as int]));
                }
            },
        }
    }

    /// Replace the enabled set: class `id` becomes enabled exactly when
    /// `ids` mentions it; ids outside the catalog are dropped silently.
    pub fn set_enabled_classes(&mut self, ids: &Vec<u32>)
        requires
            old(self).wf(),
        ensures
            final(self).wf(),
            final(self).catalog == old(self).catalog,
            final(self).thresholds == old(self).thresholds,
            forall|id: int|
                final(self).enabled_spec(id) == (0 <= id < final(self).num_classes()
                    && ids@.contains(id as u32)),
    {
        let n = self.catalog.len();
        let mut enabled: Vec<bool> = Vec::new();
        let mut i: usize = 0;
        while i < n
            invariant
                n == self.catalog@.len(),
                i <= n,
                enabled@.len() == i,
                forall|j: int| 0 <= j < i ==> enabled@[j] == ids@.contains(j as u32),
            decreases n - i,
        {
            let on = contains_u32(ids, i as u32);
            enabled.push(on);
            i += 1;
        }
        self.enabled = enabled;
    }

    /// Replace the catalog wholesale: `names` become the classes, every
    /// class is enabled, and every threshold is reset to the default.
    pub fn load_catalog(&mut self, names: Vec<String>)
        ensures
            final(self).wf(),
            final(self).catalog_spec() == names@.map_values(|s: String| s@),
            forall|id: int| final(self).enabled_spec(id) == (0 <= id < names@.len()),
            forall|m: Seq<char>| final(self).threshold_spec(m) == DEFAULT_THRESHOLD,
    {
        let n = names.len();
        let mut enabled: Vec<bool> = Vec::new();
        let mut i: usize = 0;
        while i < n
            invariant
                i <= n,
                enabled@.len() == i,
                forall|j: int| 0 <= j < i ==> enabled@[j],
            decreases n - i,
        {
            enabled.push(true);
            i += 1;
        }
        self.catalog = names;
        self.thresholds = Vec::new();
        self.enabled = enabled;
        proof {
            assert(self.catalog_spec() =~= self.catalog@.map_values(|s: String| s@));
        }
    }
}

/// Whether `v` holds `x`.
pub fn contains_u32(v: &Vec<u32>, x: u32) -> (r: bool)
    ensures
        r == v@.contains(x),
{
    let mut i: usize = 0;
    while i < v.len()
        invariant
            i <= v@.len(),
            forall|j: int| 0 <= j < i ==> v@[j] != x,
        decreases v@.len() - i,
    {
        if v[i] == x {
            return true;
        }
        i += 1;
    }
    false
}

/// Updating the value of the first entry for `name` changes that name's
/// lookup to the new value and no other name's lookup.
proof fn lemma_assoc_update(entries: Seq<(String, u32)>, i: int, v: u32, name: Seq<char>)
    requires
        0 <= i < entries.len(),
        entries[i].0@ == name,
        forall|j: int| 0 <= j < i ==> (#[trigger] entries[j]).0@ != name,
    ensures
        assoc_threshold(entries.update(i, (entries[i].0, v)), name) == v,
        forall|m: Seq<char>|
            m != name ==> assoc_threshold(entries.update(i, (entries[i].0, v)), m)
                == assoc_threshold(entries, m),
    decreases i,
{
    let updated = entries.update(i, (entries[i].0, v));
    if i == 0 {
        assert(updated[0].0@ == name);
        assert(updated[0].1 == v);
        assert(assoc_threshold(updated, name) == v);
        assert forall|m: Seq<char>| m != name implies assoc_threshold(updated, m)
            == assoc_threshold(entries, m) by {
            assert(updated.drop_first() =~= entries.drop_first());
            assert(updated[0].0 == entries[0].0);
        }
    } else {
        lemma_assoc_update(entries.drop_first(), i - 1, v, name);
        let sub = entries.drop_first().update(i - 1, (entries.drop_first()[i - 1].0, v));
        assert(updated.drop_first() =~= sub);
        assert(updated[0] == entries[0]);
        assert(entries[0].0@ != name);
        assert(assoc_threshold(updated, name) == assoc_threshold(sub, name));
        assert forall|m: Seq<char>| m != name implies assoc_threshold(updated, m)
            == assoc_threshold(entries, m) by {
            if entries[0].0@ == m {
                assert(assoc_threshold(updated, m) == updated[0].1);
                assert(assoc_threshold(entries, m) == entries[0].1);
            } else {
                assert(assoc_threshold(updated, m) == assoc_threshold(sub, m));
                assert(assoc_threshold(entries, m) == assoc_threshold(entries.drop_first(), m));
            }
        }
    }
}

/// Appending an entry for a name with no earlier entry sets that name's
/// lookup and leaves every other name's lookup unchanged.
proof fn lemma_assoc_push(entries: Seq<(String, u32)>, e: (String, u32), name: Seq<char>, v: u32)
    requires
        e.0@ == name,
        e.1 == v,
        forall|j: int| 0 <= j < entries.len() ==> (#[trigger] entries[j]).0@ != name,
    ensures
        assoc_threshold(entries.push(e), name) == v,
        forall|m: Seq<char>|
            m != name ==> assoc_threshold(entries.push(e), m) == assoc_threshold(entries, m),
    decreases entries.len(),
{
    let appended = entries.push(e);
    if entries.len() == 0 {
        assert(appended[0] == e);
        assert(appended.drop_first() =~= Seq::<(String, u32)>::empty());
        assert(assoc_threshold(appended, name) == v);
        assert forall|m: Seq<char>| m != name implies assoc_threshold(appended, m)
            == assoc_threshold(entries, m) by {
            assert(assoc_threshold(appended.drop_first(), m) == DEFAULT_THRESHOLD);
        }
    } else {
        lemma_assoc_push(entries.drop_first(), e, name, v);
        assert(appended.drop_first() =~= entries.drop_first().push(e));
        assert(appended[0] == entries[0]);
        assert(entries[0].0@ != name);
        assert(assoc_threshold(appended, name) == v);
        assert forall|m: Seq<char>| m != name implies assoc_threshold(appended, m)
            == assoc_threshold(entries, m) by {
            if entries[0].0@ == m {
                assert(assoc_threshold(appended, m) == appended[0].1);
                assert(assoc_threshold(entries, m) == entries[0].1);
            } else {
                assert(assoc_threshold(appended, m) == assoc_threshold(
                    appended.drop_first(),
                    m,
                ));
                assert(assoc_threshold(appended.drop_first(), m) == assoc_threshold(
                    entries.drop_first(),
                    m,
                ));
                assert(assoc_threshold(entries, m) == assoc_threshold(entries.drop_first(), m));
            }
        }
    }
}

} // verus!

