//! The sketch orchestrator: configuration, exact extremes, and quantile
//! rank lookup over the bucket store.

use vstd::prelude::*;

use crate::error::DDSketchError;
use crate::store::Store;

verus! {

/// Immutable mapping configuration of a sketch.
///
/// The caller's value-to-key mapping is parameterized by a target
/// relative accuracy and a smallest distinguishable magnitude; the
/// derived growth factor and the key offset are recorded here, the real
/// parameters as exact bit patterns, so two sketches are merge-compatible
/// exactly when every parameter agrees bit for bit.
#[derive(Clone, Copy, Debug, PartialEq, Eq, Structural)]
pub struct Config {
    /// Hard cap on simultaneously materialized buckets.
    pub max_num_bins: u32,
    /// Bit pattern of the derived growth factor `gamma`.
    pub gamma_bits: u64,
    /// Bit pattern of `ln(gamma)`.
    pub gamma_ln_bits: u64,
    /// Bit pattern of the smallest magnitude distinguished from zero.
    pub min_value_bits: u64,
    /// Integer constant pinning the key of the smallest distinguishable
    /// magnitude.
    pub offset: i32,
}

impl Config {
    /// Assemble a configuration from its recorded parameters.
    pub fn new(
        max_num_bins: u32,
        gamma_bits: u64,
        gamma_ln_bits: u64,
        min_value_bits: u64,
        offset: i32,
    ) -> (c: Config)
        ensures
            c == (Config { max_num_bins, gamma_bits, gamma_ln_bits, min_value_bits, offset }),
    {
        Config { max_num_bins, gamma_bits, gamma_ln_bits, min_value_bits, offset }
    }
}

/// A mergeable quantile sketch over bucket keys and sample order codes.
///
/// A sample enters as the bucket key its value maps to together with an
/// order code: a `u64` whose ordering mirrors the ordering of the
/// represented values, so the tracked extremes are exact whatever the
/// caller's value domain is.  Bucket counts are approximate only in
/// resolution (collapsing), never in total.
#[derive(Clone)]
pub struct DDSketch {
    /// Mapping configuration; immutable for the sketch's lifetime.
    pub config: Config,
    /// Bucket counts with the collapsing policy.
    pub store: Store,
    /// Order code of the smallest sample seen (meaningful only when the
    /// sketch is non-empty).
    pub min_code: u64,
    /// Order code of the largest sample seen (meaningful only when the
    /// sketch is non-empty).
    pub max_code: u64,
}

impl DDSketch {
    /// Structural invariant of the sketch.
    pub open spec fn wf(self) -> bool {
        &&& self.store.wf()
        &&& self.store.max_num_bins == self.config.max_num_bins
        &&& (!self.store.spec_is_empty() ==> self.min_code <= self.max_code)
    }

    /// Whether no sample has been recorded.
    pub open spec fn spec_is_empty(self) -> bool {
        self.store.spec_is_empty()
    }

    /// Exact number of samples recorded.
    pub open spec fn spec_count(self) -> int {
        self.store.count as int
    }

    /// Construct an empty sketch from a configuration.
    ///
    /// The capacity must allow at least one bucket and fit the signed
    /// key arithmetic.
    pub fn new(config: Config) -> (s: DDSketch)
        requires
            1 <= config.max_num_bins <= i32::MAX as u32,
        ensures
            s.wf(),
            s.config == config,
            s.spec_is_empty(),
            s.spec_count() == 0,
    {
        DDSketch { config, store: Store::new(config.max_num_bins), min_code: 0, max_code: 0 }
    }

    /// Record one sample: its bucket key and its order code.
    pub fn add(&mut self, key: i32, code: u64)
        requires
            old(self).wf(),
            old(self).spec_count() + 1 <= u64::MAX as int,
        ensures
            final(self).wf(),
            final(self).config == old(self).config,
            final(self).spec_count() == old(self).spec_count() + 1,
            !final(self).spec_is_empty(),
            final(self).store.max_key as int == old(self).store.spec_add_hi(key as int),
            final(self).store.min_key as int == old(self).store.spec_add_lo(key as int),
            forall|j: int|
                j > old(self).store.spec_add_lo(key as int) ==> final(self).store.stored(j)
                    == old(self).store.stored(j) + (if j == key as int {
                    1int
                } else {
                    0int
                }),
            (old(self).spec_is_empty() || old(self).store.spec_add_lo(key as int) == (
            if (key as int) < old(self).store.min_key as int {
                key as int
            } else {
                old(self).store.min_key as int
            })) ==> final(self).store.stored(old(self).store.spec_add_lo(key as int)) == old(
                self,
            ).store.stored(old(self).store.spec_add_lo(key as int)) + (
            if key as int == old(self).store.spec_add_lo(key as int) {
                1int
            } else {
                0int
            }),
            final(self).min_code == (if old(self).spec_is_empty() {
                code
            } else if code < old(self).min_code {
                code
            } else {
                old(self).min_code
            }),
            final(self).max_code == (if old(self).spec_is_empty() {
                code
            } else if code > old(self).max_code {
                code
            } else {
                old(self).max_code
            }),
    {
        self.add_n(key, code, 1);
    }

    /// Record `n` identical samples: their bucket key and order code.
    pub fn add_n(&mut self, key: i32, code: u64, n: u64)
        requires
            old(self).wf(),
            n >= 1,
            old(self).spec_count() + n as int <= u64::MAX as int,
        ensures
            final(self).wf(),
            final(self).config == old(self).config,
            final(self).spec_count() == old(self).spec_count() + n as int,
            !final(self).spec_is_empty(),
            final(self).store.max_key as int == old(self).store.spec_add_hi(key as int),
            final(self).store.min_key as int == old(self).store.spec_add_lo(key as int),
            forall|j: int|
                j > old(self).store.spec_add_lo(key as int) ==> final(self).store.stored(j)
                    == old(self).store.stored(j) + (if j == key as int {
                    n as int
                } else {
                    0int
                }),
            final(self).store.stored(old(self).store.spec_add_lo(key as int)) == old(
                self,
            ).store.cum(old(self).store.spec_add_lo(key as int)) + (if key as int <= old(
                self,
            ).store.spec_add_lo(key as int) {
                n as int
            } else {
                0int
            }),
            (old(self).spec_is_empty() || old(self).store.spec_add_lo(key as int) == (
            if (key as int) < old(self).store.min_key as int {
                key as int
            } else {
                old(self).store.min_key as int
            })) ==> final(self).store.stored(old(self).store.spec_add_lo(key as int)) == old(
                self,
            ).store.stored(old(self).store.spec_add_lo(key as int)) + (
            if key as int == old(self).store.spec_add_lo(key as int) {
                n as int
            } else {
                0int
            }),
            final(self).min_code == (if old(self).spec_is_empty() {
                code
            } else if code < old(self).min_code {
                code
            } else {
                old(self).min_code
            }),
            final(self).max_code == (if old(self).spec_is_empty() {
                code
            } else if code > old(self).max_code {
                code
            } else {
                old(self).max_code
            }),
    {
        let was_empty: bool = self.store.length() == 0;
        self.store.add(key, n);
        if was_empty {
            self.min_code = code;
            self.max_code = code;
        } else {
            if code < self.min_code {
                self.min_code = code;
            }
            if self.max_code < code {
                self.max_code = code;
            }
        }
    }

    /// Exact number of samples recorded (additive across merges).
    pub fn count(&self) -> (c: u64)
        ensures
            c as int == self.spec_count(),
    {
        self.store.count()
    }

    /// Number of materialized buckets, for observing growth.
    pub fn len(&self) -> (n: usize)
        ensures
            n == self.store.bins@.len(),
    {
        self.store.length()
    }

    /// Whether the sketch holds no samples.
    pub fn is_empty(&self) -> (e: bool)
        requires
            self.wf(),
        ensures
            e == self.spec_is_empty(),
    {
        proof {
            self.store.lemma_count_zero_iff_empty();
        }
        self.store.count() == 0
    }

    /// Order code of the smallest sample, or `None` when empty.
    pub fn min(&self) -> (r: Option<u64>)
        requires
            self.wf(),
        ensures
            r == (if self.spec_is_empty() {
                Option::<u64>::None
            } else {
                Option::<u64>::Some(self.min_code)
            }),
    {
        proof {
            self.store.lemma_count_zero_iff_empty();
        }
        if self.store.count() == 0 {
            None
        } else {
            Some(self.min_code)
        }
    }

    /// Order code of the largest sample, or `None` when empty.
    pub fn max(&self) -> (r: Option<u64>)
        requires
            self.wf(),
        ensures
            r == (if self.spec_is_empty() {
                Option::<u64>::None
            } else {
                Option::<u64>::Some(self.max_code)
            }),
    {
        proof {
            self.store.lemma_count_zero_iff_empty();
        }
        if self.store.count() == 0 {
            None
        } else {
            Some(self.max_code)
        }
    }

    /// The bucket key holding the sample of 1-indexed `rank`: the
    /// smallest key whose cumulative count reaches `rank`.
    pub fn key_at_rank(&self, rank: u64) -> (k: i32)
        requires
            self.wf(),
            !self.spec_is_empty(),
        ensures
            self.store.min_key as int <= k as int <= self.store.max_key as int,
            rank as int <= self.spec_count() ==> self.store.cum(k as int) >= rank && (forall|
                j: int,
            |
                self.store.min_key as int <= j < k as int ==> self.store.cum(j) < rank),
            rank as int > self.spec_count() ==> k == self.store.max_key,
    {
        self.store.key_at_rank(rank)
    }

    /// Clamp an estimate's order code into the observed range
    /// `[min_code, max_code]`, correcting for approximation error that
    /// could otherwise push a quantile estimate outside the seen samples.
    pub fn clamp_code(&self, c: u64) -> (r: u64)
        requires
            self.wf(),
            !self.spec_is_empty(),
        ensures
            r == (if c < self.min_code {
                self.min_code
            } else if c > self.max_code {
                self.max_code
            } else {
                c
            }),
    {
        if c < self.min_code {
            self.min_code
        } else if c > self.max_code {
            self.max_code
        } else {
            c
        }
    }

    /// What a successful merge leaves behind: `post` is `pre` with
    /// `o` folded in.  The total count is exactly additive; when the
    /// union of the realized key intervals fits the capacity, the bucket
    /// counts are the pointwise sums; the extremes are combined from the
    /// non-empty side or sides, so an empty operand never overwrites
    /// them with its initializers.
    pub open spec fn merge_result(pre: DDSketch, o: DDSketch, post: DDSketch) -> bool {
        &&& post.wf()
        &&& post.config == pre.config
        &&& post.spec_count() == pre.spec_count() + o.spec_count()
        &&& (pre.store.merge_fits(o.store) ==> forall|j: int|
            post.store.stored(j) == pre.store.stored(j) + o.store.stored(j))
        &&& post.min_code == (if pre.spec_is_empty() {
            o.min_code
        } else if !o.spec_is_empty() && o.min_code < pre.min_code {
            o.min_code
        } else {
            pre.min_code
        })
        &&& post.max_code == (if pre.spec_is_empty() {
            o.max_code
        } else if !o.spec_is_empty() && o.max_code > pre.max_code {
            o.max_code
        } else {
            pre.max_code
        })
        &&& (o.spec_is_empty() ==> post.store == pre.store)
    }

    /// Merge another sketch into this one; the other sketch is left
    /// unchanged by the caller's shared borrow.
    ///
    /// Fails exactly when the two configurations differ, and then leaves
    /// this sketch exactly as it was.  On success the counts are
    /// pointwise folded in under the collapsing policy, the total count
    /// is exactly additive, and the extremes are combined from the
    /// non-empty side or sides.
    pub fn merge(&mut self, o: &DDSketch) -> (r: Result<(), DDSketchError>)
        requires
            old(self).wf(),
            o.wf(),
            old(self).spec_count() + o.spec_count() <= u64::MAX as int,
        ensures
            old(self).config != o.config ==> r == Result::<(), DDSketchError>::Err(
                DDSketchError::Merge,
            ) && *final(self) == *old(self),
            old(self).config == o.config ==> r == Result::<(), DDSketchError>::Ok(())
                && DDSketch::merge_result(*old(self), *o, *final(self)),
    {
        if !(self.config == o.config) {
            return Err(DDSketchError::Merge);
        }
        proof {
            self.store.lemma_count_zero_iff_empty();
            o.store.lemma_count_zero_iff_empty();
        }
        let was_empty: bool = self.store.count() == 0;
        self.store.merge(&o.store);
        if was_empty {
            self.min_code = o.min_code;
            self.max_code = o.max_code;
        } else if o.store.count() > 0 {
            if o.min_code < self.min_code {
                self.min_code = o.min_code;
            }
            if o.max_code > self.max_code {
                self.max_code = o.max_code;
            }
        }
        Ok(())
    }
}

/// Merging is order-independent: folding `b` into a sketch holding `a`'s
/// samples and folding `a` into one holding `b`'s leave the same sample
/// count, the same extremes (as long as any sample is present at all),
/// and, when the union of the realized key intervals fits the capacity,
/// the same per-key bucket totals.
pub proof fn lemma_merge_order_independent(a: DDSketch, b: DDSketch, ab: DDSketch, ba: DDSketch)
    requires
        a.wf(),
        b.wf(),
        a.config == b.config,
        DDSketch::merge_result(a, b, ab),
        DDSketch::merge_result(b, a, ba),
    ensures
        ab.spec_count() == ba.spec_count(),
        a.store.merge_fits(b.store) ==> forall|j: int| ab.store.stored(j) == ba.store.stored(j),
        !(a.spec_is_empty() && b.spec_is_empty()) ==> ab.min_code == ba.min_code && ab.max_code
            == ba.max_code,
{
    if a.store.merge_fits(b.store) {
        assert(b.store.merge_fits(a.store));
        assert forall|j: int| ab.store.stored(j) == ba.store.stored(j) by {
            assert(ab.store.stored(j) == a.store.stored(j) + b.store.stored(j));
            assert(ba.store.stored(j) == b.store.stored(j) + a.store.stored(j));
        }
    }
}

/// A merge reproduces single-pass construction: when merging collapses
/// nothing, the merged sketch holds the same total count and the same
/// cumulative counts as any well-formed sketch holding the combined
/// per-key totals — in particular one that saw the full sample set in a
/// single pass.  Since `key_at_rank` is characterized by the cumulative
/// counts alone, every rank then resolves to the same bucket in both.
pub proof fn lemma_merge_matches_combined(a: DDSketch, b: DDSketch, m: DDSketch, w: DDSketch)
    requires
        a.wf(),
        b.wf(),
        w.wf(),
        a.config == b.config,
        DDSketch::merge_result(a, b, m),
        a.store.merge_fits(b.store),
        forall|j: int| w.store.stored(j) == a.store.stored(j) + b.store.stored(j),
    ensures
        w.spec_count() == m.spec_count(),
        forall|k: int| m.store.cum(k) == w.store.cum(k),
{
    assert forall|j: int| m.store.stored(j) == w.store.stored(j) by {}
    crate::store::lemma_stored_determines_count(m.store, w.store);
    assert forall|k: int| m.store.cum(k) == w.store.cum(k) by {
        crate::store::lemma_stored_determines_cum(m.store, w.store, k);
    }
}

/// Bounded memory: a well-formed sketch never materializes more buckets
/// than its configuration's capacity, however many samples were added or
/// merged in.
pub proof fn lemma_capacity_bound(s: DDSketch)
    requires
        s.wf(),
    ensures
        s.store.bins@.len() <= s.config.max_num_bins,
{
    if !s.store.spec_is_empty() {
    }
}

} // verus!
