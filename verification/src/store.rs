//! The capacity-bounded bucket store.
//!
//! The store keeps approximate frequency counts per integer bucket key
//! inside a contiguous key interval `[min_key, max_key]`, represented as
//! a dense array indexed by `key - min_key`.  Insertion may grow the
//! interval; when growth would push its width past the configured
//! capacity, the store collapses the buckets at the low end of the key
//! range into the lowest bucket that remains, so resolution is lost only
//! for the smallest-magnitude samples while the total count stays exact.

use vstd::prelude::*;

verus! {

/// Sum of a sequence of bucket counts, as an unbounded integer.
pub open spec fn seq_sum(s: Seq<u64>) -> int
    decreases s.len(),
{
    if s.len() == 0 {
        0
    } else {
        seq_sum(s.drop_last()) + s.last()
    }
}

pub proof fn lemma_seq_sum_nonneg(s: Seq<u64>)
    ensures
        0 <= seq_sum(s),
    decreases s.len(),
{
    if s.len() > 0 {
        lemma_seq_sum_nonneg(s.drop_last());
    }
}

/// Summing one more element extends a prefix sum.
pub proof fn lemma_seq_sum_take_succ(s: Seq<u64>, i: int)
    requires
        0 <= i < s.len(),
    ensures
        seq_sum(s.take(i + 1)) == seq_sum(s.take(i)) + s[i],
{
    assert(s.take(i + 1).drop_last() =~= s.take(i));
    assert(s.take(i + 1).last() == s[i]);
}

/// A full-length prefix is the whole sequence.
pub proof fn lemma_seq_sum_take_all(s: Seq<u64>)
    ensures
        seq_sum(s.take(s.len() as int)) == seq_sum(s),
{
    assert(s.take(s.len() as int) =~= s);
}

/// A prefix never sums to more than the whole.
pub proof fn lemma_seq_sum_take_le(s: Seq<u64>, i: int)
    requires
        0 <= i <= s.len(),
    ensures
        seq_sum(s.take(i)) <= seq_sum(s),
    decreases s.len() - i,
{
    if i < s.len() {
        lemma_seq_sum_take_succ(s, i);
        lemma_seq_sum_take_le(s, i + 1);
    } else {
        lemma_seq_sum_take_all(s);
    }
}

/// Appending an element adds it to the sum.
pub proof fn lemma_seq_sum_push(s: Seq<u64>, v: u64)
    ensures
        seq_sum(s.push(v)) == seq_sum(s) + v,
{
    assert(s.push(v).drop_last() =~= s);
    assert(s.push(v).last() == v);
}

/// Replacing an element adjusts the sum by the difference.
pub proof fn lemma_seq_sum_update(s: Seq<u64>, i: int, v: u64)
    requires
        0 <= i < s.len(),
    ensures
        seq_sum(s.update(i, v)) == seq_sum(s) - s[i] + v,
    decreases s.len(),
{
    if i == s.len() - 1 {
        assert(s.update(i, v).drop_last() =~= s.drop_last());
        assert(s.update(i, v).last() == v);
    } else {
        lemma_seq_sum_update(s.drop_last(), i, v);
        assert(s.update(i, v).drop_last() =~= s.drop_last().update(i, v));
        assert(s.update(i, v).last() == s.last());
    }
}

/// Every element is bounded by the sum.
pub proof fn lemma_seq_sum_elem_le(s: Seq<u64>, i: int)
    requires
        0 <= i < s.len(),
    ensures
        s[i] <= seq_sum(s),
{
    lemma_seq_sum_take_succ(s, i);
    lemma_seq_sum_take_le(s, i + 1);
    lemma_seq_sum_nonneg(s.take(i));
}

/// The lower of the two realized interval starts, below which both
/// cumulative counts vanish.
pub open spec fn cum_floor(a: Store, b: Store) -> int {
    if a.min_key as int <= b.min_key as int {
        a.min_key as int
    } else {
        b.min_key as int
    }
}

/// Bucket totals determine cumulative counts: two well-formed stores
/// holding the same count at every key agree on every cumulative count,
/// however differently the intervals are laid out.
pub proof fn lemma_stored_determines_cum(a: Store, b: Store, k: int)
    requires
        a.wf(),
        b.wf(),
        forall|j: int| a.stored(j) == b.stored(j),
    ensures
        a.cum(k) == b.cum(k),
    decreases (if k < cum_floor(a, b) {
        0int
    } else {
        k - cum_floor(a, b) + 1
    }),
{
    if k < cum_floor(a, b) {
        assert(a.cum(k) == 0);
        assert(b.cum(k) == 0);
    } else {
        a.lemma_cum_succ(k);
        b.lemma_cum_succ(k);
        lemma_stored_determines_cum(a, b, k - 1);
    }
}

/// Bucket totals determine the total count.
pub proof fn lemma_stored_determines_count(a: Store, b: Store)
    requires
        a.wf(),
        b.wf(),
        forall|j: int| a.stored(j) == b.stored(j),
    ensures
        a.count == b.count,
{
    if a.spec_is_empty() && b.spec_is_empty() {
    } else if !a.spec_is_empty() && b.spec_is_empty() {
        assert(a.stored(a.min_key as int) > 0);
        assert(b.stored(a.min_key as int) == 0);
    } else if a.spec_is_empty() && !b.spec_is_empty() {
        assert(b.stored(b.min_key as int) > 0);
        assert(a.stored(b.min_key as int) == 0);
    } else {
        let kk = if a.max_key as int >= b.max_key as int {
            a.max_key as int
        } else {
            b.max_key as int
        };
        a.lemma_cum_all(kk);
        b.lemma_cum_all(kk);
        lemma_stored_determines_cum(a, b, kk);
    }
}

/// Bucket totals determine rank lookups: whatever shape two stores are
/// in, if they hold the same count at every key, a rank resolves to the
/// same bucket in both.  `ka` and `kb` are characterized exactly as
/// `key_at_rank` promises its result.
pub proof fn lemma_equal_totals_agree_on_rank(a: Store, b: Store, rank: u64, ka: i32, kb: i32)
    requires
        a.wf(),
        b.wf(),
        forall|j: int| a.stored(j) == b.stored(j),
        1 <= rank as int,
        rank as int <= a.count as int,
        a.min_key as int <= ka as int <= a.max_key as int,
        a.cum(ka as int) >= rank,
        forall|j: int| a.min_key as int <= j < ka as int ==> a.cum(j) < rank,
        b.min_key as int <= kb as int <= b.max_key as int,
        b.cum(kb as int) >= rank,
        forall|j: int| b.min_key as int <= j < kb as int ==> b.cum(j) < rank,
    ensures
        ka == kb,
{
    lemma_stored_determines_cum(a, b, ka as int);
    lemma_stored_determines_cum(a, b, kb as int);
    if ka < kb {
        assert(b.cum(ka as int) >= rank);
        if (ka as int) < b.min_key as int {
            assert(b.cum(ka as int) == 0);
        }
        assert(b.cum(ka as int) < rank);
    }
    if kb < ka {
        assert(a.cum(kb as int) >= rank);
        if (kb as int) < a.min_key as int {
            assert(a.cum(kb as int) == 0);
        }
        assert(a.cum(kb as int) < rank);
    }
}

/// A capacity-bounded multiset of `(key, count)` pairs over a contiguous
/// interval of signed bucket keys.
///
/// The fields are exposed so that the specification functions below stay
/// fully transparent to callers; mutate a store only through its methods,
/// which preserve the invariant `wf`.
#[derive(Clone)]
pub struct Store {
    /// Dense per-key counts; index `i` holds the count of key
    /// `min_key + i`.
    pub bins: Vec<u64>,
    /// Total of all bucket counts.
    pub count: u64,
    /// Lowest key of the realized interval (zero when empty).
    pub min_key: i32,
    /// Highest key of the realized interval (zero when empty).
    pub max_key: i32,
    /// Capacity: the realized interval never exceeds this width.
    pub max_num_bins: u32,
}

impl Store {
    /// The configured capacity: the realized key interval never grows
    /// wider than this many buckets.
    pub open spec fn cap(self) -> int {
        self.max_num_bins as int
    }

    /// Structural invariant of the store.
    pub open spec fn wf(self) -> bool {
        &&& 1 <= self.max_num_bins <= i32::MAX as u32
        &&& self.count as int == seq_sum(self.bins@)
        &&& (self.bins@.len() == 0 ==> self.min_key == 0 && self.max_key == 0)
        &&& (self.bins@.len() > 0 ==> {
            &&& self.max_key as int - self.min_key as int + 1 == self.bins@.len() as int
            &&& self.bins@.len() as int <= self.cap()
            &&& self.bins@[0] > 0
            &&& self.bins@[self.bins@.len() - 1] > 0
        })
    }

    /// Whether any sample has been recorded.
    pub open spec fn spec_is_empty(self) -> bool {
        self.bins@.len() == 0
    }

    /// The count held at key `k` (zero outside the realized interval).
    pub open spec fn stored(self, k: int) -> int {
        if !self.spec_is_empty() && self.min_key as int <= k <= self.max_key as int {
            self.bins@[k - self.min_key as int] as int
        } else {
            0
        }
    }

    /// Cumulative count over all keys `<= k`.
    pub open spec fn cum(self, k: int) -> int {
        if self.spec_is_empty() || k < self.min_key as int {
            0
        } else if k <= self.max_key as int {
            seq_sum(self.bins@.take(k - self.min_key as int + 1))
        } else {
            seq_sum(self.bins@)
        }
    }

    /// The cumulative count grows by exactly the bucket at each key.
    pub proof fn lemma_cum_succ(self, k: int)
        requires
            self.wf(),
        ensures
            self.cum(k) == self.cum(k - 1) + self.stored(k),
    {
        if !self.spec_is_empty() {
            let lo = self.min_key as int;
            let hi = self.max_key as int;
            if lo <= k <= hi {
                if k == lo {
                    let t = self.bins@.take(1);
                    assert(t.drop_last() =~= Seq::<u64>::empty());
                    assert(seq_sum(Seq::<u64>::empty()) == 0);
                    assert(seq_sum(t) == t.last());
                    assert(t.last() == self.bins@[0]);
                } else {
                    lemma_seq_sum_take_succ(self.bins@, k - lo);
                    assert(self.cum(k - 1) == seq_sum(self.bins@.take(k - lo)));
                }
            } else if k == hi + 1 {
                lemma_seq_sum_take_all(self.bins@);
                assert(self.cum(k - 1) == seq_sum(self.bins@.take(hi - lo + 1)));
                assert(hi - lo + 1 == self.bins@.len());
            }
        }
    }

    /// The cumulative count never decreases with the key.
    pub proof fn lemma_cum_monotone(self, j: int, k: int)
        requires
            self.wf(),
            j <= k,
        ensures
            self.cum(j) <= self.cum(k),
        decreases k - j,
    {
        if j < k {
            self.lemma_cum_succ(k);
            self.lemma_cum_monotone(j, k - 1);
        }
    }

    /// A well-formed store is empty exactly when its total count is zero.
    pub proof fn lemma_count_zero_iff_empty(self)
        requires
            self.wf(),
        ensures
            (self.count == 0) <==> self.spec_is_empty(),
    {
        if !self.spec_is_empty() {
            lemma_seq_sum_elem_le(self.bins@, 0);
        }
    }

    /// At or above the top of the realized interval the cumulative count
    /// is the total.
    pub proof fn lemma_cum_all(self, k: int)
        requires
            self.wf(),
            !self.spec_is_empty(),
            k >= self.max_key as int,
        ensures
            self.cum(k) == self.count,
    {
        lemma_seq_sum_take_all(self.bins@);
    }

    /// The cumulative count at the lowest realized key is its bucket.
    pub proof fn lemma_cum_at_min_key(self)
        requires
            self.wf(),
            !self.spec_is_empty(),
        ensures
            self.cum(self.min_key as int) == self.bins@[0],
    {
        let t = self.bins@.take(1);
        assert(t.drop_last() =~= Seq::<u64>::empty());
        assert(seq_sum(Seq::<u64>::empty()) == 0);
        assert(seq_sum(t) == t.last());
        assert(t.last() == self.bins@[0]);
    }

    /// Upper bound of the realized interval after inserting at key `k`.
    pub open spec fn spec_add_hi(self, k: int) -> int {
        if self.spec_is_empty() {
            k
        } else if k > self.max_key as int {
            k
        } else {
            self.max_key as int
        }
    }

    /// Lower bound of the realized interval after inserting at key `k`:
    /// the interval is extended towards `k`, but never below the pin
    /// `spec_add_hi(k) - cap + 1` that keeps the width within capacity.
    pub open spec fn spec_add_lo(self, k: int) -> int {
        if self.spec_is_empty() {
            k
        } else {
            let ideal = if k < self.min_key as int {
                k
            } else {
                self.min_key as int
            };
            let pin = self.spec_add_hi(k) - self.cap() + 1;
            if ideal > pin {
                ideal
            } else {
                pin
            }
        }
    }

    /// Record `n` samples at bucket `key`.
    ///
    /// The realized interval is extended to reach `key`; when that would
    /// exceed the capacity, the interval's low end is pinned and every
    /// count at or below the pinned bound (the inserted one included, if
    /// it lies there) collapses into the lowest remaining bucket.  The
    /// total count always grows by exactly `n`.
    #[verifier::rlimit(100)]
    pub fn add(&mut self, key: i32, n: u64)
        requires
            old(self).wf(),
            n >= 1,
            old(self).count as int + n as int <= u64::MAX as int,
        ensures
            final(self).wf(),
            final(self).max_num_bins == old(self).max_num_bins,
            final(self).count as int == old(self).count as int + n as int,
            !final(self).spec_is_empty(),
            final(self).max_key as int == old(self).spec_add_hi(key as int),
            final(self).min_key as int == old(self).spec_add_lo(key as int),
            forall|j: int|
                j > old(self).spec_add_lo(key as int) ==> final(self).stored(j)
                    == old(self).stored(j) + (if j == key as int {
                    n as int
                } else {
                    0
                }),
            final(self).stored(old(self).spec_add_lo(key as int)) == old(self).cum(
                old(self).spec_add_lo(key as int),
            ) + (if key as int <= old(self).spec_add_lo(key as int) {
                n as int
            } else {
                0
            }),
            (old(self).spec_is_empty() || old(self).spec_add_lo(key as int) == (
            if (key as int) < old(self).min_key as int {
                key as int
            } else {
                old(self).min_key as int
            })) ==> final(self).stored(old(self).spec_add_lo(key as int)) == old(self).stored(
                old(self).spec_add_lo(key as int),
            ) + (if key as int == old(self).spec_add_lo(key as int) {
                n as int
            } else {
                0
            }),
    {
        let ghost pre = *self;
        let ghost kk = key as int;
        proof {
            if !pre.spec_is_empty() {
                pre.lemma_cum_at_min_key();
            }
        }

        if self.bins.len() == 0 {
            self.bins.push(n);
            self.min_key = key;
            self.max_key = key;
            self.count = n;
            proof {
                assert(self.bins@.drop_last() =~= Seq::<u64>::empty());
                assert(seq_sum(Seq::<u64>::empty()) == 0);
                assert(seq_sum(self.bins@) == n);
                assert(pre.spec_add_lo(kk) == kk);
                assert(self.stored(kk) == n);
            }
            return;
        }

        if self.min_key <= key && key <= self.max_key {
            // The interval already covers the key: a plain increment.
            let idx: usize = (key as i64 - self.min_key as i64) as usize;
            let cur: u64 = self.bins[idx];
            proof {
                lemma_seq_sum_elem_le(self.bins@, idx as int);
            }
            self.bins[idx] = cur + n;
            self.count = self.count + n;
            proof {
                lemma_seq_sum_update(pre.bins@, idx as int, (cur + n) as u64);
                pre.lemma_cum_at_min_key();
                assert(pre.spec_add_hi(kk) == pre.max_key as int);
                assert(pre.spec_add_lo(kk) == pre.min_key as int);
                assert forall|j: int| j > pre.min_key as int implies self.stored(j)
                    == pre.stored(j) + (if j == kk {
                    n as int
                } else {
                    0
                }) by {
                    if pre.min_key as int <= j <= pre.max_key as int {
                        assert(self.bins@[j - pre.min_key as int] == pre.bins@.update(
                            idx as int,
                            (cur + n) as u64,
                        )[j - pre.min_key as int]);
                    }
                }
            }
            return;
        }

        // The key lies outside the interval: rebuild the bin array over
        // the adjusted bounds, collapsing everything at or below the new
        // low end into its first slot.
        let lo64: i64 = self.min_key as i64;
        let hi64: i64 = self.max_key as i64;
        let cap64: i64 = self.max_num_bins as i64;
        let k64: i64 = key as i64;
        let nhi: i64 = if k64 > hi64 {
            k64
        } else {
            hi64
        };
        let ideal: i64 = if k64 < lo64 {
            k64
        } else {
            lo64
        };
        let pin: i64 = nhi - cap64 + 1;
        let nlo: i64 = if ideal > pin {
            ideal
        } else {
            pin
        };
        proof {
            assert(nhi == pre.spec_add_hi(kk));
            assert(nlo == pre.spec_add_lo(kk));
            assert(nlo <= nhi);
            assert(nhi - nlo + 1 <= cap64);
        }
        let new_len: usize = (nhi - nlo + 1) as usize;

        // Count collapsing below or at the new low end.
        let len_exec: usize = self.bins.len();
        let cut64: i64 = nlo - lo64 + 1;
        let cutc: usize = if cut64 < 0 {
            0
        } else if cut64 > len_exec as i64 {
            len_exec
        } else {
            cut64 as usize
        };
        let mut acc: u64 = 0;
        let mut i: usize = 0;
        while i < cutc
            invariant
                pre.wf(),
                pre.count as int + n as int <= u64::MAX as int,
                *self == pre,
                i <= cutc <= self.bins@.len(),
                acc as int == seq_sum(pre.bins@.take(i as int)),
            decreases cutc - i,
        {
            proof {
                lemma_seq_sum_take_succ(pre.bins@, i as int);
                lemma_seq_sum_take_le(pre.bins@, i as int + 1);
            }
            acc = acc + self.bins[i];
            i = i + 1;
        }
        proof {
            if cutc == self.bins@.len() {
                lemma_seq_sum_take_all(pre.bins@);
            }
            assert(acc as int == pre.cum(nlo as int));
            lemma_seq_sum_take_le(pre.bins@, cutc as int);
        }

        let mut nb: Vec<u64> = Vec::new();
        let mut b0: u64 = acc;
        if k64 <= nlo {
            b0 = b0 + n;
        }
        nb.push(b0);
        proof {
            lemma_seq_sum_push(Seq::<u64>::empty(), b0);
            assert(Seq::<u64>::empty().push(b0) =~= nb@);
            assert(seq_sum(nb@) == b0);
        }
        let mut i2: usize = 1;
        while i2 < new_len
            invariant
                pre.wf(),
                pre.count as int + n as int <= u64::MAX as int,
                *self == pre,
                !pre.spec_is_empty(),
                nhi == pre.spec_add_hi(kk),
                nlo == pre.spec_add_lo(kk),
                kk == k64,
                k64 <= nhi,
                nlo <= nhi,
                new_len as int == nhi - nlo + 1,
                lo64 == pre.min_key as int,
                hi64 == pre.max_key as int,
                1 <= i2 <= new_len,
                nb@.len() == i2,
                nb@[0] as int == pre.cum(nlo as int) + (if kk <= nlo as int {
                    n as int
                } else {
                    0
                }),
                forall|t: int|
                    1 <= t < i2 ==> nb@[t] as int == pre.stored(nlo + t) + (if nlo + t == kk {
                        n as int
                    } else {
                        0
                    }),
                seq_sum(nb@) == pre.cum(nlo + i2 - 1) + (if kk <= nlo + i2 - 1 {
                    n as int
                } else {
                    0
                }),
            decreases new_len - i2,
        {
            let j64: i64 = nlo + i2 as i64;
            let mut v: u64 = 0;
            if lo64 <= j64 && j64 <= hi64 {
                v = self.bins[(j64 - lo64) as usize];
                proof {
                    lemma_seq_sum_elem_le(pre.bins@, j64 - lo64);
                }
            }
            proof {
                assert(v as int == pre.stored(j64 as int));
            }
            if j64 == k64 {
                v = v + n;
            }
            proof {
                lemma_seq_sum_push(nb@, v);
                pre.lemma_cum_succ(j64 as int);
            }
            nb.push(v);
            i2 = i2 + 1;
        }
        proof {
            // The whole array sums to the old total plus the insertion.
            if nhi > hi64 {
                assert(pre.cum(nlo + new_len - 1) == seq_sum(pre.bins@));
            } else {
                lemma_seq_sum_take_all(pre.bins@);
            }
            assert(seq_sum(nb@) == pre.count as int + n as int);
        }
        self.bins = nb;
        self.min_key = nlo as i32;
        self.max_key = nhi as i32;
        self.count = self.count + n;
        proof {
            lemma_seq_sum_nonneg(pre.bins@.take(cutc as int));
            if kk > nlo as int {
                pre.lemma_cum_at_min_key();
                pre.lemma_cum_monotone(pre.min_key as int, nlo as int);
            }
            assert(self.bins@[0] > 0);
            assert(self.bins@[self.bins@.len() - 1] > 0) by {
                if new_len > 1 {
                    assert(self.bins@[new_len - 1] as int == pre.stored(nhi as int) + (
                    if nhi == kk {
                        n as int
                    } else {
                        0
                    }));
                    if kk != nhi {
                        assert(nhi == pre.max_key as int);
                        assert(pre.stored(nhi as int) == pre.bins@[pre.bins@.len() - 1]);
                    }
                }
            };
            assert forall|j: int| j > nlo as int implies self.stored(j) == pre.stored(j) + (
            if j == kk {
                n as int
            } else {
                0
            }) by {
                if nlo < j <= nhi {
                    assert(self.stored(j) == nb@[j - nlo] as int);
                } else {
                    assert(self.stored(j) == 0);
                    assert(pre.stored(j) == 0);
                }
            }
            assert(self.stored(nlo as int) == nb@[0] as int);
        }
    }

    /// Construct an empty store with the given bucket capacity.
    ///
    /// `max_num_bins` must be at least one bucket and fit the signed key
    /// arithmetic.
    pub fn new(max_num_bins: u32) -> (s: Store)
        requires
            1 <= max_num_bins <= i32::MAX as u32,
        ensures
            s.wf(),
            s.spec_is_empty(),
            s.count == 0,
            s.max_num_bins == max_num_bins,
            forall|k: int| s.stored(k) == 0,
    {
        Store { bins: Vec::new(), count: 0, min_key: 0, max_key: 0, max_num_bins }
    }

    /// Total number of samples recorded.
    pub fn count(&self) -> (c: u64)
        ensures
            c == self.count,
    {
        self.count
    }

    /// Number of materialized buckets (the realized interval width).
    pub fn length(&self) -> (n: usize)
        ensures
            n == self.bins@.len(),
    {
        self.bins.len()
    }

    /// Lowest key of the realized interval.
    pub fn min_key(&self) -> (k: i32)
        ensures
            k == self.min_key,
    {
        self.min_key
    }

    /// Highest key of the realized interval.
    pub fn max_key(&self) -> (k: i32)
        ensures
            k == self.max_key,
    {
        self.max_key
    }

    /// The smallest key whose cumulative count reaches `rank`, found by
    /// an ascending scan; when no key does (the rank exceeds the total
    /// count), the top of the realized interval.
    pub fn key_at_rank(&self, rank: u64) -> (k: i32)
        requires
            self.wf(),
            !self.spec_is_empty(),
        ensures
            self.min_key as int <= k as int <= self.max_key as int,
            rank <= self.count ==> self.cum(k as int) >= rank && (forall|j: int|
                self.min_key as int <= j < k as int ==> self.cum(j) < rank),
            rank > self.count ==> k == self.max_key,
    {
        let len: usize = self.bins.len();
        let mut c: u64 = 0;
        let mut i: usize = 0;
        while i < len
            invariant
                self.wf(),
                !self.spec_is_empty(),
                len == self.bins@.len(),
                i <= len,
                c as int == seq_sum(self.bins@.take(i as int)),
                forall|j: int|
                    self.min_key as int <= j < self.min_key as int + i ==> self.cum(j) < rank,
            decreases len - i,
        {
            proof {
                lemma_seq_sum_take_succ(self.bins@, i as int);
                lemma_seq_sum_take_le(self.bins@, i as int + 1);
            }
            let nc: u64 = c + self.bins[i];
            if nc >= rank {
                let k: i32 = ((self.min_key as i64) + (i as i64)) as i32;
                proof {
                    assert(self.cum(k as int) == nc);
                }
                return k;
            }
            c = nc;
            i = i + 1;
        }
        proof {
            lemma_seq_sum_take_all(self.bins@);
            assert(self.cum(self.max_key as int) < rank);
            assert(self.count < rank);
        }
        self.max_key
    }

    /// The counts of `o` with keys before `self.min_key + t` have not
    /// yet been folded in during a merge that walks `o` in key order.
    pub open spec fn stored_before(self, t: int, j: int) -> int {
        if j < self.min_key as int + t {
            self.stored(j)
        } else {
            0
        }
    }

    /// Whether the union of the two realized intervals fits this store's
    /// capacity, so a merge collapses nothing.
    pub open spec fn merge_fits(self, o: Store) -> bool {
        if o.spec_is_empty() {
            true
        } else if self.spec_is_empty() {
            o.max_key as int - o.min_key as int + 1 <= self.cap()
        } else {
            let lo = if self.min_key <= o.min_key {
                self.min_key as int
            } else {
                o.min_key as int
            };
            let hi = if self.max_key >= o.max_key {
                self.max_key as int
            } else {
                o.max_key as int
            };
            hi - lo + 1 <= self.cap()
        }
    }

    /// Fold every `(key, count)` pair of `o` into `self`, in ascending
    /// key order, honoring the collapsing policy.  The total count is
    /// exactly additive: collapsing never drops samples, only
    /// resolution.  When the union of the realized intervals fits the
    /// capacity, the result is the pointwise sum of the two stores.
    #[verifier::rlimit(100)]
    pub fn merge(&mut self, o: &Store)
        requires
            old(self).wf(),
            o.wf(),
            old(self).count as int + o.count as int <= u64::MAX as int,
        ensures
            final(self).wf(),
            final(self).max_num_bins == old(self).max_num_bins,
            final(self).count as int == old(self).count as int + o.count as int,
            old(self).merge_fits(*o) ==> forall|j: int|
                final(self).stored(j) == old(self).stored(j) + o.stored(j),
            o.spec_is_empty() ==> *final(self) == *old(self),
            !o.spec_is_empty() ==> !final(self).spec_is_empty(),
    {
        let ghost pre = *self;
        let olen: usize = o.bins.len();
        let mut i: usize = 0;
        while i < olen
            invariant
                o.wf(),
                olen == o.bins@.len(),
                i <= olen,
                self.wf(),
                self.max_num_bins == pre.max_num_bins,
                pre.count as int + o.count as int <= u64::MAX as int,
                self.count as int == pre.count as int + seq_sum(o.bins@.take(i as int)),
                i == 0 ==> *self == pre,
                self.spec_is_empty() ==> pre.spec_is_empty() && i == 0,
                pre.merge_fits(*o) && !self.spec_is_empty() ==> {
                    let lo = if pre.spec_is_empty() || o.min_key <= pre.min_key {
                        o.min_key as int
                    } else {
                        pre.min_key as int
                    };
                    let hi = if pre.spec_is_empty() || o.max_key >= pre.max_key {
                        o.max_key as int
                    } else {
                        pre.max_key as int
                    };
                    lo <= self.min_key as int && self.max_key as int <= hi
                },
                pre.merge_fits(*o) ==> forall|j: int|
                    self.stored(j) == pre.stored(j) + o.stored_before(i as int, j),
            decreases olen - i,
        {
            proof {
                lemma_seq_sum_take_succ(o.bins@, i as int);
                lemma_seq_sum_take_le(o.bins@, i as int + 1);
                lemma_seq_sum_nonneg(o.bins@.take(i as int));
            }
            let cnt: u64 = o.bins[i];
            let ghost mid = *self;
            let ghost fits = pre.merge_fits(*o);
            if cnt > 0 {
                proof {
                    assert(o.min_key as int + (i as int) <= o.max_key as int);
                }
                let k: i32 = ((o.min_key as i64) + (i as i64)) as i32;
                proof {
                    assert(k as int == o.min_key as int + i as int);
                    if fits {
                        if !mid.spec_is_empty() {
                            mid.lemma_cum_at_min_key();
                        }
                    }
                }
                self.add(k, cnt);
                proof {
                    if fits {
                        let kk = k as int;
                        if !mid.spec_is_empty() {
                            let hull_lo = if pre.spec_is_empty() || o.min_key <= pre.min_key {
                                o.min_key as int
                            } else {
                                pre.min_key as int
                            };
                            let hull_hi = if pre.spec_is_empty() || o.max_key >= pre.max_key {
                                o.max_key as int
                            } else {
                                pre.max_key as int
                            };
                            assert(hull_hi - hull_lo + 1 <= pre.cap());
                            assert(hull_lo <= kk <= hull_hi);
                            assert(hull_lo <= mid.min_key as int);
                            assert(mid.max_key as int <= hull_hi);
                            assert(mid.spec_add_hi(kk) <= hull_hi);
                            assert(mid.spec_add_hi(kk) - mid.cap() + 1 <= hull_lo);
                        }
                        assert(mid.spec_add_lo(kk) == (if mid.spec_is_empty() {
                            kk
                        } else if kk < mid.min_key as int {
                            kk
                        } else {
                            mid.min_key as int
                        }));
                        assert forall|j: int| self.stored(j) == mid.stored(j) + (if j == kk {
                            cnt as int
                        } else {
                            0
                        }) by {
                            let nlo = mid.spec_add_lo(kk);
                            if j > nlo {
                            } else if j == nlo {
                                if !mid.spec_is_empty() && nlo == mid.min_key as int {
                                    assert(mid.cum(nlo) == mid.stored(nlo));
                                } else {
                                    assert(mid.cum(nlo) == 0);
                                }
                            } else {
                                assert(self.stored(j) == 0);
                                assert(mid.stored(j) == 0);
                            }
                        }
                    }
                }
            }
            i = i + 1;
            proof {
                assert forall|j: int| pre.merge_fits(*o) implies self.stored(j) == pre.stored(j)
                    + o.stored_before(i as int, j) by {}
            }
        }
        proof {
            lemma_seq_sum_take_all(o.bins@);
            assert forall|j: int| o.stored_before(olen as int, j) == o.stored(j) by {}
        }
    }

    /// The count currently held at `key`.
    pub fn bin_count(&self, key: i32) -> (c: u64)
        requires
            self.wf(),
        ensures
            c as int == self.stored(key as int),
    {
        if self.bins.len() > 0 && self.min_key <= key && key <= self.max_key {
            let idx: usize = (key as i64 - self.min_key as i64) as usize;
            self.bins[idx]
        } else {
            0
        }
    }
}

} // verus!
