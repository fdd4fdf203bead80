use vstd::prelude::*;

use crate::constants::INIT_HISTOGRAM_LENGTH;

verus! {

/// A counted histogram: a map from small dense non-negative integer keys to
/// accumulating counts, stored as a growable dense array indexed by key.
/// Reading a key that was never written yields zero.  A parallel mask
/// remembers which keys were ever written, so that the number of distinct
/// written keys can be reported in constant time.
pub struct Histogram {
    histogram: Vec<u64>,
    written: Vec<bool>,
    distinct: usize,
}

impl View for Histogram {
    type V = Seq<u64>;

    closed spec fn view(&self) -> Seq<u64> {
        self.histogram@
    }
}

/// The count stored at `k` in a dense histogram sequence; zero beyond the
/// written range.
pub open spec fn hist_at(h: Seq<u64>, k: int) -> int {
    if 0 <= k < h.len() {
        h[k] as int
    } else {
        0
    }
}

/// Number of true entries in a written-key mask.
spec fn count_written(s: Seq<bool>) -> int
    decreases s.len(),
{
    if s.len() == 0 {
        0
    } else {
        count_written(s.drop_last()) + (if s.last() {
            1int
        } else {
            0int
        })
    }
}

/// The number of true entries lies between zero and the mask length.
proof fn lemma_count_written_bounds(s: Seq<bool>)
    ensures
        0 <= count_written(s) <= s.len(),
    decreases s.len(),
{
    if s.len() > 0 {
        lemma_count_written_bounds(s.drop_last());
    }
}

/// A mask with a false entry has fewer true entries than its length.
proof fn lemma_count_written_lt(s: Seq<bool>, i: int)
    requires
        0 <= i < s.len(),
        !s[i],
    ensures
        count_written(s) < s.len(),
    decreases s.len(),
{
    lemma_count_written_bounds(s.drop_last());
    if i < s.len() - 1 {
        lemma_count_written_lt(s.drop_last(), i);
    }
}

/// Appending one entry adds its indicator.
proof fn lemma_count_written_push(s: Seq<bool>, b: bool)
    ensures
        count_written(s.push(b)) == count_written(s) + (if b {
            1int
        } else {
            0int
        }),
{
    assert(s.push(b).drop_last() =~= s);
}

/// Setting an entry to true adds one exactly when it was false.
proof fn lemma_count_written_set(s: Seq<bool>, i: int)
    requires
        0 <= i < s.len(),
    ensures
        count_written(s.update(i, true)) == count_written(s) + (if s[i] {
            0int
        } else {
            1int
        }),
    decreases s.len(),
{
    let u = s.update(i, true);
    if i == s.len() - 1 {
        assert(u.drop_last() =~= s.drop_last());
    } else {
        assert(u.drop_last() =~= s.drop_last().update(i, true));
        lemma_count_written_set(s.drop_last(), i);
    }
}

impl Histogram {
    /// Whether `k` was ever passed to `increment` or `add`.
    pub closed spec fn spec_written(self, k: int) -> bool {
        0 <= k < self.written@.len() && self.written@[k]
    }

    /// Number of distinct keys ever passed to `increment` or `add`.
    pub closed spec fn spec_key_count(self) -> int {
        count_written(self.written@)
    }

    /// The written-key mask covers the backing array and the cached
    /// distinct-key count agrees with it.
    pub closed spec fn wf(self) -> bool {
        &&& self.written@.len() == self.histogram@.len()
        &&& self.distinct == count_written(self.written@)
    }

    /// An empty histogram: every key reads as zero and none counts as
    /// written.
    pub fn new() -> (h: Histogram)
        ensures
            h.wf(),
            h@.len() == 0,
            forall|k: int| hist_at(h@, k) == 0,
            forall|k: int| !h.spec_written(k),
            h.spec_key_count() == 0,
    {
        Histogram {
            histogram: Vec::with_capacity(INIT_HISTOGRAM_LENGTH),
            written: Vec::with_capacity(INIT_HISTOGRAM_LENGTH),
            distinct: 0,
        }
    }

    /// Extends the backing storage with zeros until `failed_key` is in
    /// range.  No stored count changes and no key becomes written.
    pub fn grow(&mut self, failed_key: usize)
        requires
            old(self).wf(),
            failed_key < usize::MAX,
        ensures
            final(self).wf(),
            forall|k: int| #[trigger] hist_at(final(self)@, k) == hist_at(old(self)@, k),
            forall|k: int| #[trigger] final(self).spec_written(k) == old(self).spec_written(k),
            final(self).spec_key_count() == old(self).spec_key_count(),
            final(self)@.len() == if old(self)@.len() > failed_key {
                old(self)@.len() as int
            } else {
                failed_key + 1
            },
    {
        while self.histogram.len() <= failed_key
            invariant
                failed_key < usize::MAX,
                old(self).written@.len() == old(self)@.len(),
                self.written@.len() == self.histogram@.len(),
                self.distinct == old(self).distinct,
                count_written(self.written@) == count_written(old(self).written@),
                old(self)@.len() <= self@.len() <= failed_key + 1 || self@ == old(self)@,
                forall|k: int| 0 <= k < old(self)@.len() ==> self@[k] == old(self)@[k],
                forall|k: int| old(self)@.len() <= k < self@.len() ==> self@[k] == 0,
                forall|k: int|
                    0 <= k < old(self).written@.len() ==> (#[trigger] self.written@[k]) == old(
                        self,
                    ).written@[k],
                forall|k: int|
                    old(self).written@.len() <= k < self.written@.len() ==> !(
                    #[trigger] self.written@[k]),
            decreases failed_key + 1 - self.histogram.len(),
        {
            proof {
                lemma_count_written_push(self.written@, false);
            }
            self.histogram.push(0);
            self.written.push(false);
        }
        assert(forall|k: int| #[trigger] hist_at(self@, k) == hist_at(old(self)@, k));
        assert(forall|k: int| #[trigger] self.spec_written(k) == old(self).spec_written(k));
    }

    /// Adds one to the count under `key`.
    pub fn increment(&mut self, key: usize)
        requires
            old(self).wf(),
            key < usize::MAX,
            hist_at(old(self)@, key as int) < u64::MAX,
        ensures
            final(self).wf(),
            hist_at(final(self)@, key as int) == hist_at(old(self)@, key as int) + 1,
            forall|k: int|
                k != key ==> #[trigger] hist_at(final(self)@, k) == hist_at(old(self)@, k),
            final(self).spec_written(key as int),
            forall|k: int|
                k != key ==> #[trigger] final(self).spec_written(k) == old(self).spec_written(k),
            final(self).spec_key_count() == old(self).spec_key_count() + (if old(
                self,
            ).spec_written(key as int) {
                0int
            } else {
                1int
            }),
            final(self)@.len() == if old(self)@.len() > key {
                old(self)@.len() as int
            } else {
                key + 1
            },
    {
        self.add(key, 1);
    }

    /// Adds `val` to the count under `key`.
    pub fn add(&mut self, key: usize, val: u64)
        requires
            old(self).wf(),
            key < usize::MAX,
            hist_at(old(self)@, key as int) + val <= u64::MAX,
        ensures
            final(self).wf(),
            hist_at(final(self)@, key as int) == hist_at(old(self)@, key as int) + val,
            forall|k: int|
                k != key ==> #[trigger] hist_at(final(self)@, k) == hist_at(old(self)@, k),
            final(self).spec_written(key as int),
            forall|k: int|
                k != key ==> #[trigger] final(self).spec_written(k) == old(self).spec_written(k),
            final(self).spec_key_count() == old(self).spec_key_count() + (if old(
                self,
            ).spec_written(key as int) {
                0int
            } else {
                1int
            }),
            final(self)@.len() == if old(self)@.len() > key {
                old(self)@.len() as int
            } else {
                key + 1
            },
    {
        if key >= self.histogram.len() {
            self.grow(key);
        }
        let ghost mid = *self;
        proof {
            assert(hist_at(mid@, key as int) == hist_at(old(self)@, key as int));
            assert(mid.spec_written(key as int) == old(self).spec_written(key as int));
        }
        let was_written = self.written[key];
        if !was_written {
            proof {
                lemma_count_written_set(mid.written@, key as int);
                lemma_count_written_lt(mid.written@, key as int);
            }
            self.written[key] = true;
            self.distinct = self.distinct + 1;
        }
        let v = self.histogram[key];
        self.histogram[key] = v + val;
        proof {
            assert forall|k: int|
                k != key implies #[trigger] hist_at(self@, k) == hist_at(old(self)@, k) by {
                assert(hist_at(mid@, k) == hist_at(old(self)@, k));
            }
            assert forall|k: int|
                k != key implies #[trigger] self.spec_written(k) == old(self).spec_written(
                k,
            ) by {
                assert(mid.spec_written(k) == old(self).spec_written(k));
            }
        }
    }

    /// The count stored under `key`, or zero if the key was never written.
    pub fn get(&self, key: usize) -> (v: u64)
        ensures
            v == hist_at(self@, key as int),
    {
        if key >= self.histogram.len() {
            0
        } else {
            self.histogram[key]
        }
    }

    /// Number of distinct keys ever written.
    pub fn count(&self) -> (n: usize)
        requires
            self.wf(),
        ensures
            n == self.spec_key_count(),
    {
        self.distinct
    }
}

} // verus!
