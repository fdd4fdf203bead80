use vstd::prelude::*;

use crate::constants::COUNTER_CAP;
use crate::histogram::Histogram;
use crate::histogram::hist_at;
use crate::ratio::Ratio;

verus! {

/// Number of events of the given kind (true for allocations, false for
/// frees) recorded at timer values at most `t`.
pub open spec fn count_events(h: Seq<(bool, int)>, is_alloc: bool, t: int) -> int
    decreases h.len(),
{
    if h.len() == 0 {
        0
    } else {
        count_events(h.drop_last(), is_alloc, t) + (if h.last().0 == is_alloc && h.last().1 <= t {
            1int
        } else {
            0int
        })
    }
}

/// Sum of the timer values of events of the given kind recorded at timer
/// values at most `t`.
pub open spec fn sum_events(h: Seq<(bool, int)>, is_alloc: bool, t: int) -> int
    decreases h.len(),
{
    if h.len() == 0 {
        0
    } else {
        sum_events(h.drop_last(), is_alloc, t) + (if h.last().0 == is_alloc && h.last().1 <= t {
            h.last().1
        } else {
            0int
        })
    }
}

/// Appending one event changes the totals by exactly that event's
/// contribution.
pub proof fn lemma_events_snoc(h: Seq<(bool, int)>, e: (bool, int), is_alloc: bool, t: int)
    ensures
        count_events(h.push(e), is_alloc, t) == count_events(h, is_alloc, t) + (if e.0 == is_alloc
            && e.1 <= t {
            1int
        } else {
            0int
        }),
        sum_events(h.push(e), is_alloc, t) == sum_events(h, is_alloc, t) + (if e.0 == is_alloc
            && e.1 <= t {
            e.1
        } else {
            0int
        }),
{
    assert(h.push(e).drop_last() =~= h);
}

/// Event totals are monotone in the time bound.
pub proof fn lemma_count_mono(h: Seq<(bool, int)>, is_alloc: bool, t1: int, t2: int)
    requires
        t1 <= t2,
    ensures
        0 <= count_events(h, is_alloc, t1) <= count_events(h, is_alloc, t2) <= h.len(),
    decreases h.len(),
{
    if h.len() > 0 {
        lemma_count_mono(h.drop_last(), is_alloc, t1, t2);
    }
}

/// Once the bound covers every recorded timer value, the totals no longer
/// change.
pub proof fn lemma_count_clamp(h: Seq<(bool, int)>, is_alloc: bool, n: int, t: int)
    requires
        n <= t,
        forall|j: int| 0 <= j < h.len() ==> (#[trigger] h[j]).1 <= n,
    ensures
        count_events(h, is_alloc, t) == count_events(h, is_alloc, n),
        sum_events(h, is_alloc, t) == sum_events(h, is_alloc, n),
    decreases h.len(),
{
    if h.len() > 0 {
        assert(forall|j: int| 0 <= j < h.drop_last().len() ==> (#[trigger] h.drop_last()[j]).1
            <= n);
        lemma_count_clamp(h.drop_last(), is_alloc, n, t);
    }
}

/// The timer sum is bounded by the event count times the time bound.
pub proof fn lemma_sum_bounds(h: Seq<(bool, int)>, is_alloc: bool, t: int)
    requires
        t >= 0,
        forall|j: int| 0 <= j < h.len() ==> 0 <= (#[trigger] h[j]).1,
    ensures
        0 <= sum_events(h, is_alloc, t) <= count_events(h, is_alloc, t) * t,
    decreases h.len(),
{
    if h.len() > 0 {
        assert(forall|j: int|
            0 <= j < h.drop_last().len() ==> 0 <= (#[trigger] h.drop_last()[j]).1);
        lemma_sum_bounds(h.drop_last(), is_alloc, t);
        let c = count_events(h.drop_last(), is_alloc, t);
        assert((c + 1) * t == c * t + t) by (nonlinear_arith);
    }
}

/// The state of a liveness counter as seen in contracts: the timer, the
/// live-allocation total, the recorded event history and the contents of the
/// four running-total histograms.
pub struct LivenessView {
    pub n: int,
    pub m: int,
    pub events: Seq<(bool, int)>,
    pub alloc_counts: Seq<u64>,
    pub alloc_sum: Seq<u64>,
    pub free_counts: Seq<u64>,
    pub free_sum: Seq<u64>,
}

/// Numerator of the average live-object count over the window of length `k`
/// ending at the current timer, as read from the running-total histograms.
/// The denominator of the average is `i = n - k + 1`.
pub open spec fn spec_liveness_num(v: LivenessView, k: int) -> int {
    let i = v.n - k + 1;
    let tmp1 = (v.m - hist_at(v.free_counts, i)) * i + hist_at(v.free_sum, i);
    let tmp2 = hist_at(v.alloc_counts, k) * k + hist_at(v.alloc_sum, v.n) - hist_at(
        v.alloc_sum,
        k,
    );
    tmp1 + v.m * k - tmp2
}

/// The liveness value as an exact fraction: zero for a window reaching past
/// the start of history, else the formula numerator over `n - k + 1`.
pub open spec fn spec_liveness_ratio(v: LivenessView, k: int) -> Ratio {
    if k > v.n {
        Ratio { num: 0, den: 1 }
    } else {
        Ratio { num: spec_liveness_num(v, k) as i128, den: (v.n - k + 1) as i128 }
    }
}

/// Maintains running sums over allocation and free timestamps sufficient to
/// evaluate the average live-object count over any trailing window in
/// constant time.  Call `alloc` and `free` as the host performs those
/// operations and `inc_timer` to advance the clock.
pub struct LivenessCounter {
    n: usize,
    m: usize,
    alloc_sum: Histogram,
    alloc_counts: Histogram,
    free_sum: Histogram,
    free_counts: Histogram,
    events: Ghost<Seq<(bool, int)>>,
}

impl View for LivenessCounter {
    type V = LivenessView;

    closed spec fn view(&self) -> LivenessView {
        LivenessView {
            n: self.n as int,
            m: self.m as int,
            events: self.events@,
            alloc_counts: self.alloc_counts@,
            alloc_sum: self.alloc_sum@,
            free_counts: self.free_counts@,
            free_sum: self.free_sum@,
        }
    }
}

/// The running-total invariant over a counter state: for every timestamp
/// `t` up to the current timer, each histogram holds at `t` the number of
/// events of its kind recorded at timer values at most `t` (for the count
/// histograms), or the sum of those timer values (for the sum histograms);
/// `m` is the total number of allocations.
pub open spec fn liveness_inv(v: LivenessView) -> bool {
    &&& 0 <= v.n <= COUNTER_CAP
    &&& 0 <= v.m <= COUNTER_CAP
    &&& v.m == count_events(v.events, true, v.n)
    &&& count_events(v.events, false, v.n) <= COUNTER_CAP
    &&& forall|j: int| 0 <= j < v.events.len() ==> 0 <= (#[trigger] v.events[j]).1 <= v.n
    &&& v.alloc_counts.len() <= v.n + 1
    &&& v.alloc_sum.len() <= v.n + 1
    &&& v.free_counts.len() <= v.n + 1
    &&& v.free_sum.len() <= v.n + 1
    &&& forall|t: int|
        0 <= t <= v.n ==> #[trigger] hist_at(v.alloc_counts, t) == count_events(
            v.events,
            true,
            t,
        )
    &&& forall|t: int|
        0 <= t <= v.n ==> #[trigger] hist_at(v.alloc_sum, t) == sum_events(v.events, true, t)
    &&& forall|t: int|
        0 <= t <= v.n ==> #[trigger] hist_at(v.free_counts, t) == count_events(
            v.events,
            false,
            t,
        )
    &&& forall|t: int|
        0 <= t <= v.n ==> #[trigger] hist_at(v.free_sum, t) == sum_events(v.events, false, t)
}

impl LivenessCounter {
    /// The running-total invariant holds of the current state and the four
    /// histograms' own bookkeeping is coherent.
    pub open spec fn wf(self) -> bool {
        &&& liveness_inv(self@)
        &&& self.hists_ok()
    }

    /// The four histograms' written-key bookkeeping is coherent.
    pub closed spec fn hists_ok(self) -> bool {
        &&& self.alloc_sum.wf()
        &&& self.alloc_counts.wf()
        &&& self.free_sum.wf()
        &&& self.free_counts.wf()
    }

    /// A fresh counter with the timer at zero and no events.
    pub fn new() -> (c: LivenessCounter)
        ensures
            c.wf(),
            c@.n == 0,
            c@.m == 0,
            c@.events =~= Seq::<(bool, int)>::empty(),
    {
        LivenessCounter {
            n: 0,
            m: 0,
            alloc_sum: Histogram::new(),
            alloc_counts: Histogram::new(),
            free_sum: Histogram::new(),
            free_counts: Histogram::new(),
            events: Ghost(Seq::empty()),
        }
    }

    /// Records an allocation at the current timer value.
    pub fn record_alloc(&mut self)
        requires
            old(self).wf(),
            old(self)@.m < COUNTER_CAP,
        ensures
            final(self).wf(),
            final(self)@.n == old(self)@.n,
            final(self)@.m == old(self)@.m + 1,
            final(self)@.events == old(self)@.events.push((true, old(self)@.n)),
    {
        let n = self.n;
        proof {
            let v = old(self)@;
            lemma_sum_bounds(v.events, true, n as int);
            lemma_count_mono(v.events, true, n as int, n as int);
            assert(count_events(v.events, true, n as int) * n <= COUNTER_CAP * COUNTER_CAP)
                by (nonlinear_arith)
                requires
                    0 <= count_events(v.events, true, n as int) <= COUNTER_CAP,
                    0 <= n <= COUNTER_CAP,
            ;
        }
        self.alloc_sum.add(n, n as u64);
        self.alloc_counts.increment(n);
        self.m = self.m + 1;
        proof {
            self.events@ = self.events@.push((true, n as int));
        }
        proof {
            let v0 = old(self)@;
            let v1 = self@;
            let e = (true, v0.n);
            assert(v1.events == v0.events.push(e));
            assert forall|t: int|
                #![trigger hist_at(v1.alloc_counts, t)]
                #![trigger hist_at(v1.alloc_sum, t)]
                #![trigger hist_at(v1.free_counts, t)]
                #![trigger hist_at(v1.free_sum, t)]
                0 <= t <= v1.n implies {
                &&& hist_at(v1.alloc_counts, t) == count_events(v1.events, true, t)
                &&& hist_at(v1.alloc_sum, t) == sum_events(v1.events, true, t)
                &&& hist_at(v1.free_counts, t) == count_events(v1.events, false, t)
                &&& hist_at(v1.free_sum, t) == sum_events(v1.events, false, t)
            } by {
                lemma_events_snoc(v0.events, e, true, t);
                lemma_events_snoc(v0.events, e, false, t);
                if t != v1.n {
                    assert(hist_at(v1.alloc_counts, t) == hist_at(v0.alloc_counts, t));
                    assert(hist_at(v1.alloc_sum, t) == hist_at(v0.alloc_sum, t));
                }
            }
            lemma_events_snoc(v0.events, e, true, v1.n);
            lemma_events_snoc(v0.events, e, false, v1.n);
        }
    }

    /// Records a free at the current timer value.
    pub fn free(&mut self)
        requires
            old(self).wf(),
            count_events(old(self)@.events, false, old(self)@.n) < COUNTER_CAP,
        ensures
            final(self).wf(),
            final(self)@.n == old(self)@.n,
            final(self)@.m == old(self)@.m,
            final(self)@.events == old(self)@.events.push((false, old(self)@.n)),
    {
        let n = self.n;
        proof {
            let v = old(self)@;
            lemma_sum_bounds(v.events, false, n as int);
            lemma_count_mono(v.events, false, n as int, n as int);
            assert(count_events(v.events, false, n as int) * n <= COUNTER_CAP * COUNTER_CAP)
                by (nonlinear_arith)
                requires
                    0 <= count_events(v.events, false, n as int) <= COUNTER_CAP,
                    0 <= n <= COUNTER_CAP,
            ;
        }
        self.free_sum.add(n, n as u64);
        self.free_counts.increment(n);
        proof {
            self.events@ = self.events@.push((false, n as int));
        }
        proof {
            let v0 = old(self)@;
            let v1 = self@;
            let e = (false, v0.n);
            assert(v1.events == v0.events.push(e));
            assert forall|t: int|
                #![trigger hist_at(v1.alloc_counts, t)]
                #![trigger hist_at(v1.alloc_sum, t)]
                #![trigger hist_at(v1.free_counts, t)]
                #![trigger hist_at(v1.free_sum, t)]
                0 <= t <= v1.n implies {
                &&& hist_at(v1.alloc_counts, t) == count_events(v1.events, true, t)
                &&& hist_at(v1.alloc_sum, t) == sum_events(v1.events, true, t)
                &&& hist_at(v1.free_counts, t) == count_events(v1.events, false, t)
                &&& hist_at(v1.free_sum, t) == sum_events(v1.events, false, t)
            } by {
                lemma_events_snoc(v0.events, e, true, t);
                lemma_events_snoc(v0.events, e, false, t);
                if t != v1.n {
                    assert(hist_at(v1.free_counts, t) == hist_at(v0.free_counts, t));
                    assert(hist_at(v1.free_sum, t) == hist_at(v0.free_sum, t));
                }
            }
            lemma_events_snoc(v0.events, e, true, v1.n);
            lemma_events_snoc(v0.events, e, false, v1.n);
        }
    }

    /// Advances the timer by one and carries every running total forward to
    /// the new timestamp.
    pub fn inc_timer(&mut self)
        requires
            old(self).wf(),
            old(self)@.n < COUNTER_CAP,
        ensures
            final(self).wf(),
            final(self)@.n == old(self)@.n + 1,
            final(self)@.m == old(self)@.m,
            final(self)@.events == old(self)@.events,
    {
        proof {
            let v = old(self)@;
            lemma_count_mono(v.events, true, v.n, v.n);
            lemma_count_mono(v.events, false, v.n, v.n);
            lemma_sum_bounds(v.events, true, v.n);
            lemma_sum_bounds(v.events, false, v.n);
            assert(count_events(v.events, true, v.n) * v.n <= COUNTER_CAP * COUNTER_CAP)
                by (nonlinear_arith)
                requires
                    0 <= count_events(v.events, true, v.n) <= COUNTER_CAP,
                    0 <= v.n <= COUNTER_CAP,
            ;
            assert(count_events(v.events, false, v.n) * v.n <= COUNTER_CAP * COUNTER_CAP)
                by (nonlinear_arith)
                requires
                    0 <= count_events(v.events, false, v.n) <= COUNTER_CAP,
                    0 <= v.n <= COUNTER_CAP,
            ;
            lemma_count_clamp(v.events, true, v.n, v.n + 1);
            lemma_count_clamp(v.events, false, v.n, v.n + 1);
        }
        self.n = self.n + 1;
        let n = self.n;
        let ac = self.alloc_counts.get(n - 1);
        self.alloc_counts.add(n, ac);
        let asum = self.alloc_sum.get(n - 1);
        self.alloc_sum.add(n, asum);
        let fc = self.free_counts.get(n - 1);
        self.free_counts.add(n, fc);
        let fsum = self.free_sum.get(n - 1);
        self.free_sum.add(n, fsum);
        proof {
            let v0 = old(self)@;
            let v1 = self@;
            assert forall|t: int|
                #![trigger hist_at(v1.alloc_counts, t)]
                #![trigger hist_at(v1.alloc_sum, t)]
                #![trigger hist_at(v1.free_counts, t)]
                #![trigger hist_at(v1.free_sum, t)]
                0 <= t <= v1.n implies {
                &&& hist_at(v1.alloc_counts, t) == count_events(v1.events, true, t)
                &&& hist_at(v1.alloc_sum, t) == sum_events(v1.events, true, t)
                &&& hist_at(v1.free_counts, t) == count_events(v1.events, false, t)
                &&& hist_at(v1.free_sum, t) == sum_events(v1.events, false, t)
            } by {
                if t < v1.n {
                    assert(hist_at(v1.alloc_counts, t) == hist_at(v0.alloc_counts, t));
                } else {
                    lemma_count_clamp(v0.events, true, v0.n, v1.n);
                    lemma_count_clamp(v0.events, false, v0.n, v1.n);
                }
            }
        }
    }

    /// The average live-object count over the window of length `k` ending at
    /// the current timer, as the exact fraction
    /// `spec_liveness_num(self@, k) / (n - k + 1)`.  A window reaching past
    /// the start of history yields zero.
    pub fn liveness(&self, k: usize) -> (r: Ratio)
        requires
            self.wf(),
        ensures
            r.wf(),
            r == spec_liveness_ratio(self@, k as int),
            -(4 * COUNTER_CAP * (COUNTER_CAP + 1)) <= r.num <= 4 * COUNTER_CAP * (COUNTER_CAP
                + 1),
            k <= self@.n ==> r.den == self@.n - k + 1 && r.num == spec_liveness_num(
                self@,
                k as int,
            ),
    {
        if k > self.n {
            return Ratio::zero();
        }
        let i = self.n - k + 1;
        let m = self.m as i128;
        let fc = self.free_counts.get(i) as i128;
        let fs = self.free_sum.get(i) as i128;
        let ac_k = self.alloc_counts.get(k) as i128;
        let as_n = self.alloc_sum.get(self.n) as i128;
        let as_k = self.alloc_sum.get(k) as i128;
        proof {
            let v = self@;
            let cap = COUNTER_CAP as int;
            lemma_count_mono(v.events, true, k as int, v.n);
            lemma_count_mono(v.events, true, v.n, v.n);
            lemma_count_mono(v.events, false, v.n, v.n);
            lemma_sum_bounds(v.events, true, v.n);
            lemma_sum_bounds(v.events, true, k as int);
            if i <= self.n {
                lemma_count_mono(v.events, false, i as int, v.n);
                lemma_sum_bounds(v.events, false, i as int);
                assert(0 <= count_events(v.events, false, i as int) * i <= cap * (cap + 1))
                    by (nonlinear_arith)
                    requires
                        0 <= count_events(v.events, false, i as int) <= cap,
                        0 <= i <= cap + 1,
                        0 <= cap,
                ;
            } else {
                assert(fc == 0 && fs == 0);
            }
            assert(0 <= count_events(v.events, true, v.n) * v.n <= cap * cap)
                by (nonlinear_arith)
                requires
                    0 <= count_events(v.events, true, v.n) <= cap,
                    0 <= v.n <= cap,
            ;
            assert(0 <= count_events(v.events, true, k as int) * k <= cap * cap)
                by (nonlinear_arith)
                requires
                    0 <= count_events(v.events, true, k as int) <= cap,
                    0 <= k <= cap,
            ;
            assert(0 <= m <= cap && 0 <= fc <= cap && 0 <= ac_k <= cap);
            assert(0 <= fs <= cap * (cap + 1) && 0 <= as_n <= cap * cap && 0 <= as_k <= cap
                * cap);
            assert(-(cap * (cap + 1)) <= (m - fc) * (i as int) <= cap * (cap + 1))
                by (nonlinear_arith)
                requires
                    -cap <= m - fc <= cap,
                    0 <= i <= cap + 1,
                    0 <= cap,
            ;
            assert(0 <= ac_k * (k as int) <= cap * cap) by (nonlinear_arith)
                requires
                    0 <= ac_k <= cap,
                    0 <= k <= cap,
            ;
            assert(0 <= m * (k as int) <= cap * cap) by (nonlinear_arith)
                requires
                    0 <= m <= cap,
                    0 <= k <= cap,
            ;
        }
        let tmp1: i128 = (m - fc) * (i as i128) + fs;
        let tmp2: i128 = ac_k * (k as i128) + as_n - as_k;
        let num: i128 = tmp1 + m * (k as i128) - tmp2;
        Ratio { num, den: i as i128 }
    }

}

/// What the liveness formula means.  Take any pairing of the recorded
/// events into live intervals: each interval is the timer value of an
/// allocation together with the timer value of its free, or nothing for
/// an object still live.  If the pairing reproduces the recorded event
/// totals, then the formula numerator equals the number of (window,
/// interval) pairs in which the interval is live somewhere inside the
/// window, over the `n - k + 1` windows of length `k`; dividing by the
/// window count gives the average live-object count.  In particular the
/// numerator is non-negative whenever such a pairing exists (see
/// `lemma_total_window_live_nonneg`).
pub proof fn lemma_liveness_counts_overlaps(v: LivenessView, ivs: Seq<(int, Option<int>)>, k: int)
    requires
        liveness_inv(v),
        1 <= k <= v.n,
        intervals_cover(ivs, v.n),
        explains(ivs, v.events, v.n),
        ivs.len() == v.m,
    ensures
        spec_liveness_num(v, k) == total_window_live(ivs, k, v.n - k + 1),
{
    let n = v.n;
    let i = n - k + 1;
    lemma_total_live_is_sum_hits(ivs, k, i);
    lemma_sum_hits_decomp(ivs, k, n);
    lemma_minf_decomp(ivs, i);
    lemma_maxa_decomp(ivs, k, n);
}

/// No window overlaps a negative number of intervals.
proof fn lemma_live_window_count_nonneg(ivs: Seq<(int, Option<int>)>, w: int, k: int)
    ensures
        0 <= live_window_count(ivs, w, k),
    decreases ivs.len(),
{
    if ivs.len() > 0 {
        lemma_live_window_count_nonneg(ivs.drop_last(), w, k);
    }
}

/// The total overlap count over any number of windows is non-negative.
pub proof fn lemma_total_window_live_nonneg(ivs: Seq<(int, Option<int>)>, k: int, m: int)
    ensures
        0 <= total_window_live(ivs, k, m),
    decreases m,
{
    if m > 0 {
        lemma_total_window_live_nonneg(ivs, k, m - 1);
        lemma_live_window_count_nonneg(ivs, m, k);
    }
}

/// Whether the live interval `iv` overlaps the window of length `k`
/// starting at timer value `w`: the object is allocated no later than the
/// window's end and freed no earlier than its start.
pub open spec fn live_in_window(iv: (int, Option<int>), w: int, k: int) -> bool {
    iv.0 <= w + k - 1 && (match iv.1 {
        Some(f) => w <= f,
        None => true,
    })
}

/// Number of intervals of `ivs` live somewhere inside the window of length
/// `k` starting at `w`.
pub open spec fn live_window_count(ivs: Seq<(int, Option<int>)>, w: int, k: int) -> int
    decreases ivs.len(),
{
    if ivs.len() == 0 {
        0
    } else {
        live_window_count(ivs.drop_last(), w, k) + (if live_in_window(ivs.last(), w, k) {
            1int
        } else {
            0int
        })
    }
}

/// Total overlap count over the windows starting at `w = 1 .. m`.
pub open spec fn total_window_live(ivs: Seq<(int, Option<int>)>, k: int, m: int) -> int
    decreases m,
{
    if m <= 0 {
        0
    } else {
        total_window_live(ivs, k, m - 1) + live_window_count(ivs, m, k)
    }
}

/// Number of windows among those starting at `w = 1 .. m` that one
/// interval overlaps.
pub open spec fn live_hits(iv: (int, Option<int>), k: int, m: int) -> int
    decreases m,
{
    if m <= 0 {
        0
    } else {
        live_hits(iv, k, m - 1) + (if live_in_window(iv, m, k) {
            1int
        } else {
            0int
        })
    }
}

/// Sum of `live_hits` over all intervals.
pub open spec fn sum_live_hits(ivs: Seq<(int, Option<int>)>, k: int, m: int) -> int
    decreases ivs.len(),
{
    if ivs.len() == 0 {
        0
    } else {
        sum_live_hits(ivs.drop_last(), k, m) + live_hits(ivs.last(), k, m)
    }
}

/// Number of intervals allocated at timer values at most `t`.
pub open spec fn count_allocs_iv(ivs: Seq<(int, Option<int>)>, t: int) -> int
    decreases ivs.len(),
{
    if ivs.len() == 0 {
        0
    } else {
        count_allocs_iv(ivs.drop_last(), t) + (if ivs.last().0 <= t {
            1int
        } else {
            0int
        })
    }
}

/// Sum of the allocation timer values at most `t`.
pub open spec fn sum_allocs_iv(ivs: Seq<(int, Option<int>)>, t: int) -> int
    decreases ivs.len(),
{
    if ivs.len() == 0 {
        0
    } else {
        sum_allocs_iv(ivs.drop_last(), t) + (if ivs.last().0 <= t {
            ivs.last().0
        } else {
            0int
        })
    }
}

/// Number of intervals freed at timer values at most `t`.
pub open spec fn count_frees_iv(ivs: Seq<(int, Option<int>)>, t: int) -> int
    decreases ivs.len(),
{
    if ivs.len() == 0 {
        0
    } else {
        count_frees_iv(ivs.drop_last(), t) + (match ivs.last().1 {
            Some(f) => if f <= t {
                1int
            } else {
                0int
            },
            None => 0int,
        })
    }
}

/// Sum of the free timer values at most `t`.
pub open spec fn sum_frees_iv(ivs: Seq<(int, Option<int>)>, t: int) -> int
    decreases ivs.len(),
{
    if ivs.len() == 0 {
        0
    } else {
        sum_frees_iv(ivs.drop_last(), t) + (match ivs.last().1 {
            Some(f) => if f <= t {
                f
            } else {
                0int
            },
            None => 0int,
        })
    }
}

/// Sum of the free times clamped at `i`, an object still live counting as
/// `i`.
pub open spec fn minf_sum(ivs: Seq<(int, Option<int>)>, i: int) -> int
    decreases ivs.len(),
{
    if ivs.len() == 0 {
        0
    } else {
        minf_sum(ivs.drop_last(), i) + (match ivs.last().1 {
            Some(f) => if f <= i {
                f
            } else {
                i
            },
            None => i,
        })
    }
}

/// Sum of the allocation times clamped below at `k`.
pub open spec fn maxa_sum(ivs: Seq<(int, Option<int>)>, k: int) -> int
    decreases ivs.len(),
{
    if ivs.len() == 0 {
        0
    } else {
        maxa_sum(ivs.drop_last(), k) + (if ivs.last().0 <= k {
            k
        } else {
            ivs.last().0
        })
    }
}

/// Every interval is allocated within the history and freed, if at all, no
/// earlier than its allocation and within the history.
pub open spec fn intervals_cover(ivs: Seq<(int, Option<int>)>, n: int) -> bool {
    forall|j: int|
        0 <= j < ivs.len() ==> {
            &&& 0 <= (#[trigger] ivs[j]).0 <= n
            &&& match ivs[j].1 {
                Some(f) => ivs[j].0 <= f <= n,
                None => true,
            }
        }
}

/// The interval pairing reproduces the recorded event totals at every
/// timer value.
pub open spec fn explains(ivs: Seq<(int, Option<int>)>, h: Seq<(bool, int)>, n: int) -> bool {
    forall|t: int|
        #![trigger count_allocs_iv(ivs, t)]
        #![trigger count_frees_iv(ivs, t)]
        #![trigger sum_allocs_iv(ivs, t)]
        #![trigger sum_frees_iv(ivs, t)]
        0 <= t <= n ==> {
            &&& count_allocs_iv(ivs, t) == count_events(h, true, t)
            &&& sum_allocs_iv(ivs, t) == sum_events(h, true, t)
            &&& count_frees_iv(ivs, t) == count_events(h, false, t)
            &&& sum_frees_iv(ivs, t) == sum_events(h, false, t)
        }
}

/// The cover bounds restrict to a prefix.
proof fn lemma_cover_drop_last(ivs: Seq<(int, Option<int>)>, n: int)
    requires
        intervals_cover(ivs, n),
        ivs.len() > 0,
    ensures
        intervals_cover(ivs.drop_last(), n),
{
    assert forall|j: int| 0 <= j < ivs.drop_last().len() implies {
        &&& 0 <= (#[trigger] ivs.drop_last()[j]).0 <= n
        &&& match ivs.drop_last()[j].1 {
            Some(f) => ivs.drop_last()[j].0 <= f <= n,
            None => true,
        }
    } by {
        assert(ivs.drop_last()[j] == ivs[j]);
    }
}

/// Appending one interval adds its indicator to every window count.
proof fn lemma_live_count_push(ivs: Seq<(int, Option<int>)>, iv: (int, Option<int>), w: int, k: int)
    ensures
        live_window_count(ivs.push(iv), w, k) == live_window_count(ivs, w, k) + (if live_in_window(
            iv,
            w,
            k,
        ) {
            1int
        } else {
            0int
        }),
{
    assert(ivs.push(iv).drop_last() =~= ivs);
}

/// Appending one interval adds its window hits to the total.
proof fn lemma_total_live_push(ivs: Seq<(int, Option<int>)>, iv: (int, Option<int>), k: int, m: int)
    ensures
        total_window_live(ivs.push(iv), k, m) == total_window_live(ivs, k, m) + live_hits(
            iv,
            k,
            m,
        ),
    decreases m,
{
    if m > 0 {
        lemma_total_live_push(ivs, iv, k, m - 1);
        lemma_live_count_push(ivs, iv, m, k);
    }
}

/// With no intervals, no window overlaps anything.
proof fn lemma_total_live_empty(k: int, m: int)
    ensures
        total_window_live(Seq::<(int, Option<int>)>::empty(), k, m) == 0,
    decreases m,
{
    if m > 0 {
        lemma_total_live_empty(k, m - 1);
    }
}

/// The total over all windows equals the sum of per-interval hits.
proof fn lemma_total_live_is_sum_hits(ivs: Seq<(int, Option<int>)>, k: int, m: int)
    ensures
        total_window_live(ivs, k, m) == sum_live_hits(ivs, k, m),
    decreases ivs.len(),
{
    if ivs.len() == 0 {
        assert(ivs =~= Seq::<(int, Option<int>)>::empty());
        lemma_total_live_empty(k, m);
    } else {
        let dl = ivs.drop_last();
        lemma_total_live_is_sum_hits(dl, k, m);
        assert(dl.push(ivs.last()) =~= ivs);
        lemma_total_live_push(dl, ivs.last(), k, m);
    }
}

/// Closed form for the number of windows among the first `m` that one
/// interval overlaps.
proof fn lemma_live_hits_closed(iv: (int, Option<int>), k: int, m: int)
    requires
        1 <= k,
        0 <= m,
        0 <= iv.0,
        match iv.1 {
            Some(f) => iv.0 <= f,
            None => true,
        },
    ensures
        live_hits(iv, k, m) == {
            let lo = if iv.0 - k + 1 <= 1 {
                1int
            } else {
                iv.0 - k + 1
            };
            let hi = match iv.1 {
                Some(f) => if f <= m {
                    f
                } else {
                    m
                },
                None => m,
            };
            if hi >= lo {
                hi - lo + 1
            } else {
                0int
            }
        },
    decreases m,
{
    if m > 0 {
        lemma_live_hits_closed(iv, k, m - 1);
    }
}

/// The per-interval hits over the `n - k + 1` windows sum to the clamped
/// endpoint sums: `minf_sum - maxa_sum + |ivs| * k`.
proof fn lemma_sum_hits_decomp(ivs: Seq<(int, Option<int>)>, k: int, n: int)
    requires
        1 <= k <= n,
        intervals_cover(ivs, n),
    ensures
        sum_live_hits(ivs, k, n - k + 1) == minf_sum(ivs, n - k + 1) - maxa_sum(ivs, k)
            + ivs.len() * k,
    decreases ivs.len(),
{
    let i = n - k + 1;
    if ivs.len() > 0 {
        lemma_cover_drop_last(ivs, n);
        lemma_sum_hits_decomp(ivs.drop_last(), k, n);
        let iv = ivs.last();
        lemma_live_hits_closed(iv, k, i);
        let c = ivs.len() - 1;
        assert((c + 1) * k == c * k + k) by (nonlinear_arith);
    }
}

/// The clamped free-time sum is what the free histograms record: the frees
/// by time `i` contribute their own times, the rest contribute `i`.
proof fn lemma_minf_decomp(ivs: Seq<(int, Option<int>)>, i: int)
    requires
        0 <= i,
    ensures
        minf_sum(ivs, i) == sum_frees_iv(ivs, i) + (ivs.len() - count_frees_iv(ivs, i)) * i,
    decreases ivs.len(),
{
    if ivs.len() == 0 {
        assert(minf_sum(ivs, i) == 0);
        assert(sum_frees_iv(ivs, i) == 0);
        assert(count_frees_iv(ivs, i) == 0);
        assert((ivs.len() - count_frees_iv(ivs, i)) * i == 0) by (nonlinear_arith)
            requires
                ivs.len() == 0,
                count_frees_iv(ivs, i) == 0,
        ;
    } else {
        let dl = ivs.drop_last();
        lemma_minf_decomp(dl, i);
        let c = dl.len() - count_frees_iv(dl, i);
        assert((c + 1) * i == c * i + i) by (nonlinear_arith);
        match ivs.last().1 {
            Some(f) => {
                if f <= i {
                    assert(minf_sum(ivs, i) == minf_sum(dl, i) + f);
                    assert(sum_frees_iv(ivs, i) == sum_frees_iv(dl, i) + f);
                    assert(count_frees_iv(ivs, i) == count_frees_iv(dl, i) + 1);
                    assert(ivs.len() - count_frees_iv(ivs, i) == c);
                } else {
                    assert(minf_sum(ivs, i) == minf_sum(dl, i) + i);
                    assert(sum_frees_iv(ivs, i) == sum_frees_iv(dl, i));
                    assert(ivs.len() - count_frees_iv(ivs, i) == c + 1);
                }
            },
            None => {
                assert(minf_sum(ivs, i) == minf_sum(dl, i) + i);
                assert(sum_frees_iv(ivs, i) == sum_frees_iv(dl, i));
                assert(ivs.len() - count_frees_iv(ivs, i) == c + 1);
            },
        }
    }
}

/// The clamped allocation-time sum is what the allocation histograms
/// record: the allocations by time `k` contribute `k`, the rest their own
/// times.
proof fn lemma_maxa_decomp(ivs: Seq<(int, Option<int>)>, k: int, n: int)
    requires
        k <= n,
        intervals_cover(ivs, n),
    ensures
        maxa_sum(ivs, k) == count_allocs_iv(ivs, k) * k + sum_allocs_iv(ivs, n) - sum_allocs_iv(
            ivs,
            k,
        ),
    decreases ivs.len(),
{
    if ivs.len() > 0 {
        lemma_cover_drop_last(ivs, n);
        lemma_maxa_decomp(ivs.drop_last(), k, n);
        let c = count_allocs_iv(ivs.drop_last(), k);
        assert((c + 1) * k == c * k + k) by (nonlinear_arith);
    }
}

} // verus!
