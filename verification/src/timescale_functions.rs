use vstd::prelude::*;

use crate::constants::COUNTER_CAP;
use crate::ratio::Ratio;
use crate::trace::Event;
use crate::trace::Trace;
use crate::trace::alloc_count_of;
use crate::trace::lemma_alloc_count_le_len;
use crate::trace::lemma_free_intervals_bounds;
use crate::trace::spec_free_intervals;

verus! {

/// The smaller of two integers.
pub open spec fn imin(a: int, b: int) -> int {
    if a <= b {
        a
    } else {
        b
    }
}

/// The larger of two integers.
pub open spec fn imax(a: int, b: int) -> int {
    if a <= b {
        b
    } else {
        a
    }
}

/// Every interval starts strictly before it ends and ends within the
/// allocation clock range of the trace.
pub open spec fn intervals_ok(ivs: Seq<(usize, usize)>, n: int) -> bool {
    forall|j: int| 0 <= j < ivs.len() ==> (#[trigger] ivs[j]).0 < ivs[j].1 <= n
}

/// Whether the free interval `iv` lies fully inside the window of `k`
/// consecutive allocations starting at allocation clock `w`: the block is
/// freed no earlier than clock `w` and reused no later than clock `w + k`.
pub open spec fn contained(iv: (usize, usize), w: int, k: int) -> bool {
    w <= iv.0 && iv.1 <= w + k
}

/// Number of intervals of `ivs` fully contained in the window of length `k`
/// starting at clock `w`.
pub open spec fn window_count(ivs: Seq<(usize, usize)>, w: int, k: int) -> int
    decreases ivs.len(),
{
    if ivs.len() == 0 {
        0
    } else {
        window_count(ivs.drop_last(), w, k) + (if contained(ivs.last(), w, k) {
            1int
        } else {
            0int
        })
    }
}

/// Total containment count over the first `m` windows `w = 0 .. m - 1`.
pub open spec fn total_contained(ivs: Seq<(usize, usize)>, k: int, m: int) -> int
    decreases m,
{
    if m <= 0 {
        0
    } else {
        total_contained(ivs, k, m - 1) + window_count(ivs, m - 1, k)
    }
}

/// The reuse value R(k) of a trace, as an exact fraction: the average over
/// the `n - k + 1` windows of `k` consecutive allocations of the number of
/// free intervals fully contained in the window, where `n` is the trace's
/// allocation count.
pub open spec fn spec_reuse_entry(evs: Seq<Event>, k: int) -> Ratio {
    let n = alloc_count_of(evs);
    let ivs = spec_free_intervals(evs);
    Ratio { num: total_contained(ivs, k, n - k + 1) as i128, den: (n - k + 1) as i128 }
}

/// The reuse table of a trace: entry `k - 1` holds R(k), for `k` in `1..=n`.
pub open spec fn spec_reuse_table(evs: Seq<Event>) -> Seq<Ratio> {
    Seq::new(alloc_count_of(evs) as nat, |j: int| spec_reuse_entry(evs, j + 1))
}

/// Number of windows of length `k` out of the `n - k + 1` windows of the
/// trace that fully contain `iv`, in closed form.
pub open spec fn interval_count(iv: (usize, usize), k: int, n: int) -> int {
    if iv.1 - iv.0 <= k {
        imin(n - k, iv.0 as int) - imax(k, iv.1 as int) + k + 1
    } else {
        0
    }
}

/// Sum of `interval_count` over all intervals.
pub open spec fn sum_interval_counts(ivs: Seq<(usize, usize)>, k: int, n: int) -> int
    decreases ivs.len(),
{
    if ivs.len() == 0 {
        0
    } else {
        sum_interval_counts(ivs.drop_last(), k, n) + interval_count(ivs.last(), k, n)
    }
}

/// X(k): the sum of `min(n - k, s)` over the intervals of length at most `k`.
pub open spec fn xsum(ivs: Seq<(usize, usize)>, k: int, n: int) -> int
    decreases ivs.len(),
{
    if ivs.len() == 0 {
        0
    } else {
        xsum(ivs.drop_last(), k, n) + (if ivs.last().1 - ivs.last().0 <= k {
            imin(n - k, ivs.last().0 as int)
        } else {
            0int
        })
    }
}

/// Y(k): the sum of `max(k, e)` over the intervals of length at most `k`.
pub open spec fn ysum(ivs: Seq<(usize, usize)>, k: int) -> int
    decreases ivs.len(),
{
    if ivs.len() == 0 {
        0
    } else {
        ysum(ivs.drop_last(), k) + (if ivs.last().1 - ivs.last().0 <= k {
            imax(k, ivs.last().1 as int)
        } else {
            0int
        })
    }
}

/// Z(k): the sum of `k + 1` over the intervals of length at most `k`.
pub open spec fn zsum(ivs: Seq<(usize, usize)>, k: int) -> int
    decreases ivs.len(),
{
    if ivs.len() == 0 {
        0
    } else {
        zsum(ivs.drop_last(), k) + (if ivs.last().1 - ivs.last().0 <= k {
            k + 1
        } else {
            0int
        })
    }
}

/// Number of intervals whose start clock equals `v`.
pub open spec fn count_s_eq(ivs: Seq<(usize, usize)>, v: int) -> int
    decreases ivs.len(),
{
    if ivs.len() == 0 {
        0
    } else {
        count_s_eq(ivs.drop_last(), v) + (if ivs.last().0 == v {
            1int
        } else {
            0int
        })
    }
}

/// Number of intervals whose start clock is at least `v`.
pub open spec fn count_s_ge(ivs: Seq<(usize, usize)>, v: int) -> int
    decreases ivs.len(),
{
    if ivs.len() == 0 {
        0
    } else {
        count_s_ge(ivs.drop_last(), v) + (if ivs.last().0 >= v {
            1int
        } else {
            0int
        })
    }
}

/// Number of intervals whose end clock equals `v`.
pub open spec fn count_e_eq(ivs: Seq<(usize, usize)>, v: int) -> int
    decreases ivs.len(),
{
    if ivs.len() == 0 {
        0
    } else {
        count_e_eq(ivs.drop_last(), v) + (if ivs.last().1 == v {
            1int
        } else {
            0int
        })
    }
}

/// Number of intervals whose end clock is at most `v`.
pub open spec fn count_e_le(ivs: Seq<(usize, usize)>, v: int) -> int
    decreases ivs.len(),
{
    if ivs.len() == 0 {
        0
    } else {
        count_e_le(ivs.drop_last(), v) + (if ivs.last().1 <= v {
            1int
        } else {
            0int
        })
    }
}

/// Number of intervals whose length `e - s` equals `l`.
pub open spec fn count_len_eq(ivs: Seq<(usize, usize)>, l: int) -> int
    decreases ivs.len(),
{
    if ivs.len() == 0 {
        0
    } else {
        count_len_eq(ivs.drop_last(), l) + (if ivs.last().1 - ivs.last().0 == l {
            1int
        } else {
            0int
        })
    }
}

/// Number of intervals whose length `e - s` is at most `l`.
pub open spec fn count_len_le(ivs: Seq<(usize, usize)>, l: int) -> int
    decreases ivs.len(),
{
    if ivs.len() == 0 {
        0
    } else {
        count_len_le(ivs.drop_last(), l) + (if ivs.last().1 - ivs.last().0 <= l {
            1int
        } else {
            0int
        })
    }
}

/// Sum of `min(n - k, s)` over the intervals of length exactly `k`.
pub open spec fn minsum_eq(ivs: Seq<(usize, usize)>, k: int, n: int) -> int
    decreases ivs.len(),
{
    if ivs.len() == 0 {
        0
    } else {
        minsum_eq(ivs.drop_last(), k, n) + (if ivs.last().1 - ivs.last().0 == k {
            imin(n - k, ivs.last().0 as int)
        } else {
            0int
        })
    }
}

/// Sum of `max(k, e)` over the intervals of length exactly `k`.
pub open spec fn maxsum_eq(ivs: Seq<(usize, usize)>, k: int) -> int
    decreases ivs.len(),
{
    if ivs.len() == 0 {
        0
    } else {
        maxsum_eq(ivs.drop_last(), k) + (if ivs.last().1 - ivs.last().0 == k {
            imax(k, ivs.last().1 as int)
        } else {
            0int
        })
    }
}

/// Number of windows among `w = 0 .. m - 1` of length `k` containing `iv`.
pub open spec fn prefix_window_hits(iv: (usize, usize), k: int, m: int) -> int
    decreases m,
{
    if m <= 0 {
        0
    } else {
        prefix_window_hits(iv, k, m - 1) + (if contained(iv, m - 1, k) {
            1int
        } else {
            0int
        })
    }
}

/// A restriction of interval bounds to a prefix.
proof fn lemma_ok_drop_last(ivs: Seq<(usize, usize)>, n: int)
    requires
        intervals_ok(ivs, n),
        ivs.len() > 0,
    ensures
        intervals_ok(ivs.drop_last(), n),
{
    assert forall|j: int|
        0 <= j < ivs.drop_last().len() implies (#[trigger] ivs.drop_last()[j]).0
        < ivs.drop_last()[j].1 <= n by {
        assert(ivs.drop_last()[j] == ivs[j]);
    }
}

/// Appending one interval adds its containment indicator to every window
/// count.
proof fn lemma_window_count_push(ivs: Seq<(usize, usize)>, iv: (usize, usize), w: int, k: int)
    ensures
        window_count(ivs.push(iv), w, k) == window_count(ivs, w, k) + (if contained(iv, w, k) {
            1int
        } else {
            0int
        }),
{
    assert(ivs.push(iv).drop_last() =~= ivs);
}

/// Appending one interval adds its window hits to the total.
proof fn lemma_total_push(ivs: Seq<(usize, usize)>, iv: (usize, usize), k: int, m: int)
    ensures
        total_contained(ivs.push(iv), k, m) == total_contained(ivs, k, m) + prefix_window_hits(
            iv,
            k,
            m,
        ),
    decreases m,
{
    if m > 0 {
        lemma_total_push(ivs, iv, k, m - 1);
        lemma_window_count_push(ivs, iv, m - 1, k);
    }
}

/// Closed form for the number of windows among the first `m` that contain an
/// interval.
proof fn lemma_prefix_hits_closed(iv: (usize, usize), k: int, m: int)
    requires
        1 <= k,
        0 <= m,
        iv.0 < iv.1,
    ensures
        prefix_window_hits(iv, k, m) == (if imax(0, iv.1 - k) <= imin(m - 1, iv.0 as int) {
            imin(m - 1, iv.0 as int) - imax(0, iv.1 - k) + 1
        } else {
            0int
        }),
    decreases m,
{
    if m > 0 {
        lemma_prefix_hits_closed(iv, k, m - 1);
    }
}

/// The total over all windows equals the sum of per-interval closed forms.
proof fn lemma_total_is_sum(ivs: Seq<(usize, usize)>, k: int, n: int)
    requires
        1 <= k <= n,
        intervals_ok(ivs, n),
    ensures
        total_contained(ivs, k, n - k + 1) == sum_interval_counts(ivs, k, n),
    decreases ivs.len(),
{
    let m = n - k + 1;
    if ivs.len() == 0 {
        assert(ivs =~= Seq::<(usize, usize)>::empty());
        lemma_total_empty(k, m);
    } else {
        let dl = ivs.drop_last();
        let iv = ivs.last();
        lemma_ok_drop_last(ivs, n);
        lemma_total_is_sum(dl, k, n);
        assert(dl.push(iv) =~= ivs);
        lemma_total_push(dl, iv, k, m);
        lemma_prefix_hits_closed(iv, k, m);
        let s = iv.0 as int;
        let e = iv.1 as int;
        if e - s <= k {
            assert(imax(0, e - k) <= imin(m - 1, s));
            assert(imax(0, e - k) == imax(k, e) - k);
            assert(prefix_window_hits(iv, k, m) == interval_count(iv, k, n));
        } else {
            assert(imax(0, e - k) > imin(m - 1, s));
            assert(prefix_window_hits(iv, k, m) == 0);
        }
    }
}

/// With no intervals, no window contains anything.
proof fn lemma_total_empty(k: int, m: int)
    ensures
        total_contained(Seq::<(usize, usize)>::empty(), k, m) == 0,
    decreases m,
{
    if m > 0 {
        lemma_total_empty(k, m - 1);
    }
}

/// Predicate decomposition: the per-interval containment counts sum to
/// X(k) + Z(k) - Y(k).
proof fn lemma_sum_decomposition(ivs: Seq<(usize, usize)>, k: int, n: int)
    requires
        1 <= k <= n,
        intervals_ok(ivs, n),
    ensures
        sum_interval_counts(ivs, k, n) == xsum(ivs, k, n) + zsum(ivs, k) - ysum(ivs, k),
    decreases ivs.len(),
{
    if ivs.len() > 0 {
        lemma_ok_drop_last(ivs, n);
        lemma_sum_decomposition(ivs.drop_last(), k, n);
    }
}

/// Step recurrence for X: going from window length `k - 1` to `k`, the
/// intervals of length exactly `k` join with their `min(n - k, s)` term, and
/// every interval whose start is in the last `k - 1` clock positions loses
/// one from its clamped minimum.
proof fn lemma_xsum_step(ivs: Seq<(usize, usize)>, k: int, n: int)
    requires
        2 <= k <= n,
        intervals_ok(ivs, n),
    ensures
        xsum(ivs, k, n) == xsum(ivs, k - 1, n) + minsum_eq(ivs, k, n) - count_s_ge(
            ivs,
            n - k + 1,
        ),
    decreases ivs.len(),
{
    if ivs.len() > 0 {
        lemma_ok_drop_last(ivs, n);
        lemma_xsum_step(ivs.drop_last(), k, n);
        let iv = ivs.last();
        let s = iv.0 as int;
        let e = iv.1 as int;
        assert(s < e <= n);
        if e - s > k - 1 && s >= n - k + 1 {
            assert(e >= s + k >= n + 1);
            assert(false);
        }
    }
}

/// Step recurrence for Y: the intervals of length exactly `k` join with
/// their `max(k, e)` term, and every interval ending by clock `k - 1` gains
/// one from its clamped maximum.
proof fn lemma_ysum_step(ivs: Seq<(usize, usize)>, k: int, n: int)
    requires
        2 <= k <= n,
        intervals_ok(ivs, n),
    ensures
        ysum(ivs, k) == ysum(ivs, k - 1) + maxsum_eq(ivs, k) + count_e_le(ivs, k - 1),
    decreases ivs.len(),
{
    if ivs.len() > 0 {
        lemma_ok_drop_last(ivs, n);
        lemma_ysum_step(ivs.drop_last(), k, n);
        let iv = ivs.last();
        let s = iv.0 as int;
        let e = iv.1 as int;
        assert(s < e <= n);
        if e - s > k - 1 && e <= k - 1 {
            assert(s < 0);
            assert(false);
        }
    }
}

/// Step recurrence for Z: the intervals of length exactly `k` join with the
/// term `k + 1`, and every shorter interval gains one.
proof fn lemma_zsum_step(ivs: Seq<(usize, usize)>, k: int, n: int)
    requires
        2 <= k <= n,
        intervals_ok(ivs, n),
    ensures
        zsum(ivs, k) == zsum(ivs, k - 1) + (k + 1) * count_len_eq(ivs, k) + count_len_le(
            ivs,
            k - 1,
        ),
    decreases ivs.len(),
{
    if ivs.len() > 0 {
        lemma_ok_drop_last(ivs, n);
        lemma_zsum_step(ivs.drop_last(), k, n);
        let c = count_len_eq(ivs.drop_last(), k);
        assert((k + 1) * (c + 1) == (k + 1) * c + (k + 1)) by (nonlinear_arith);
    }
}

/// At window length 1 the cumulative sums coincide with the length-exactly-1
/// aggregates, since every interval has length at least 1.
proof fn lemma_sums_base(ivs: Seq<(usize, usize)>, n: int)
    requires
        1 <= n,
        intervals_ok(ivs, n),
    ensures
        xsum(ivs, 1, n) == minsum_eq(ivs, 1, n),
        ysum(ivs, 1) == maxsum_eq(ivs, 1),
        zsum(ivs, 1) == 2 * count_len_eq(ivs, 1),
    decreases ivs.len(),
{
    if ivs.len() > 0 {
        lemma_ok_drop_last(ivs, n);
        lemma_sums_base(ivs.drop_last(), n);
    }
}

/// No interval starts at or beyond clock `n`, ends by clock 0, or is shorter
/// than one allocation.
proof fn lemma_prefix_bases(ivs: Seq<(usize, usize)>, n: int)
    requires
        intervals_ok(ivs, n),
    ensures
        count_s_ge(ivs, n) == 0,
        count_e_le(ivs, 0) == 0,
        count_len_le(ivs, 0) == 0,
    decreases ivs.len(),
{
    if ivs.len() > 0 {
        lemma_ok_drop_last(ivs, n);
        lemma_prefix_bases(ivs.drop_last(), n);
    }
}

/// Counting starts at least `v` splits into exactly `v` and at least `v + 1`.
proof fn lemma_s_ge_step(ivs: Seq<(usize, usize)>, v: int)
    ensures
        count_s_ge(ivs, v) == count_s_ge(ivs, v + 1) + count_s_eq(ivs, v),
    decreases ivs.len(),
{
    if ivs.len() > 0 {
        lemma_s_ge_step(ivs.drop_last(), v);
    }
}

/// Counting ends at most `v` splits into at most `v - 1` and exactly `v`.
proof fn lemma_e_le_step(ivs: Seq<(usize, usize)>, v: int)
    ensures
        count_e_le(ivs, v) == count_e_le(ivs, v - 1) + count_e_eq(ivs, v),
    decreases ivs.len(),
{
    if ivs.len() > 0 {
        lemma_e_le_step(ivs.drop_last(), v);
    }
}

/// Counting lengths at most `l` splits into at most `l - 1` and exactly `l`.
proof fn lemma_len_le_step(ivs: Seq<(usize, usize)>, l: int)
    ensures
        count_len_le(ivs, l) == count_len_le(ivs, l - 1) + count_len_eq(ivs, l),
    decreases ivs.len(),
{
    if ivs.len() > 0 {
        lemma_len_le_step(ivs.drop_last(), l);
    }
}

/// All point counts lie between zero and the number of intervals.
proof fn lemma_counts_bounds(ivs: Seq<(usize, usize)>, v: int)
    ensures
        0 <= count_s_eq(ivs, v) <= ivs.len(),
        0 <= count_s_ge(ivs, v) <= ivs.len(),
        0 <= count_e_eq(ivs, v) <= ivs.len(),
        0 <= count_e_le(ivs, v) <= ivs.len(),
        0 <= count_len_eq(ivs, v) <= ivs.len(),
        0 <= count_len_le(ivs, v) <= ivs.len(),
    decreases ivs.len(),
{
    if ivs.len() > 0 {
        lemma_counts_bounds(ivs.drop_last(), v);
    }
}

/// All aggregate sums lie between zero and `|ivs| * n` (or `|ivs| * (n + 1)`
/// for Z, whose terms are `k + 1`).
proof fn lemma_sums_bounds(ivs: Seq<(usize, usize)>, k: int, n: int)
    requires
        1 <= k <= n,
        intervals_ok(ivs, n),
    ensures
        0 <= minsum_eq(ivs, k, n) <= ivs.len() * n,
        0 <= maxsum_eq(ivs, k) <= ivs.len() * n,
        0 <= xsum(ivs, k, n) <= ivs.len() * n,
        0 <= ysum(ivs, k) <= ivs.len() * n,
        0 <= zsum(ivs, k) <= ivs.len() * (n + 1),
    decreases ivs.len(),
{
    if ivs.len() > 0 {
        lemma_ok_drop_last(ivs, n);
        lemma_sums_bounds(ivs.drop_last(), k, n);
        let c = ivs.len() - 1;
        assert((c + 1) * n == c * n + n) by (nonlinear_arith);
        assert((c + 1) * (n + 1) == c * (n + 1) + (n + 1)) by (nonlinear_arith);
    }
}

/// A window never contains more intervals than exist, and the total over
/// `m` windows is at most `m * |ivs|`.
proof fn lemma_total_bounds(ivs: Seq<(usize, usize)>, k: int, m: int)
    requires
        0 <= m,
    ensures
        0 <= total_contained(ivs, k, m) <= m * ivs.len(),
    decreases m,
{
    if m > 0 {
        lemma_total_bounds(ivs, k, m - 1);
        lemma_window_bounds(ivs, m - 1, k);
        assert(m * ivs.len() == (m - 1) * ivs.len() + ivs.len()) by (nonlinear_arith);
    }
}

/// A single window contains between zero and `|ivs|` intervals.
proof fn lemma_window_bounds(ivs: Seq<(usize, usize)>, w: int, k: int)
    ensures
        0 <= window_count(ivs, w, k) <= ivs.len(),
    decreases ivs.len(),
{
    if ivs.len() > 0 {
        lemma_window_bounds(ivs.drop_last(), w, k);
    }
}

/// The predicate decomposition behind the linear reduction: for every
/// window length, the total number of (window, interval) containments over
/// all `n - k + 1` windows equals `X(k) + Z(k) - Y(k)`.  The windowed
/// reference reduction computes the left-hand side and the fast reduction
/// computes the right-hand side, so the two emit the same table.
pub proof fn lemma_predicate_decomposition(ivs: Seq<(usize, usize)>, k: int, n: int)
    requires
        1 <= k <= n,
        intervals_ok(ivs, n),
    ensures
        total_contained(ivs, k, n - k + 1) == xsum(ivs, k, n) + zsum(ivs, k) - ysum(ivs, k),
{
    lemma_total_is_sum(ivs, k, n);
    lemma_sum_decomposition(ivs, k, n);
}

/// Every entry of a reuse table is a well-formed fraction: the denominator
/// is the window count for its `k`, and the numerator is a containment count
/// between zero and that window count times the table length.
pub open spec fn table_ok(tb: Seq<Ratio>) -> bool {
    &&& tb.len() <= COUNTER_CAP
    &&& forall|j: int|
        0 <= j < tb.len() ==> {
            let r = #[trigger] tb[j];
            &&& 1 <= r.den <= COUNTER_CAP
            &&& 0 <= r.num <= r.den * tb.len()
        }
}

/// The reuse table of a bounded trace is well formed.
pub proof fn lemma_table_ok(evs: Seq<Event>)
    requires
        evs.len() <= usize::MAX,
        alloc_count_of(evs) <= COUNTER_CAP,
    ensures
        table_ok(spec_reuse_table(evs)),
{
    let n = alloc_count_of(evs);
    let ivs = spec_free_intervals(evs);
    let tb = spec_reuse_table(evs);
    lemma_alloc_count_le_len(evs);
    lemma_free_intervals_bounds(evs);
    assert forall|j: int| 0 <= j < tb.len() implies {
        let r = #[trigger] tb[j];
        &&& 1 <= r.den <= COUNTER_CAP
        &&& 0 <= r.num <= r.den * tb.len()
    } by {
        let k = j + 1;
        let m = n - j;
        lemma_total_bounds(ivs, k, m);
        assert(m * ivs.len() <= m * n) by (nonlinear_arith)
            requires
                0 <= m,
                0 <= ivs.len() <= n,
        ;
        assert(m * n <= COUNTER_CAP * COUNTER_CAP) by (nonlinear_arith)
            requires
                0 <= m <= COUNTER_CAP,
                0 <= n <= COUNTER_CAP,
        ;
    }
}

/// Interval bounds restrict to any prefix.
proof fn lemma_ok_take(ivs: Seq<(usize, usize)>, n: int, i: int)
    requires
        intervals_ok(ivs, n),
        0 <= i <= ivs.len(),
    ensures
        intervals_ok(ivs.take(i), n),
{
    assert forall|j: int|
        0 <= j < ivs.take(i).len() implies (#[trigger] ivs.take(i)[j]).0 < ivs.take(i)[j].1
        <= n by {
        assert(ivs.take(i)[j] == ivs[j]);
    }
}

/// A vector of `len` zeros.
fn zeros_u64(len: usize) -> (v: Vec<u64>)
    ensures
        v@.len() == len,
        forall|j: int| 0 <= j < len ==> v@[j] == 0,
{
    let mut v: Vec<u64> = Vec::new();
    let mut i: usize = 0;
    while i < len
        invariant
            i <= len,
            v@.len() == i,
            forall|j: int| 0 <= j < i ==> v@[j] == 0,
        decreases len - i,
    {
        v.push(0);
        i = i + 1;
    }
    v
}

/// The reference reuse reduction: for each window length `k`, walk every
/// window and count the intervals it fully contains.  Quadratic in the trace
/// length; it exists to pin down what the linear reduction computes.
pub fn quadratic_reuse(t: &Trace) -> (r: Vec<Ratio>)
    requires
        t.wf(),
        alloc_count_of(t@) <= COUNTER_CAP,
    ensures
        r@ == spec_reuse_table(t@),
{
    let intervals = t.free_intervals();
    let n = t.alloc_length();
    proof {
        t.lemma_view_len();
        lemma_free_intervals_bounds(t@);
    }
    let ghost ivs = intervals@;
    let ghost ni = n as int;
    let mut result: Vec<Ratio> = Vec::new();
    let mut k: usize = 1;
    while k <= n
        invariant
            t.wf(),
            1 <= k <= n + 1,
            n == alloc_count_of(t@),
            n <= COUNTER_CAP,
            ni == n as int,
            ivs == spec_free_intervals(t@),
            intervals@ == ivs,
            intervals_ok(ivs, ni),
            ivs.len() <= n,
            result@.len() == k - 1,
            forall|j: int| 0 <= j < k - 1 ==> result@[j] == spec_reuse_entry(t@, j + 1),
        decreases n + 1 - k,
    {
        let mut tot: u64 = 0;
        let mut w: usize = 0;
        proof {
            lemma_total_bounds(ivs, k as int, 0);
        }
        while w <= n - k
            invariant
                1 <= k <= n,
                n <= COUNTER_CAP,
                ni == n as int,
                intervals@ == ivs,
                intervals_ok(ivs, ni),
                ivs.len() <= n,
                w <= n - k + 1,
                tot == total_contained(ivs, k as int, w as int),
                tot <= w * ivs.len(),
            decreases n - k + 1 - w,
        {
            let mut c: u64 = 0;
            let mut ii: usize = 0;
            while ii < intervals.len()
                invariant
                    intervals@ == ivs,
                    ii <= ivs.len(),
                    ivs.len() <= n,
                    n <= COUNTER_CAP,
                    k <= n,
                    w <= n,
                    c == window_count(ivs.take(ii as int), w as int, k as int),
                    c <= ii,
                decreases ivs.len() - ii,
            {
                let iv = intervals[ii];
                proof {
                    assert(ivs.take(ii + 1).drop_last() =~= ivs.take(ii as int));
                    assert(ivs.take(ii + 1).last() == ivs[ii as int]);
                    lemma_window_bounds(ivs.take(ii as int), w as int, k as int);
                }
                if w <= iv.0 && iv.1 <= w + k {
                    c = c + 1;
                }
                ii = ii + 1;
            }
            proof {
                assert(ivs.take(ivs.len() as int) =~= ivs);
                assert((w + 1) * ivs.len() == w * ivs.len() + ivs.len()) by (nonlinear_arith);
                assert((w + 1) * ivs.len() <= (COUNTER_CAP + 1) * COUNTER_CAP)
                    by (nonlinear_arith)
                    requires
                        0 <= w + 1 <= COUNTER_CAP + 1,
                        0 <= ivs.len() <= COUNTER_CAP,
                ;
            }
            tot = tot + c;
            w = w + 1;
        }
        proof {
            lemma_total_bounds(ivs, k as int, (n - k + 1) as int);
        }
        result.push(Ratio { num: tot as i128, den: (n - k + 1) as i128 });
        k = k + 1;
    }
    proof {
        assert(result@ =~= spec_reuse_table(t@));
    }
    result
}

/// A liveness counter whose timer starts at one and whose query returns the
/// truncated integer average instead of an exact fraction.
pub struct LivenessCounter {
    counter: crate::liveness_counter::LivenessCounter,
}

impl View for LivenessCounter {
    type V = crate::liveness_counter::LivenessView;

    closed spec fn view(&self) -> crate::liveness_counter::LivenessView {
        self.counter@
    }
}

impl LivenessCounter {
    /// The running-total invariant of the underlying counter, with the timer
    /// already started.  Stated over the view, so that callers can relate
    /// the histogram contents read by `liveness` to the recorded events.
    pub open spec fn wf(self) -> bool {
        &&& crate::liveness_counter::liveness_inv(self@)
        &&& 1 <= self@.n
        &&& self.inner_ok()
    }

    /// The underlying counter's histogram bookkeeping is coherent.
    pub closed spec fn inner_ok(self) -> bool {
        self.counter.hists_ok()
    }

    /// A fresh counter with the timer at one and no events.
    pub fn new() -> (c: LivenessCounter)
        ensures
            c.wf(),
            c@.n == 1,
            c@.m == 0,
            c@.events =~= Seq::<(bool, int)>::empty(),
    {
        let mut inner = crate::liveness_counter::LivenessCounter::new();
        inner.inc_timer();
        LivenessCounter { counter: inner }
    }

    /// Records an allocation at the current timer value.
    pub fn record_alloc(&mut self)
        requires
            old(self).wf(),
            old(self)@.m < COUNTER_CAP,
        ensures
            final(self).wf(),
            final(self)@.n == old(self)@.n,
            final(self)@.m == old(self)@.m + 1,
            final(self)@.events == old(self)@.events.push((true, old(self)@.n)),
    {
        self.counter.record_alloc();
    }

    /// Records a free at the current timer value.
    pub fn free(&mut self)
        requires
            old(self).wf(),
            crate::liveness_counter::count_events(old(self)@.events, false, old(self)@.n)
                < COUNTER_CAP,
        ensures
            final(self).wf(),
            final(self)@.n == old(self)@.n,
            final(self)@.m == old(self)@.m,
            final(self)@.events == old(self)@.events.push((false, old(self)@.n)),
    {
        self.counter.free();
    }

    /// Advances the timer by one and carries every running total forward.
    pub fn inc_timer(&mut self)
        requires
            old(self).wf(),
            old(self)@.n < COUNTER_CAP,
        ensures
            final(self).wf(),
            final(self)@.n == old(self)@.n + 1,
            final(self)@.m == old(self)@.m,
            final(self)@.events == old(self)@.events,
    {
        self.counter.inc_timer();
    }

    /// The average live-object count over the window of length `k` ending at
    /// the current timer, truncated to an integer.  The caller must know the
    /// numerator is non-negative; for any history that pairs into live
    /// intervals this follows from
    /// `liveness_counter::lemma_liveness_counts_overlaps` together with
    /// `liveness_counter::lemma_total_window_live_nonneg`.
    pub fn liveness(&self, k: usize) -> (r: u64)
        requires
            self.wf(),
            k <= self@.n,
            0 <= crate::liveness_counter::spec_liveness_num(self@, k as int),
        ensures
            r == crate::liveness_counter::spec_liveness_num(self@, k as int) / (self@.n - k + 1),
    {
        let ratio = self.counter.liveness(k);
        (ratio.num / ratio.den) as u64
    }
}

/// The fast reuse reduction: one pass over the free intervals to build
/// length- and position-keyed aggregates, prefix passes over those, and one
/// prefix recurrence each for X, Y and Z.  Linear in the trace length, and
/// proven to emit the same table as the quadratic reference.
pub fn linear_reuse(t: &Trace) -> (r: Vec<Ratio>)
    requires
        t.wf(),
        alloc_count_of(t@) <= COUNTER_CAP,
    ensures
        r@ == spec_reuse_table(t@),
{
    let intervals = t.free_intervals();
    let n = t.alloc_length();
    proof {
        t.lemma_view_len();
        lemma_free_intervals_bounds(t@);
    }
    if n == 0 {
        let result: Vec<Ratio> = Vec::new();
        proof {
            assert(result@ =~= spec_reuse_table(t@));
        }
        return result;
    }
    let ghost ivs = intervals@;
    let ghost ni = n as int;

    let mut len_counts = zeros_u64(n + 1);
    let mut start_counts = zeros_u64(n + 1);
    let mut end_counts = zeros_u64(n + 1);
    let mut min_sums = zeros_u64(n + 1);
    let mut max_sums = zeros_u64(n + 1);

    let mut i: usize = 0;
    while i < intervals.len()
        invariant
            1 <= n <= COUNTER_CAP,
            ni == n as int,
            intervals@ == ivs,
            intervals_ok(ivs, ni),
            ivs.len() <= n,
            i <= ivs.len(),
            len_counts@.len() == n + 1,
            start_counts@.len() == n + 1,
            end_counts@.len() == n + 1,
            min_sums@.len() == n + 1,
            max_sums@.len() == n + 1,
            forall|v: int|
                0 <= v <= ni ==> #[trigger] len_counts@[v] == count_len_eq(ivs.take(i as int), v),
            forall|v: int|
                0 <= v <= ni ==> #[trigger] start_counts@[v] == count_s_eq(ivs.take(i as int), v),
            forall|v: int|
                0 <= v <= ni ==> #[trigger] end_counts@[v] == count_e_eq(ivs.take(i as int), v),
            forall|v: int|
                1 <= v <= ni ==> #[trigger] min_sums@[v] == minsum_eq(ivs.take(i as int), v, ni),
            forall|v: int|
                1 <= v <= ni ==> #[trigger] max_sums@[v] == maxsum_eq(ivs.take(i as int), v),
        decreases ivs.len() - i,
    {
        let iv = intervals[i];
        proof {
            assert(ivs[i as int].0 < ivs[i as int].1 <= ni);
        }
        let s = iv.0;
        let e = iv.1;
        let l = e - s;
        let mn = if n - l <= s {
            n - l
        } else {
            s
        };
        let mx = if l >= e {
            l
        } else {
            e
        };
        let ghost pre = ivs.take(i as int);
        proof {
            lemma_ok_take(ivs, ni, i as int);
            lemma_counts_bounds(pre, l as int);
            lemma_counts_bounds(pre, s as int);
            lemma_counts_bounds(pre, e as int);
            lemma_sums_bounds(pre, l as int, ni);
            assert(pre.len() * ni <= COUNTER_CAP * COUNTER_CAP) by (nonlinear_arith)
                requires
                    0 <= pre.len() <= COUNTER_CAP,
                    0 <= ni <= COUNTER_CAP,
            ;
        }
        let cur = len_counts[l];
        len_counts[l] = cur + 1;
        let cur = start_counts[s];
        start_counts[s] = cur + 1;
        let cur = end_counts[e];
        end_counts[e] = cur + 1;
        let cur = min_sums[l];
        min_sums[l] = cur + mn as u64;
        let cur = max_sums[l];
        max_sums[l] = cur + mx as u64;
        i = i + 1;
        proof {
            let now = ivs.take(i as int);
            assert(now.drop_last() =~= pre);
            assert(now.last() == ivs[i - 1]);
            assert forall|v: int|
                0 <= v <= ni implies #[trigger] len_counts@[v] == count_len_eq(now, v) by {
                assert(count_len_eq(now, v) == count_len_eq(pre, v) + (if now.last().1
                    - now.last().0 == v {
                    1int
                } else {
                    0int
                }));
            }
            assert forall|v: int|
                0 <= v <= ni implies #[trigger] start_counts@[v] == count_s_eq(now, v) by {
                assert(count_s_eq(now, v) == count_s_eq(pre, v) + (if now.last().0 == v {
                    1int
                } else {
                    0int
                }));
            }
            assert forall|v: int|
                0 <= v <= ni implies #[trigger] end_counts@[v] == count_e_eq(now, v) by {
                assert(count_e_eq(now, v) == count_e_eq(pre, v) + (if now.last().1 == v {
                    1int
                } else {
                    0int
                }));
            }
            assert forall|v: int|
                1 <= v <= ni implies #[trigger] min_sums@[v] == minsum_eq(now, v, ni) by {
                assert(minsum_eq(now, v, ni) == minsum_eq(pre, v, ni) + (if now.last().1
                    - now.last().0 == v {
                    imin(ni - v, now.last().0 as int)
                } else {
                    0int
                }));
            }
            assert forall|v: int|
                1 <= v <= ni implies #[trigger] max_sums@[v] == maxsum_eq(now, v) by {
                assert(maxsum_eq(now, v) == maxsum_eq(pre, v) + (if now.last().1 - now.last().0
                    == v {
                    imax(v, now.last().1 as int)
                } else {
                    0int
                }));
            }
        }
    }
    proof {
        assert(ivs.take(ivs.len() as int) =~= ivs);
    }

    let mut sge = zeros_u64(n + 1);
    let mut ele = zeros_u64(n + 1);
    let mut lle = zeros_u64(n + 1);
    proof {
        lemma_prefix_bases(ivs, ni);
    }
    let mut j: usize = 1;
    while j <= n
        invariant
            1 <= n <= COUNTER_CAP,
            ni == n as int,
            intervals_ok(ivs, ni),
            ivs.len() <= n,
            1 <= j <= n + 1,
            sge@.len() == n + 1,
            ele@.len() == n + 1,
            lle@.len() == n + 1,
            len_counts@.len() == n + 1,
            start_counts@.len() == n + 1,
            end_counts@.len() == n + 1,
            forall|v: int|
                0 <= v <= ni ==> #[trigger] len_counts@[v] == count_len_eq(ivs, v),
            forall|v: int|
                0 <= v <= ni ==> #[trigger] start_counts@[v] == count_s_eq(ivs, v),
            forall|v: int| 0 <= v <= ni ==> #[trigger] end_counts@[v] == count_e_eq(ivs, v),
            forall|q: int| 0 <= q < j ==> #[trigger] sge@[q] == count_s_ge(ivs, ni - q),
            forall|q: int| 0 <= q < j ==> #[trigger] ele@[q] == count_e_le(ivs, q),
            forall|q: int| 0 <= q < j ==> #[trigger] lle@[q] == count_len_le(ivs, q),
        decreases n + 1 - j,
    {
        proof {
            lemma_s_ge_step(ivs, ni - j);
            lemma_e_le_step(ivs, j as int);
            lemma_len_le_step(ivs, j as int);
            lemma_counts_bounds(ivs, ni - j);
            lemma_counts_bounds(ivs, ni - j + 1);
            lemma_counts_bounds(ivs, j as int);
            lemma_counts_bounds(ivs, j as int - 1);
        }
        let a = sge[j - 1];
        let b = start_counts[n - j];
        sge[j] = a + b;
        let a = ele[j - 1];
        let b = end_counts[j];
        ele[j] = a + b;
        let a = lle[j - 1];
        let b = len_counts[j];
        lle[j] = a + b;
        j = j + 1;
    }

    let mut x: Vec<i128> = Vec::new();
    let mut y: Vec<i128> = Vec::new();
    let mut z: Vec<i128> = Vec::new();
    {
        let mut q: usize = 0;
        while q <= n
            invariant
                n <= COUNTER_CAP,
                q <= n + 1,
                x@.len() == q,
                y@.len() == q,
                z@.len() == q,
                forall|v: int| 0 <= v < q ==> #[trigger] x@[v] == 0,
                forall|v: int| 0 <= v < q ==> #[trigger] y@[v] == 0,
                forall|v: int| 0 <= v < q ==> #[trigger] z@[v] == 0,
            decreases n + 1 - q,
        {
            x.push(0);
            y.push(0);
            z.push(0);
            q = q + 1;
        }
    }
    proof {
        lemma_sums_base(ivs, ni);
        lemma_sums_bounds(ivs, 1, ni);
        lemma_counts_bounds(ivs, 1);
    }
    x[1] = min_sums[1] as i128;
    y[1] = max_sums[1] as i128;
    z[1] = 2 * (len_counts[1] as i128);
    let mut k: usize = 2;
    while k <= n
        invariant
            1 <= n <= COUNTER_CAP,
            ni == n as int,
            intervals_ok(ivs, ni),
            ivs.len() <= n,
            2 <= k <= n + 1,
            x@.len() == n + 1,
            y@.len() == n + 1,
            z@.len() == n + 1,
            sge@.len() == n + 1,
            ele@.len() == n + 1,
            lle@.len() == n + 1,
            len_counts@.len() == n + 1,
            min_sums@.len() == n + 1,
            max_sums@.len() == n + 1,
            forall|v: int|
                0 <= v <= ni ==> #[trigger] len_counts@[v] == count_len_eq(ivs, v),
            forall|v: int|
                1 <= v <= ni ==> #[trigger] min_sums@[v] == minsum_eq(ivs, v, ni),
            forall|v: int| 1 <= v <= ni ==> #[trigger] max_sums@[v] == maxsum_eq(ivs, v),
            forall|q: int| 0 <= q <= ni ==> #[trigger] sge@[q] == count_s_ge(ivs, ni - q),
            forall|q: int| 0 <= q <= ni ==> #[trigger] ele@[q] == count_e_le(ivs, q),
            forall|q: int| 0 <= q <= ni ==> #[trigger] lle@[q] == count_len_le(ivs, q),
            forall|q: int| 1 <= q < k ==> #[trigger] x@[q] == xsum(ivs, q, ni),
            forall|q: int| 1 <= q < k ==> #[trigger] y@[q] == ysum(ivs, q),
            forall|q: int| 1 <= q < k ==> #[trigger] z@[q] == zsum(ivs, q),
        decreases n + 1 - k,
    {
        proof {
            lemma_xsum_step(ivs, k as int, ni);
            lemma_ysum_step(ivs, k as int, ni);
            lemma_zsum_step(ivs, k as int, ni);
            lemma_sums_bounds(ivs, k as int, ni);
            lemma_sums_bounds(ivs, k as int - 1, ni);
            lemma_counts_bounds(ivs, k as int);
            lemma_counts_bounds(ivs, k as int - 1);
            lemma_counts_bounds(ivs, ni - k + 1);
            assert(ivs.len() * ni <= COUNTER_CAP * COUNTER_CAP) by (nonlinear_arith)
                requires
                    0 <= ivs.len() <= COUNTER_CAP,
                    0 <= ni <= COUNTER_CAP,
            ;
            assert(ivs.len() * (ni + 1) <= COUNTER_CAP * (COUNTER_CAP + 1)) by (nonlinear_arith)
                requires
                    0 <= ivs.len() <= COUNTER_CAP,
                    0 <= ni <= COUNTER_CAP,
            ;
            assert(((k as int) + 1) * count_len_eq(ivs, k as int) <= (COUNTER_CAP + 1)
                * COUNTER_CAP) by (nonlinear_arith)
                requires
                    0 <= count_len_eq(ivs, k as int) <= COUNTER_CAP,
                    1 <= k as int <= COUNTER_CAP,
            ;
            assert(0 <= ((k as int) + 1) * count_len_eq(ivs, k as int)) by (nonlinear_arith)
                requires
                    0 <= count_len_eq(ivs, k as int),
                    1 <= k as int,
            ;
        }
        let xv = x[k - 1] + (min_sums[k] as i128) - (sge[k - 1] as i128);
        x[k] = xv;
        let yv = y[k - 1] + (max_sums[k] as i128) + (ele[k - 1] as i128);
        y[k] = yv;
        let zv = z[k - 1] + ((k as i128) + 1) * (len_counts[k] as i128) + (lle[k - 1] as i128);
        z[k] = zv;
        k = k + 1;
    }

    let mut result: Vec<Ratio> = Vec::new();
    let mut k: usize = 1;
    while k <= n
        invariant
            1 <= n <= COUNTER_CAP,
            ni == n as int,
            n == alloc_count_of(t@),
            ivs == spec_free_intervals(t@),
            intervals_ok(ivs, ni),
            ivs.len() <= n,
            1 <= k <= n + 1,
            x@.len() == n + 1,
            y@.len() == n + 1,
            z@.len() == n + 1,
            forall|q: int| 1 <= q <= ni ==> #[trigger] x@[q] == xsum(ivs, q, ni),
            forall|q: int| 1 <= q <= ni ==> #[trigger] y@[q] == ysum(ivs, q),
            forall|q: int| 1 <= q <= ni ==> #[trigger] z@[q] == zsum(ivs, q),
            result@.len() == k - 1,
            forall|q: int| 0 <= q < k - 1 ==> result@[q] == spec_reuse_entry(t@, q + 1),
        decreases n + 1 - k,
    {
        proof {
            lemma_predicate_decomposition(ivs, k as int, ni);
            lemma_sums_bounds(ivs, k as int, ni);
            assert(ivs.len() * ni <= COUNTER_CAP * COUNTER_CAP) by (nonlinear_arith)
                requires
                    0 <= ivs.len() <= COUNTER_CAP,
                    0 <= ni <= COUNTER_CAP,
            ;
            assert(ivs.len() * (ni + 1) <= COUNTER_CAP * (COUNTER_CAP + 1)) by (nonlinear_arith)
                requires
                    0 <= ivs.len() <= COUNTER_CAP,
                    0 <= ni <= COUNTER_CAP,
            ;
        }
        let num = x[k] + z[k] - y[k];
        result.push(Ratio { num, den: (n - k + 1) as i128 });
        k = k + 1;
    }
    proof {
        assert(result@ =~= spec_reuse_table(t@));
    }
    result
}

} // verus!
