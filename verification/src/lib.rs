//! An online controller that tunes how many free blocks a slab allocator
//! keeps cached in a per-size-class local free list.
//!
//! For each size class a tuner observes every allocation and free, keeps two
//! statistical estimators (liveness and reuse) and turns them into a demand
//! estimate: the number of blocks the class is expected to request over the
//! next window of operations.  When the local free list runs dry the tuner
//! asks its host for a demand-sized batch; when the list grows past roughly
//! twice the demand it returns the excess.

use vstd::prelude::*;

pub mod constants;
pub mod histogram;
pub mod liveness_counter;
pub mod ratio;
pub mod reuse_counter;
pub mod timescale_functions;
pub mod trace;

use crate::constants::COUNTER_CAP;
use crate::constants::REUSE_BURST_LENGTH;
use crate::constants::REUSE_HIBERNATION_PERIOD;
use crate::liveness_counter::LivenessCounter;
use crate::liveness_counter::LivenessView;
use crate::ratio::Ratio;
use crate::reuse_counter::ReuseCounter;
use crate::reuse_counter::ReuseView;
use crate::reuse_counter::spec_rc_alloc;
use crate::reuse_counter::spec_rc_free;
use crate::reuse_counter::spec_rc_reuse;
use crate::reuse_counter::spec_rc_tick;
use crate::trace::alloc_count_of;

verus! {

/// The state of a tuner as seen in contracts.
#[verifier::ext_equal]
pub struct TunerView {
    pub id: int,
    pub time: int,
    pub fetch_count: int,
    pub target_apf: int,
    pub liveness: LivenessView,
    pub reuse: ReuseView,
}

/// The dynamic APF: the residual window length before the next target
/// fetch.  Once the observed time has reached the next fetch target, the
/// window is the full target again.
pub open spec fn spec_dapf(target: int, fetch_count: int, time: int) -> int {
    if time >= target * (fetch_count + 1) {
        target
    } else {
        target * (fetch_count + 1) - time
    }
}

/// The demand estimate for a window of `k` operations: the number of blocks
/// expected to be newly requested over the next `k` allocations, as
/// `k - R(k)`.  The counters run on the allocation clock, so the blocks
/// that become live over the window equal its length, and the reused ones
/// are `R(k)`.  Unknown before the first reuse burst completes or when the
/// window exceeds the observed time.
pub open spec fn spec_demand(r: ReuseView, time: int, k: int) -> Option<Ratio> {
    if k > time {
        None
    } else {
        match spec_rc_reuse(r, k) {
            None => None,
            Some(ru) => Some(Ratio { num: (k * ru.den - ru.num) as i128, den: ru.den }),
        }
    }
}

/// One tuner per size class.  It wires the two counters to the allocator's
/// allocation and free events, computes the demand estimate, and asks the
/// host to fetch from or return blocks to the central reserve through the
/// three callbacks supplied at construction.
pub struct ApfTuner<C, G, R> where
    C: Fn(usize) -> u32,
    G: Fn(usize, usize) -> bool,
    R: Fn(usize, u32) -> bool,
 {
    id: usize,
    l_counter: LivenessCounter,
    r_counter: ReuseCounter,
    time: usize,
    fetch_count: usize,
    target_apf: usize,
    check: C,
    get: G,
    ret: R,
}

impl<C, G, R> View for ApfTuner<C, G, R> where
    C: Fn(usize) -> u32,
    G: Fn(usize, usize) -> bool,
    R: Fn(usize, u32) -> bool,
 {
    type V = TunerView;

    closed spec fn view(&self) -> TunerView {
        TunerView {
            id: self.id as int,
            time: self.time as int,
            fetch_count: self.fetch_count as int,
            target_apf: self.target_apf as int,
            liveness: self.l_counter@,
            reuse: self.r_counter@,
        }
    }
}

impl<C, G, R> ApfTuner<C, G, R> where
    C: Fn(usize) -> u32,
    G: Fn(usize, usize) -> bool,
    R: Fn(usize, u32) -> bool,
 {
    /// The counters are coherent, the clocks are capped, and the callbacks
    /// accept every argument.
    pub closed spec fn wf(self) -> bool {
        &&& self.l_counter.wf()
        &&& self.r_counter.wf()
        &&& 1 <= self.target_apf <= COUNTER_CAP
        &&& self.time <= COUNTER_CAP
        &&& self.fetch_count <= self.time
        &&& (self.r_counter@.trace matches Some(tr) ==> alloc_count_of(tr) <= self.r_counter@.n)
        &&& forall|a: usize| #[trigger] call_requires(self.check, (a,))
        &&& forall|a: usize, b: usize| #[trigger] call_requires(self.get, (a, b))
        &&& forall|a: usize, b: u32| #[trigger] call_requires(self.ret, (a, b))
    }

    /// The free-list probe supplied at construction, for contracts that
    /// relate the tuner's behaviour to what the probe returned.
    pub closed spec fn spec_check(self) -> C {
        self.check
    }

    /// The fetch callback supplied at construction.
    pub closed spec fn spec_get(self) -> G {
        self.get
    }

    /// The return callback supplied at construction.
    pub closed spec fn spec_ret(self) -> R {
        self.ret
    }

    /// A fresh tuner for size class `id` with the given target window length
    /// and host callbacks: `check` reports the local free-block count, `get`
    /// fetches a batch from the central reserve, `ret` gives a batch back.
    /// The target must be at least one: a zero target would make every
    /// residual window empty and the tuner useless, so construction refuses
    /// it rather than tune towards nothing.
    pub fn new(id: usize, target_apf: usize, check: C, get: G, ret: R) -> (t: ApfTuner<C, G, R>)
        requires
            1 <= target_apf <= COUNTER_CAP,
            forall|a: usize| #[trigger] call_requires(check, (a,)),
            forall|a: usize, b: usize| #[trigger] call_requires(get, (a, b)),
            forall|a: usize, b: u32| #[trigger] call_requires(ret, (a, b)),
        ensures
            t.wf(),
            t.spec_check() == check,
            t.spec_get() == get,
            t.spec_ret() == ret,
            t@.id == id,
            t@.time == 0,
            t@.fetch_count == 0,
            t@.target_apf == target_apf,
            t@.liveness.n == 0,
            t@.liveness.events.len() == 0,
            t@.reuse.burst_length == REUSE_BURST_LENGTH,
            t@.reuse.hibernation_period == REUSE_HIBERNATION_PERIOD,
            t@.reuse.n == 0,
            t@.reuse.trace == Some(Seq::<crate::trace::Event>::empty()),
            t@.reuse.table is None,
    {
        ApfTuner {
            id,
            l_counter: LivenessCounter::new(),
            r_counter: ReuseCounter::new(REUSE_BURST_LENGTH, REUSE_HIBERNATION_PERIOD),
            time: 0,
            fetch_count: 0,
            target_apf,
            check,
            get,
            ret,
        }
    }

    /// Changes the size-class identifier handed to the callbacks.
    pub fn set_id(&mut self, id: usize)
        requires
            old(self).wf(),
        ensures
            final(self).wf(),
            final(self)@ == (TunerView { id: id as int, ..old(self)@ }),
            final(self).spec_check() == old(self).spec_check(),
            final(self).spec_get() == old(self).spec_get(),
            final(self).spec_ret() == old(self).spec_ret(),
    {
        self.id = id;
        proof {
            assert(self@ =~~= (TunerView { id: id as int, ..old(self)@ }));
        }
    }

    /// Processes an allocation event.  Records it in the counters; if the
    /// local free list is drained (the check callback reports zero blocks),
    /// computes the demand for the residual window, asks the host for that
    /// many blocks and counts the fetch.  Returns false exactly when the
    /// list is drained but the demand is still unknown, leaving the fetch
    /// to the host's default path.
    pub fn malloc(&mut self, ptr: usize) -> (ok: bool)
        requires
            old(self).wf(),
            old(self)@.time < COUNTER_CAP,
        ensures
            final(self).wf(),
            final(self).spec_check() == old(self).spec_check(),
            final(self).spec_get() == old(self).spec_get(),
            final(self).spec_ret() == old(self).spec_ret(),
            final(self)@.time == old(self)@.time + 1,
            final(self)@.id == old(self)@.id,
            final(self)@.target_apf == old(self)@.target_apf,
            final(self)@.liveness == old(self)@.liveness,
            final(self)@.reuse == spec_rc_tick(spec_rc_alloc(old(self)@.reuse, ptr)),
            old(self)@.fetch_count <= final(self)@.fetch_count <= old(self)@.fetch_count + 1,
            exists|c: u32|
                {
                    let dm = spec_demand(
                        final(self)@.reuse,
                        final(self)@.time,
                        spec_dapf(
                            old(self)@.target_apf,
                            old(self)@.fetch_count,
                            final(self)@.time,
                        ),
                    );
                    &&& #[trigger] call_ensures(
                        old(self).spec_check(),
                        (old(self)@.id as usize,),
                        c,
                    )
                    &&& ok == !(c == 0 && dm is None)
                    &&& ((final(self)@.fetch_count == old(self)@.fetch_count + 1) <==> (c == 0
                        && dm is Some))
                },
    {
        self.time = self.time + 1;

        proof {
            self.r_counter.lemma_wf_bounds();
        }
        self.r_counter.record_alloc(ptr);
        proof {
            self.r_counter.lemma_wf_bounds();
            match old(self)@.reuse.trace {
                Some(tr) => {
                    assert(tr.push(crate::trace::Event::Alloc(ptr)).drop_last() =~= tr);
                },
                None => {},
            }
        }
        self.r_counter.inc_timer();
        proof {
            assert(self.wf());
        }

        // If out of free blocks, fetch
        let have = (self.check)(self.id);
        proof {
            assert(call_ensures(old(self).spec_check(), (old(self)@.id as usize,), have));
        }
        if have == 0 {
            let dapf = self.calculate_dapf();
            match self.demand(dapf) {
                Some(d) => {
                    let want = d.ceil_clamped();
                    (self.get)(self.id, want);
                    self.count_fetch();
                },
                None => {
                    return false;
                },
            }
        }
        true
    }

    /// Processes a free event.  Records it in the counters; if the local
    /// free list holds at least `2 * demand + 1` blocks, returns
    /// `ceil(demand) + 1` of them to the central reserve.  Returns true
    /// exactly when the demand is known and non-negative.
    pub fn free(&mut self, ptr: usize) -> (ok: bool)
        requires
            old(self).wf(),
        ensures
            final(self).wf(),
            final(self).spec_check() == old(self).spec_check(),
            final(self).spec_get() == old(self).spec_get(),
            final(self).spec_ret() == old(self).spec_ret(),
            final(self)@.reuse == spec_rc_free(old(self)@.reuse, ptr),
            final(self)@.liveness == old(self)@.liveness,
            final(self)@.time == old(self)@.time,
            final(self)@.fetch_count == old(self)@.fetch_count,
            final(self)@.id == old(self)@.id,
            final(self)@.target_apf == old(self)@.target_apf,
            ok == (spec_demand(
                final(self)@.reuse,
                final(self)@.time,
                spec_dapf(old(self)@.target_apf, old(self)@.fetch_count, old(self)@.time),
            ) matches Some(d) && d.num >= 0),
    {
        self.r_counter.free(ptr);
        proof {
            match old(self)@.reuse.trace {
                Some(tr) => {
                    assert(tr.push(crate::trace::Event::Free(ptr)).drop_last() =~= tr);
                },
                None => {},
            }
            assert(self.wf());
        }

        let dapf = self.calculate_dapf();
        let d = self.demand(dapf);

        match d {
            None => false,
            Some(demand) => {
                if demand.is_negative() {
                    return false;
                }
                // If too many free blocks, return some
                let have = (self.check)(self.id);
                proof {
                    assert(0 <= (have as int) * demand.den <= 0x1_0000_0000 * (COUNTER_CAP + 1))
                        by (nonlinear_arith)
                        requires
                            0 <= have < 0x1_0000_0000,
                            1 <= demand.den <= COUNTER_CAP + 1,
                    ;
                }
                if (have as i128) * demand.den >= 2 * demand.num + demand.den {
                    let ceil = demand.ceil_clamped();
                    (self.ret)(self.id, ceil as u32 + 1);
                }
                true
            },
        }
    }

    /// Counts one batch fetch from the central reserve.
    fn count_fetch(&mut self)
        requires
            old(self).wf(),
            old(self)@.fetch_count < old(self)@.time,
        ensures
            final(self).wf(),
            final(self)@ == (TunerView { fetch_count: old(self)@.fetch_count + 1, ..old(self)@ }),
            final(self).spec_check() == old(self).spec_check(),
            final(self).spec_get() == old(self).spec_get(),
            final(self).spec_ret() == old(self).spec_ret(),
    {
        self.fetch_count = self.fetch_count + 1;
        proof {
            assert(self@ =~~= (TunerView {
                fetch_count: old(self)@.fetch_count + 1,
                ..old(self)@
            }));
        }
    }

    /// The residual window length before the next target fetch.
    fn calculate_dapf(&self) -> (d: u64)
        requires
            self.wf(),
        ensures
            d == spec_dapf(self@.target_apf, self@.fetch_count, self@.time),
            1 <= d <= COUNTER_CAP * (COUNTER_CAP + 1),
    {
        let tgt = self.target_apf as u64;
        let fc = self.fetch_count as u64;
        proof {
            assert(tgt * (fc + 1) <= COUNTER_CAP * (COUNTER_CAP + 1)) by (nonlinear_arith)
                requires
                    1 <= tgt <= COUNTER_CAP,
                    0 <= fc <= COUNTER_CAP,
            ;
            assert(tgt * (fc + 1) >= tgt) by (nonlinear_arith)
                requires
                    1 <= tgt,
                    0 <= fc,
            ;
        }
        let threshold = tgt * (fc + 1);
        if self.time as u64 >= threshold {
            tgt
        } else {
            threshold - self.time as u64
        }
    }

    /// The average demand over windows of length `k`: none if the reuse
    /// counter has not completed a burst yet or `k` exceeds the observed
    /// time.
    fn demand(&self, k: u64) -> (d: Option<Ratio>)
        requires
            self.wf(),
        ensures
            d == spec_demand(self@.reuse, self@.time, k as int),
            d matches Some(r) ==> r.wf() && -(COUNTER_CAP * r.den) <= r.num <= COUNTER_CAP
                * r.den,
    {
        if k > self.time as u64 {
            return None;
        }
        let ku = k as usize;

        match self.r_counter.reuse(ku) {
            Some(r) => {
                proof {
                    assert((ku as int) * r.den <= COUNTER_CAP * r.den) by (nonlinear_arith)
                        requires
                            0 <= ku <= COUNTER_CAP,
                            1 <= r.den,
                    ;
                    assert(COUNTER_CAP * r.den <= COUNTER_CAP * COUNTER_CAP) by (nonlinear_arith)
                        requires
                            1 <= r.den <= COUNTER_CAP,
                            0 <= COUNTER_CAP,
                    ;
                    assert(0 <= ku as int * r.den) by (nonlinear_arith)
                        requires
                            0 <= ku,
                            1 <= r.den,
                    ;
                    assert(r.den * COUNTER_CAP == COUNTER_CAP * r.den) by (nonlinear_arith);
                }
                let num = (ku as i128) * r.den - r.num;
                Some(Ratio { num, den: r.den })
            },
            None => None,
        }
    }
}

} // verus!
