use vstd::prelude::*;

use crate::constants::COUNTER_CAP;
use crate::ratio::Ratio;
use crate::timescale_functions::linear_reuse;
use crate::timescale_functions::spec_reuse_table;
use crate::timescale_functions::table_ok;
use crate::timescale_functions::lemma_table_ok;
use crate::trace::Event;
use crate::trace::Trace;
use crate::trace::alloc_count_of;

verus! {

/// The state of a reuse counter as seen in contracts: the configured burst
/// and hibernation lengths, the tick counter, the events of the active
/// sampling trace (absent while hibernating) and the cached reuse table
/// (absent until the first burst completes).
#[verifier::ext_equal]
pub struct ReuseView {
    pub burst_length: int,
    pub hibernation_period: int,
    pub n: int,
    pub trace: Option<Seq<Event>>,
    pub table: Option<Seq<Ratio>>,
}

/// Recording an allocation appends to the active trace and is otherwise a
/// no-op.
pub open spec fn spec_rc_alloc(v: ReuseView, slot: usize) -> ReuseView {
    match v.trace {
        Some(tr) => ReuseView { trace: Some(tr.push(Event::Alloc(slot))), ..v },
        None => v,
    }
}

/// Recording a free appends to the active trace and is otherwise a no-op.
pub open spec fn spec_rc_free(v: ReuseView, slot: usize) -> ReuseView {
    match v.trace {
        Some(tr) => ReuseView { trace: Some(tr.push(Event::Free(slot))), ..v },
        None => v,
    }
}

/// One tick of the sampling/hibernation state machine.  A burst that reaches
/// the burst length is reduced into a fresh reuse table and the counter
/// hibernates; a hibernation that reaches the hibernation period starts a
/// fresh burst.
pub open spec fn spec_rc_tick(v: ReuseView) -> ReuseView {
    match v.trace {
        Some(tr) => {
            if v.n + 1 >= v.burst_length {
                ReuseView { n: 0, trace: None, table: Some(spec_reuse_table(tr)), ..v }
            } else {
                ReuseView { n: v.n + 1, ..v }
            }
        },
        None => {
            if v.n + 1 >= v.hibernation_period {
                ReuseView { n: 0, trace: Some(Seq::empty()), ..v }
            } else {
                ReuseView { n: v.n + 1, ..v }
            }
        },
    }
}

/// The reuse value returned for window length `k`: the cached table entry,
/// zero for a `k` outside the table, and nothing before the first burst has
/// completed.
pub open spec fn spec_rc_reuse(v: ReuseView, k: int) -> Option<Ratio> {
    match v.table {
        Some(tb) => {
            if 1 <= k <= tb.len() {
                Some(tb[k - 1])
            } else {
                Some(Ratio { num: 0, den: 1 })
            }
        },
        None => None,
    }
}

/// Samples bursts of allocation and free events, reduces each completed
/// burst into a reuse table offline, and hibernates between bursts to bound
/// the sampling overhead.
pub struct ReuseCounter {
    burst_length: usize,
    hibernation_period: usize,
    n: usize,
    trace: Option<Trace>,
    reuse: Option<Vec<Ratio>>,
}

impl View for ReuseCounter {
    type V = ReuseView;

    closed spec fn view(&self) -> ReuseView {
        ReuseView {
            burst_length: self.burst_length as int,
            hibernation_period: self.hibernation_period as int,
            n: self.n as int,
            trace: match self.trace {
                Some(t) => Some(t@),
                None => None,
            },
            table: match self.reuse {
                Some(v) => Some(v@),
                None => None,
            },
        }
    }
}

impl ReuseCounter {
    /// The configuration is in range, the tick counter is below the bound of
    /// the current phase, the active trace is coherent, and every cached
    /// reuse value is a well-formed non-negative fraction.
    pub closed spec fn wf(self) -> bool {
        &&& 1 <= self.burst_length <= COUNTER_CAP
        &&& 1 <= self.hibernation_period
        &&& match self.trace {
            Some(t) => t.wf() && self.n < self.burst_length,
            None => self.n < self.hibernation_period,
        }
        &&& match self.reuse {
            Some(v) => table_ok(v@),
            None => true,
        }
    }

    /// Bounds that hold of every well-formed counter.
    pub proof fn lemma_wf_bounds(&self)
        requires
            self.wf(),
        ensures
            1 <= self@.burst_length <= COUNTER_CAP,
            1 <= self@.hibernation_period,
            self@.trace is Some ==> self@.n < self@.burst_length,
            self@.trace is None ==> self@.n < self@.hibernation_period,
    {
    }

    /// A fresh counter: sampling into an empty trace, no table yet.
    pub fn new(bl: usize, hp: usize) -> (c: ReuseCounter)
        requires
            1 <= bl <= COUNTER_CAP,
            1 <= hp,
        ensures
            c.wf(),
            c@.burst_length == bl,
            c@.hibernation_period == hp,
            c@.n == 0,
            c@.trace == Some(Seq::<Event>::empty()),
            c@.table is None,
    {
        let t = Trace::new();
        proof {
            assert(t@ =~= Seq::<Event>::empty());
        }
        ReuseCounter {
            burst_length: bl,
            hibernation_period: hp,
            n: 0,
            trace: Some(t),
            reuse: None,
        }
    }

    /// Records an allocation of `slot` into the active trace, if sampling.
    pub fn record_alloc(&mut self, slot: usize)
        requires
            old(self).wf(),
            old(self)@.trace matches Some(tr) ==> alloc_count_of(tr) < COUNTER_CAP,
        ensures
            final(self).wf(),
            final(self)@ == spec_rc_alloc(old(self)@, slot),
    {
        match &mut self.trace {
            Some(t) => {
                t.add(Event::Alloc(slot));
            },
            None => {},
        }
        proof {
            assert(self@ =~~= spec_rc_alloc(old(self)@, slot));
        }
    }

    /// Records a free of `slot` into the active trace, if sampling.
    pub fn free(&mut self, slot: usize)
        requires
            old(self).wf(),
        ensures
            final(self).wf(),
            final(self)@ == spec_rc_free(old(self)@, slot),
    {
        match &mut self.trace {
            Some(t) => {
                t.add(Event::Free(slot));
            },
            None => {},
        }
        proof {
            assert(self@ =~~= spec_rc_free(old(self)@, slot));
        }
    }

    /// Whether the counter is currently sampling a burst.
    pub fn sampling(&self) -> (b: bool)
        ensures
            b == (self@.trace is Some),
    {
        self.trace.is_some()
    }

    /// Advances the tick counter and drives the burst/hibernate transitions.
    pub fn inc_timer(&mut self)
        requires
            old(self).wf(),
            old(self)@.trace matches Some(tr) ==> alloc_count_of(tr) <= COUNTER_CAP,
        ensures
            final(self).wf(),
            final(self)@ == spec_rc_tick(old(self)@),
    {
        self.n = self.n + 1;
        match &self.trace {
            Some(trace) => {
                if self.n >= self.burst_length {
                    proof {
                        trace.lemma_view_len();
                        lemma_table_ok(trace@);
                    }
                    self.reuse = Some(linear_reuse(trace));
                    self.n = 0;
                    self.trace = None;
                }
            },
            None => {
                if self.n >= self.hibernation_period {
                    self.n = 0;
                    let t = Trace::new();
                    proof {
                        assert(t@ =~= Seq::<Event>::empty());
                    }
                    self.trace = Some(t);
                }
            },
        }
        proof {
            assert(self@ =~~= spec_rc_tick(old(self)@));
        }
    }

    /// The cached reuse value for window length `k`.
    pub fn reuse(&self, k: usize) -> (r: Option<Ratio>)
        requires
            self.wf(),
        ensures
            r == spec_rc_reuse(self@, k as int),
            r matches Some(ru) ==> 1 <= ru.den <= COUNTER_CAP && 0 <= ru.num <= ru.den
                * COUNTER_CAP,
    {
        match &self.reuse {
            Some(table) => {
                if 1 <= k && k <= table.len() {
                    let entry = table[k - 1];
                    proof {
                        assert(entry.num <= entry.den * table@.len() ==> entry.num <= entry.den
                            * COUNTER_CAP) by (nonlinear_arith)
                            requires
                                0 <= table@.len() <= COUNTER_CAP,
                                1 <= entry.den,
                        ;
                    }
                    Some(entry)
                } else {
                    Some(Ratio::zero())
                }
            },
            None => None,
        }
    }
}

} // verus!
