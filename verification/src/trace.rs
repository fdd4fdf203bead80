use vstd::prelude::*;

use std::collections::HashMap;

use crate::constants::INIT_TRACE_LENGTH;

verus! {

broadcast use vstd::std_specs::hash::group_hash_axioms;

/// A single allocation or free operation on the heap slot carried as payload.
/// Equal slots across different events denote the same block.
#[derive(Clone, Copy, Debug, PartialEq, Eq, Structural)]
pub enum Event {
    Alloc(usize),
    Free(usize),
}

impl Event {
    /// The heap slot the event refers to.
    pub open spec fn slot(self) -> usize {
        match self {
            Event::Alloc(s) => s,
            Event::Free(s) => s,
        }
    }
}

/// Number of allocation events in `evs`.
pub open spec fn alloc_count_of(evs: Seq<Event>) -> int
    decreases evs.len(),
{
    if evs.len() == 0 {
        0
    } else {
        alloc_count_of(evs.drop_last()) + (if evs.last() is Alloc {
            1int
        } else {
            0int
        })
    }
}

/// The allocation count of a trace never exceeds its length.
pub proof fn lemma_alloc_count_le_len(evs: Seq<Event>)
    ensures
        0 <= alloc_count_of(evs) <= evs.len(),
    decreases evs.len(),
{
    if evs.len() > 0 {
        lemma_alloc_count_le_len(evs.drop_last());
    }
}

/// Map from slot to the allocation clock at its most recent free event.
pub open spec fn frees_map_of(evs: Seq<Event>) -> Map<usize, usize>
    decreases evs.len(),
{
    if evs.len() == 0 {
        Map::empty()
    } else {
        let m = frees_map_of(evs.drop_last());
        match evs.last() {
            Event::Alloc(_) => m,
            Event::Free(s) => m.insert(s, alloc_count_of(evs.drop_last()) as usize),
        }
    }
}

/// The free intervals of `evs` under the allocation clock: a pair (s, e) for
/// each allocation whose slot is recorded as freed, where s is the allocation
/// count at the most recent free of the slot and e is the allocation count
/// immediately after the reusing allocation.
pub open spec fn spec_free_intervals(evs: Seq<Event>) -> Seq<(usize, usize)>
    decreases evs.len(),
{
    if evs.len() == 0 {
        Seq::empty()
    } else {
        let pre = spec_free_intervals(evs.drop_last());
        match evs.last() {
            Event::Free(_) => pre,
            Event::Alloc(s) => {
                let m = frees_map_of(evs.drop_last());
                if m.contains_key(s) {
                    pre.push((m[s], (alloc_count_of(evs.drop_last()) + 1) as usize))
                } else {
                    pre
                }
            },
        }
    }
}

/// Map from slot to the index of its most recent free event.
pub open spec fn frees_index_map_of(evs: Seq<Event>) -> Map<usize, usize>
    decreases evs.len(),
{
    if evs.len() == 0 {
        Map::empty()
    } else {
        let m = frees_index_map_of(evs.drop_last());
        match evs.last() {
            Event::Alloc(_) => m,
            Event::Free(s) => m.insert(s, (evs.len() - 1) as usize),
        }
    }
}

/// The free intervals of `evs` under the event clock: a pair (s, e) for each
/// allocation event whose slot is recorded as freed, where s is the index of
/// the most recent free of the slot and e is the index of the reusing
/// allocation event.
pub open spec fn spec_free_intervals_alt(evs: Seq<Event>) -> Seq<(usize, usize)>
    decreases evs.len(),
{
    if evs.len() == 0 {
        Seq::empty()
    } else {
        let pre = spec_free_intervals_alt(evs.drop_last());
        match evs.last() {
            Event::Free(_) => pre,
            Event::Alloc(s) => {
                let m = frees_index_map_of(evs.drop_last());
                if m.contains_key(s) {
                    pre.push((m[s], (evs.len() - 1) as usize))
                } else {
                    pre
                }
            },
        }
    }
}

/// Slot states while scanning a trace: present with true means currently
/// allocated, present with false means allocated and then freed, absent means
/// never seen.
pub open spec fn alloc_state_of(evs: Seq<Event>) -> Map<usize, bool>
    decreases evs.len(),
{
    if evs.len() == 0 {
        Map::empty()
    } else {
        let m = alloc_state_of(evs.drop_last());
        match evs.last() {
            Event::Alloc(s) => m.insert(s, true),
            Event::Free(s) => m.insert(s, false),
        }
    }
}

/// A trace is valid when no slot is allocated twice without an intervening
/// free, no slot is freed twice without an intervening allocation, and no
/// slot is freed before its first allocation.
pub open spec fn spec_valid(evs: Seq<Event>) -> bool
    decreases evs.len(),
{
    if evs.len() == 0 {
        true
    } else {
        let m = alloc_state_of(evs.drop_last());
        spec_valid(evs.drop_last()) && match evs.last() {
            Event::Alloc(s) => !(m.contains_key(s) && m[s]),
            Event::Free(s) => m.contains_key(s) && m[s],
        }
    }
}

/// Every prefix of a valid trace is valid.
pub proof fn lemma_valid_prefix(evs: Seq<Event>, j: int)
    requires
        spec_valid(evs),
        0 <= j <= evs.len(),
    ensures
        spec_valid(evs.take(j)),
    decreases evs.len(),
{
    if j < evs.len() {
        assert(evs.take(evs.len() - 1) =~= evs.drop_last());
        lemma_valid_prefix(evs.drop_last(), j);
        assert(evs.drop_last().take(j) =~= evs.take(j));
    } else {
        assert(evs.take(j) =~= evs);
    }
}

/// The set of slots referenced in `evs`.
pub open spec fn slots_of(evs: Seq<Event>) -> Set<usize>
    decreases evs.len(),
{
    if evs.len() == 0 {
        Set::empty()
    } else {
        slots_of(evs.drop_last()).insert(evs.last().slot())
    }
}

/// The slot set of a trace is finite.
pub proof fn lemma_slots_finite(evs: Seq<Event>)
    ensures
        slots_of(evs).finite(),
    decreases evs.len(),
{
    if evs.len() > 0 {
        lemma_slots_finite(evs.drop_last());
    }
}

/// Every clock recorded in the frees map of `evs` is at most the allocation
/// count of `evs`.
pub proof fn lemma_frees_map_bounds(evs: Seq<Event>)
    requires
        evs.len() <= usize::MAX,
    ensures
        forall|s: usize| frees_map_of(evs).contains_key(s)
            ==> #[trigger] frees_map_of(evs)[s] <= alloc_count_of(evs),
    decreases evs.len(),
{
    lemma_alloc_count_le_len(evs);
    if evs.len() > 0 {
        lemma_frees_map_bounds(evs.drop_last());
        lemma_alloc_count_le_len(evs.drop_last());
        assert forall|s: usize| frees_map_of(evs).contains_key(s) implies #[trigger] frees_map_of(
            evs,
        )[s] <= alloc_count_of(evs) by {
            let m = frees_map_of(evs.drop_last());
            match evs.last() {
                Event::Alloc(_) => {
                    assert(frees_map_of(evs)[s] == m[s]);
                },
                Event::Free(t) => {
                    if s != t {
                        assert(m.contains_key(s) && frees_map_of(evs)[s] == m[s]);
                    }
                },
            }
        }
    }
}

/// Shape of the emitted free intervals: there are at most as many intervals
/// as allocations, and every interval (s, e) starts strictly before it ends
/// and ends no later than the final allocation count.
pub proof fn lemma_free_intervals_bounds(evs: Seq<Event>)
    requires
        evs.len() <= usize::MAX,
    ensures
        spec_free_intervals(evs).len() <= alloc_count_of(evs),
        forall|j: int| 0 <= j < spec_free_intervals(evs).len() ==> {
            let iv = #[trigger] spec_free_intervals(evs)[j];
            iv.0 < iv.1 <= alloc_count_of(evs)
        },
    decreases evs.len(),
{
    lemma_alloc_count_le_len(evs);
    if evs.len() > 0 {
        lemma_free_intervals_bounds(evs.drop_last());
        lemma_alloc_count_le_len(evs.drop_last());
        lemma_frees_map_bounds(evs.drop_last());
    }
}

/// An append-only ordered sequence of allocation and free events, with its
/// total length and its allocation count kept in sync.
pub struct Trace {
    accesses: Vec<Event>,
    length: usize,
    alloc_count: usize,
}

impl View for Trace {
    type V = Seq<Event>;

    closed spec fn view(&self) -> Seq<Event> {
        self.accesses@
    }
}

impl Trace {
    /// The derived counts agree with the recorded events.
    pub closed spec fn wf(self) -> bool {
        &&& self.length == self.accesses@.len()
        &&& self.alloc_count == alloc_count_of(self.accesses@)
    }

    /// The recorded events always fit the machine's address range.
    pub proof fn lemma_view_len(&self)
        requires
            self.wf(),
        ensures
            self@.len() <= usize::MAX,
    {
    }

    /// An empty trace.
    pub fn new() -> (t: Trace)
        ensures
            t.wf(),
            t@.len() == 0,
    {
        Trace {
            accesses: Vec::with_capacity(INIT_TRACE_LENGTH),
            length: 0,
            alloc_count: 0,
        }
    }

    /// Total number of events added so far.
    pub fn length(&self) -> (n: usize)
        requires
            self.wf(),
        ensures
            n == self@.len(),
    {
        self.length
    }

    /// Number of allocation events added so far.
    pub fn alloc_length(&self) -> (n: usize)
        requires
            self.wf(),
        ensures
            n == alloc_count_of(self@),
    {
        self.alloc_count
    }

    /// Appends one event.
    pub fn add(&mut self, add: Event)
        requires
            old(self).wf(),
        ensures
            final(self).wf(),
            final(self)@ == old(self)@.push(add),
    {
        self.accesses.push(add);
        let n = self.accesses.len();
        self.length = n;
        proof {
            assert(self.accesses@.drop_last() =~= old(self).accesses@);
            lemma_alloc_count_le_len(old(self).accesses@);
        }
        match add {
            Event::Alloc(_) => {
                self.alloc_count = self.alloc_count + 1;
            },
            Event::Free(_) => {},
        }
    }

    /// The event at `index`.
    pub fn get(&self, index: usize) -> (e: Event)
        requires
            self.wf(),
            index < self@.len(),
        ensures
            e == self@[index as int],
    {
        self.accesses[index]
    }

    /// Number of distinct slots referenced in the trace.
    pub fn object_count(&self) -> (n: usize)
        requires
            self.wf(),
        ensures
            n == slots_of(self@).len(),
    {
        let mut seen: HashMap<usize, bool> = HashMap::new();
        let mut i: usize = 0;
        while i < self.length
            invariant
                self.wf(),
                i <= self@.len(),
                seen@.dom() =~= slots_of(self@.take(i as int)),
            decreases self@.len() - i,
        {
            let ghost pre = self@.take(i as int);
            match self.accesses[i] {
                Event::Alloc(s) => {
                    if !seen.contains_key(&s) {
                        seen.insert(s, true);
                    }
                },
                Event::Free(s) => {
                    if !seen.contains_key(&s) {
                        seen.insert(s, true);
                    }
                },
            }
            i = i + 1;
            proof {
                assert(self@.take(i as int).drop_last() =~= pre);
                assert(seen@.dom() =~= slots_of(self@.take(i as int)));
            }
        }
        proof {
            assert(self@.take(self@.len() as int) =~= self@);
            lemma_slots_finite(self@);
        }
        seen.len()
    }

    /// The free intervals of the trace under the allocation clock.
    pub fn free_intervals(&self) -> (r: Vec<(usize, usize)>)
        requires
            self.wf(),
        ensures
            r@ == spec_free_intervals(self@),
    {
        let mut frees: HashMap<usize, usize> = HashMap::new();
        let mut result: Vec<(usize, usize)> = Vec::new();
        let mut alloc_clock: usize = 0;
        let mut i: usize = 0;
        while i < self.length
            invariant
                self.wf(),
                i <= self@.len(),
                alloc_clock == alloc_count_of(self@.take(i as int)),
                frees@ == frees_map_of(self@.take(i as int)),
                result@ == spec_free_intervals(self@.take(i as int)),
            decreases self@.len() - i,
        {
            let ghost pre = self@.take(i as int);
            proof {
                lemma_alloc_count_le_len(pre);
            }
            match self.accesses[i] {
                Event::Free(s) => {
                    frees.insert(s, alloc_clock);
                },
                Event::Alloc(s) => {
                    match frees.get(&s) {
                        Some(f) => {
                            result.push((*f, alloc_clock + 1));
                        },
                        None => {},
                    }
                    alloc_clock = alloc_clock + 1;
                },
            }
            i = i + 1;
            proof {
                assert(self@.take(i as int).drop_last() =~= pre);
            }
        }
        proof {
            assert(self@.take(self@.len() as int) =~= self@);
        }
        result
    }

    /// The free intervals of the trace under the event clock.
    pub fn free_intervals_alt(&self) -> (r: Vec<(usize, usize)>)
        requires
            self.wf(),
        ensures
            r@ == spec_free_intervals_alt(self@),
    {
        let mut frees: HashMap<usize, usize> = HashMap::new();
        let mut result: Vec<(usize, usize)> = Vec::new();
        let mut i: usize = 0;
        while i < self.length
            invariant
                self.wf(),
                i <= self@.len(),
                frees@ == frees_index_map_of(self@.take(i as int)),
                result@ == spec_free_intervals_alt(self@.take(i as int)),
            decreases self@.len() - i,
        {
            let ghost pre = self@.take(i as int);
            match self.accesses[i] {
                Event::Free(s) => {
                    frees.insert(s, i);
                },
                Event::Alloc(s) => {
                    match frees.get(&s) {
                        Some(f) => {
                            result.push((*f, i));
                        },
                        None => {},
                    }
                },
            }
            i = i + 1;
            proof {
                assert(self@.take(i as int).drop_last() =~= pre);
            }
        }
        proof {
            assert(self@.take(self@.len() as int) =~= self@);
        }
        result
    }

    /// Scans the trace once and reports whether it is valid.
    pub fn valid(&self) -> (b: bool)
        requires
            self.wf(),
        ensures
            b == spec_valid(self@),
    {
        let mut alloc: HashMap<usize, bool> = HashMap::new();
        let mut i: usize = 0;
        while i < self.length
            invariant
                self.wf(),
                i <= self@.len(),
                spec_valid(self@.take(i as int)),
                alloc@ == alloc_state_of(self@.take(i as int)),
            decreases self@.len() - i,
        {
            let ghost pre = self@.take(i as int);
            proof {
                assert(self@.take(i + 1).drop_last() =~= pre);
            }
            match self.accesses[i] {
                Event::Alloc(s) => {
                    match alloc.insert(s, true) {
                        Some(b) => {
                            if b {
                                proof {
                                    lemma_valid_extension_false(self@, i as int);
                                }
                                return false;
                            }
                        },
                        None => {},
                    }
                },
                Event::Free(s) => {
                    match alloc.insert(s, false) {
                        Some(b) => {
                            if !b {
                                proof {
                                    lemma_valid_extension_false(self@, i as int);
                                }
                                return false;
                            }
                        },
                        None => {
                            proof {
                                lemma_valid_extension_false(self@, i as int);
                            }
                            return false;
                        },
                    }
                },
            }
            i = i + 1;
        }
        proof {
            assert(self@.take(self@.len() as int) =~= self@);
        }
        true
    }
}

/// If the event at position `i` breaks validity of the prefix ending there,
/// the whole trace is invalid.
proof fn lemma_valid_extension_false(evs: Seq<Event>, i: int)
    requires
        0 <= i < evs.len(),
        !spec_valid(evs.take(i + 1)),
    ensures
        !spec_valid(evs),
{
    if spec_valid(evs) {
        lemma_valid_prefix(evs, i + 1);
    }
}

} // verus!
