use apf_tuner::histogram::Histogram;
use apf_tuner::ratio::Ratio;
use apf_tuner::trace::Event;
use apf_tuner::trace::Trace;

#[test]
fn trace_counts_match_adds() {
    let mut t = Trace::new();
    assert_eq!(t.length(), 0);
    assert_eq!(t.alloc_length(), 0);
    t.add(Event::Alloc(5));
    t.add(Event::Free(5));
    t.add(Event::Alloc(5));
    t.add(Event::Free(5));
    t.add(Event::Free(7));
    assert_eq!(t.length(), 5);
    assert_eq!(t.alloc_length(), 2);
    assert!(matches!(t.get(0), Event::Alloc(5)));
    assert!(matches!(t.get(4), Event::Free(7)));
}

#[test]
fn trace_object_count_distinct_slots() {
    let mut t = Trace::new();
    t.add(Event::Alloc(1));
    t.add(Event::Free(1));
    t.add(Event::Alloc(2));
    t.add(Event::Alloc(1));
    assert_eq!(t.object_count(), 2);
    t.add(Event::Free(9));
    assert_eq!(t.object_count(), 3);
}

#[test]
fn trace_free_intervals_allocation_clock() {
    let mut t = Trace::new();
    let events = [
        Event::Alloc(1),
        Event::Alloc(2),
        Event::Alloc(3),
        Event::Free(3),
        Event::Free(2),
        Event::Free(1),
        Event::Alloc(1),
        Event::Alloc(2),
        Event::Alloc(3),
        Event::Free(3),
        Event::Free(2),
        Event::Free(1),
        Event::Alloc(1),
        Event::Alloc(2),
        Event::Alloc(3),
    ];
    for e in events.iter() {
        t.add(*e);
    }
    let ivs = t.free_intervals();
    assert_eq!(ivs, vec![(3, 4), (3, 5), (3, 6), (6, 7), (6, 8), (6, 9)]);
    // No more intervals than matched free/alloc pairs, and each starts
    // strictly before it ends.
    assert!(ivs.len() <= t.alloc_length());
    for (s, e) in ivs.iter() {
        assert!(s < e);
        assert!(*e <= t.alloc_length());
    }
}

#[test]
fn trace_free_intervals_event_clock() {
    let mut t = Trace::new();
    t.add(Event::Alloc(1));
    t.add(Event::Free(1));
    t.add(Event::Alloc(1));
    t.add(Event::Free(1));
    t.add(Event::Alloc(1));
    let ivs = t.free_intervals_alt();
    assert_eq!(ivs, vec![(1, 2), (3, 4)]);
}

#[test]
fn trace_unmatched_frees_are_ignored() {
    let mut t = Trace::new();
    t.add(Event::Free(1));
    t.add(Event::Alloc(2));
    t.add(Event::Alloc(3));
    // The only free never sees an allocation of its own slot after it.
    assert_eq!(t.free_intervals(), vec![]);
}

#[test]
fn trace_valid_accepts_proper_reuse() {
    let mut t = Trace::new();
    t.add(Event::Alloc(1));
    t.add(Event::Free(1));
    t.add(Event::Alloc(1));
    assert!(t.valid());
}

#[test]
fn trace_valid_rejects_double_alloc() {
    let mut t = Trace::new();
    t.add(Event::Alloc(1));
    t.add(Event::Alloc(1));
    assert!(!t.valid());
}

#[test]
fn trace_valid_rejects_double_free() {
    let mut t = Trace::new();
    t.add(Event::Alloc(1));
    t.add(Event::Free(1));
    t.add(Event::Free(1));
    assert!(!t.valid());
}

#[test]
fn trace_valid_rejects_free_before_alloc() {
    let mut t = Trace::new();
    t.add(Event::Free(1));
    t.add(Event::Alloc(1));
    assert!(!t.valid());
}

#[test]
fn histogram_reads_zero_when_unwritten() {
    let h = Histogram::new();
    assert_eq!(h.get(0), 0);
    assert_eq!(h.get(1000), 0);
    assert_eq!(h.count(), 0);
}

#[test]
fn histogram_accumulates() {
    let mut h = Histogram::new();
    h.increment(3);
    h.increment(3);
    h.add(3, 5);
    h.add(7, 2);
    assert_eq!(h.get(3), 7);
    assert_eq!(h.get(7), 2);
    assert_eq!(h.get(5), 0);
    assert_eq!(h.count(), 2);
}

#[test]
fn histogram_counts_distinct_written_keys() {
    let mut h = Histogram::new();
    h.add(7, 2);
    assert_eq!(h.count(), 1);
    h.increment(7);
    assert_eq!(h.count(), 1);
    h.increment(0);
    assert_eq!(h.count(), 2);
}

#[test]
fn histogram_grow_preserves_counts() {
    let mut h = Histogram::new();
    h.add(2, 9);
    h.grow(100);
    assert_eq!(h.get(2), 9);
    assert_eq!(h.get(100), 0);
    // Growing backs more keys but writes none.
    assert_eq!(h.count(), 1);
}

#[test]
fn ratio_ceiling_and_sign() {
    let r = Ratio::new(5, 2);
    assert_eq!(r.ceil_clamped(), 3);
    assert_eq!(Ratio::new(4, 2).ceil_clamped(), 2);
    assert_eq!(Ratio::new(-3, 2).ceil_clamped(), 0);
    assert_eq!(Ratio::zero().ceil_clamped(), 0);
    assert!(Ratio::new(-1, 3).is_negative());
    assert!(!Ratio::zero().is_negative());
}
