use apf_tuner::liveness_counter;
use apf_tuner::ratio::Ratio;
use apf_tuner::reuse_counter::ReuseCounter;
use apf_tuner::timescale_functions;
use apf_tuner::timescale_functions::linear_reuse;
use apf_tuner::timescale_functions::quadratic_reuse;
use apf_tuner::trace::Event;
use apf_tuner::trace::Trace;

fn burst_trace() -> Trace {
    let mut t = Trace::new();
    let events = [
        Event::Alloc(1),
        Event::Alloc(2),
        Event::Alloc(3),
        Event::Free(3),
        Event::Free(2),
        Event::Free(1),
        Event::Alloc(1),
        Event::Alloc(2),
        Event::Alloc(3),
        Event::Free(3),
        Event::Free(2),
        Event::Free(1),
        Event::Alloc(1),
        Event::Alloc(2),
        Event::Alloc(3),
    ];
    for e in events.iter() {
        t.add(*e);
    }
    t
}

#[test]
fn liveness_counter_test_liveness_counter() {
    let mut lc = liveness_counter::LivenessCounter::new();
    lc.inc_timer();
    lc.record_alloc(); // a1
    lc.inc_timer();
    lc.record_alloc(); // a2
    lc.inc_timer();
    lc.record_alloc(); // a3

    let r = lc.liveness(1);
    assert_eq!(r.num as f64 / r.den as f64, 2.0);
}

#[test]
fn timescale_functions_test_liveness_counter() {
    let mut lc = timescale_functions::LivenessCounter::new();
    lc.record_alloc(); // a1
    lc.inc_timer();
    lc.record_alloc(); // a2
    lc.inc_timer();
    lc.record_alloc(); // a3
    lc.inc_timer();
    lc.free(); // f1
    lc.free(); // f2
    lc.free(); // f3

    assert_eq!(lc.liveness(1), 2);
}

#[test]
fn test_linear_reuse_function() {
    let t = burst_trace();
    assert_eq!(quadratic_reuse(&t)[0], linear_reuse(&t)[0]);
}

#[test]
fn test_linear_reuse_function_2() {
    let t = burst_trace();
    assert_eq!(quadratic_reuse(&t)[2], linear_reuse(&t)[2]);
}

#[test]
fn test_linear_reuse_function_3() {
    let t = burst_trace();
    assert_eq!(quadratic_reuse(&t)[4], linear_reuse(&t)[4]);
}

#[test]
fn reuse_reductions_agree_everywhere() {
    let t = burst_trace();
    let fast = linear_reuse(&t);
    let reference = quadratic_reuse(&t);
    assert_eq!(fast.len(), 9);
    assert_eq!(reference.len(), 9);
    for k in 0..fast.len() {
        assert_eq!(fast[k], reference[k]);
    }
}

#[test]
fn reuse_no_intervals_is_zero() {
    let mut t = Trace::new();
    t.add(Event::Alloc(1));
    t.add(Event::Alloc(2));
    t.add(Event::Alloc(3));
    let table = linear_reuse(&t);
    assert_eq!(table.len(), 3);
    for k in 0..table.len() {
        assert_eq!(table[k].num, 0);
    }
    assert_eq!(table[0].den, 3);
    assert_eq!(table[1].den, 2);
    assert_eq!(table[2].den, 1);
}

#[test]
fn reuse_exact_value_for_unit_windows() {
    // Of the nine windows of one allocation, exactly two reuse a block
    // freed immediately before: R(1) = 2/9.
    let t = burst_trace();
    let table = linear_reuse(&t);
    assert_eq!(table[0], Ratio { num: 2, den: 9 });
}

#[test]
fn reuse_single_reuse_trace() {
    // Alloc(1) Free(1) Alloc(1): one interval, contained in the second of
    // the two unit windows and in the single full window.
    let mut t = Trace::new();
    t.add(Event::Alloc(1));
    t.add(Event::Free(1));
    t.add(Event::Alloc(1));
    let table = linear_reuse(&t);
    assert_eq!(table.len(), 2);
    assert_eq!(table[0], Ratio { num: 1, den: 2 });
    assert_eq!(table[1], Ratio { num: 1, den: 1 });
}

#[test]
fn reuse_counter_state_machine() {
    let mut rc = ReuseCounter::new(3, 5);
    let expected = [
        true, true, true, // first sampling burst
        false, false, false, false, false, // hibernation
        true, true, true, // second burst
        false, false, false, false, false, // hibernation again
    ];
    for i in 0..16 {
        assert_eq!(rc.sampling(), expected[i], "tick {}", i + 1);
        if rc.sampling() {
            rc.record_alloc(100 + i);
        }
        rc.inc_timer();
    }
}

#[test]
fn reuse_counter_unknown_before_first_burst() {
    let mut rc = ReuseCounter::new(3, 5);
    rc.record_alloc(1);
    rc.inc_timer();
    assert!(rc.reuse(1).is_none());
    rc.record_alloc(2);
    rc.inc_timer();
    assert!(rc.reuse(1).is_none());
    rc.record_alloc(3);
    rc.inc_timer(); // burst completes here
    assert!(rc.reuse(1).is_some());
    assert_eq!(rc.reuse(1).unwrap().num, 0);
    // Keys outside the table read as zero.
    assert_eq!(rc.reuse(0).unwrap(), Ratio { num: 0, den: 1 });
    assert_eq!(rc.reuse(99).unwrap(), Ratio { num: 0, den: 1 });
}

#[test]
fn reuse_counter_drops_events_while_hibernating() {
    let mut rc = ReuseCounter::new(2, 2);
    rc.record_alloc(1);
    rc.inc_timer();
    rc.record_alloc(1);
    rc.inc_timer(); // burst of two allocations completes
    let first = rc.reuse(1);
    // Hibernating: these events must be discarded.
    rc.record_alloc(2);
    rc.free(2);
    assert!(!rc.sampling());
    assert_eq!(rc.reuse(1), first);
}

#[test]
fn reuse_of_empty_trace_is_empty() {
    let t = Trace::new();
    assert!(linear_reuse(&t).is_empty());
    assert!(quadratic_reuse(&t).is_empty());
}

#[test]
fn second_burst_replaces_the_table() {
    let mut rc = ReuseCounter::new(2, 1);
    rc.record_alloc(5);
    rc.inc_timer();
    rc.record_alloc(6);
    rc.inc_timer(); // first burst: two allocations, no reuse
    assert_eq!(rc.reuse(1).unwrap(), Ratio { num: 0, den: 2 });
    rc.inc_timer(); // one tick of hibernation
    assert!(rc.sampling());
    rc.record_alloc(5);
    rc.free(5);
    rc.inc_timer();
    rc.record_alloc(5);
    rc.inc_timer(); // second burst: one immediate reuse of slot five
    assert_eq!(rc.reuse(1).unwrap(), Ratio { num: 1, den: 2 });
    assert_eq!(rc.reuse(2).unwrap(), Ratio { num: 1, den: 1 });
}

#[test]
fn liveness_with_frees_mixed_in() {
    let mut lc = liveness_counter::LivenessCounter::new();
    lc.inc_timer();
    lc.record_alloc();
    lc.inc_timer();
    lc.record_alloc();
    lc.inc_timer();
    lc.free();
    // Window of length one at time three: both blocks live at the start,
    // one freed within the window.
    let r = lc.liveness(1);
    assert_eq!((r.num, r.den), (5, 3));
    let r0 = lc.liveness(0);
    assert_eq!((r0.num, r0.den), (5, 4));
    // A window longer than history reads as zero.
    let far = lc.liveness(10);
    assert_eq!((far.num, far.den), (0, 1));
}
