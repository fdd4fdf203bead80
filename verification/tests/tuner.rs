use std::cell::Cell;
use std::cell::RefCell;
use std::rc::Rc;

use apf_tuner::ApfTuner;

#[test]
fn malloc_fails_softly_before_first_burst() {
    let check = |_id: usize| -> u32 { 0 };
    let get = |_id: usize, _n: usize| -> bool { true };
    let ret = |_id: usize, _n: u32| -> bool { true };
    let mut t = ApfTuner::new(1, 100, check, get, ret);
    // The free list is drained but no burst has completed: the tuner must
    // leave the fetch to the host's default path.
    assert!(!t.malloc(42));
}

#[test]
fn tuner_fetches_ceil_of_demand_when_drained() {
    let check_val = Rc::new(Cell::new(1u32));
    let gets: Rc<RefCell<Vec<usize>>> = Rc::new(RefCell::new(Vec::new()));
    let rets: Rc<RefCell<Vec<u32>>> = Rc::new(RefCell::new(Vec::new()));

    let cv = check_val.clone();
    let check = move |_id: usize| -> u32 { cv.get() };
    let g = gets.clone();
    let get = move |_id: usize, n: usize| -> bool {
        g.borrow_mut().push(n);
        true
    };
    let r = rets.clone();
    let ret = move |_id: usize, n: u32| -> bool {
        r.borrow_mut().push(n);
        true
    };

    let mut t = ApfTuner::new(7, 100, check, get, ret);

    // Prime the reuse counter: one full burst of distinct allocations, with
    // the free list non-empty so that no fetch is attempted.
    for i in 0..3000 {
        assert!(t.malloc(10_000 + i));
    }
    assert!(gets.borrow().is_empty());

    // Drain the free list.  The residual window is the full target and the
    // burst saw no reuse, so the demand is the whole window.
    check_val.set(0);
    assert!(t.malloc(50));
    assert_eq!(gets.borrow().as_slice(), &[100]);

    // With plenty of free blocks on a free event, the tuner returns
    // ceil(demand) + 1 blocks, exactly once.
    check_val.set(300);
    assert!(t.free(50));
    assert_eq!(rets.borrow().as_slice(), &[101]);
}

#[test]
fn free_without_statistics_does_nothing() {
    let calls: Rc<RefCell<Vec<u32>>> = Rc::new(RefCell::new(Vec::new()));
    let check = |_id: usize| -> u32 { 500 };
    let get = |_id: usize, _n: usize| -> bool { true };
    let c = calls.clone();
    let ret = move |_id: usize, n: u32| -> bool {
        c.borrow_mut().push(n);
        true
    };
    let mut t = ApfTuner::new(2, 100, check, get, ret);
    assert!(!t.free(9));
    assert!(calls.borrow().is_empty());
}

#[test]
fn set_id_changes_callback_argument() {
    let ids: Rc<RefCell<Vec<usize>>> = Rc::new(RefCell::new(Vec::new()));
    let seen = ids.clone();
    let check = move |id: usize| -> u32 {
        seen.borrow_mut().push(id);
        1
    };
    let get = |_id: usize, _n: usize| -> bool { true };
    let ret = |_id: usize, _n: u32| -> bool { true };
    let mut t = ApfTuner::new(3, 100, check, get, ret);
    assert!(t.malloc(1));
    t.set_id(8);
    assert!(t.malloc(2));
    assert_eq!(ids.borrow().as_slice(), &[3, 8]);
}
