use taskcore::deadlock::DeadlockChecker;

#[test]
fn new_checker_is_empty_and_safe() {
    let c = DeadlockChecker::new();
    assert!(!c.holds_any(0));
    assert!(!c.needs_any(0));
    assert!(c.check());
}

#[test]
fn single_holder_can_finish() {
    // available = [0], allocation = {T1: {R0: 1}}, need = {T1: {R0: 0}}
    let mut c = DeadlockChecker::new();
    c.push_available(0);
    c.inc_allocation(1, 0, 1);
    c.inc_need(1, 0, 0);
    assert!(!c.needs_any(1));
    assert!(c.check());
}

#[test]
fn waiter_finishes_after_holder_releases() {
    // available = [0], allocation = {T1: {R0: 1}, T2: {R0: 0}}, need = {T1: {R0: 0}, T2: {R0: 1}}
    let mut c = DeadlockChecker::new();
    c.push_available(0);
    c.inc_allocation(1, 0, 1);
    c.inc_allocation(2, 0, 0);
    c.inc_need(1, 0, 0);
    c.inc_need(2, 0, 1);
    assert!(c.check());
}

#[test]
fn circular_wait_is_unsafe() {
    // available = [0], allocation = {T1: {R0: 1}, T2: {R0: 1}}, need = {T1: {R0: 1}, T2: {R0: 1}}
    let mut c = DeadlockChecker::new();
    c.push_available(0);
    c.inc_allocation(1, 0, 1);
    c.inc_allocation(2, 0, 1);
    c.inc_need(1, 0, 1);
    c.inc_need(2, 0, 1);
    assert!(!c.check());
}

#[test]
fn check_leaves_state_alone() {
    let mut c = DeadlockChecker::new();
    c.push_available(2);
    c.inc_allocation(1, 0, 1);
    c.inc_need(1, 0, 2);
    assert!(c.check());
    assert!(c.check());
    assert_eq!(c.get_available(0), 2);
    assert_eq!(c.get_allocation(1, 0), 1);
    assert_eq!(c.get_need(1, 0), 2);
}

#[test]
fn two_resources_chain_is_safe() {
    // T1 needs one unit of R1 that only T2 holds; T2 can finish first.
    let mut c = DeadlockChecker::new();
    c.push_available(1);
    c.push_available(0);
    c.inc_allocation(1, 0, 1);
    c.inc_need(1, 1, 1);
    c.inc_allocation(2, 1, 1);
    c.inc_need(2, 0, 1);
    assert!(c.check());
    c.set_available(0, 0);
    assert!(!c.check());
}

#[test]
fn available_mutators() {
    let mut c = DeadlockChecker::new();
    c.push_available(3);
    c.push_available(5);
    c.inc_available(0, 4);
    assert_eq!(c.get_available(0), 7);
    c.dec_available(1, 5);
    assert_eq!(c.get_available(1), 0);
    c.set_available(1, 9);
    assert_eq!(c.get_available(1), 9);
}

#[test]
fn increments_add_the_count() {
    let mut c = DeadlockChecker::new();
    c.push_available(0);
    c.push_available(0);
    c.inc_allocation(4, 0, 2);
    c.inc_allocation(4, 1, 3);
    c.inc_allocation(4, 1, 3);
    assert_eq!(c.get_allocation(4, 0), 2);
    assert_eq!(c.get_allocation(4, 1), 6);
    c.inc_need(4, 1, 5);
    c.inc_need(4, 1, 1);
    assert_eq!(c.get_need(4, 1), 6);
}

#[test]
fn decrements_prune_zero_entries_and_empty_rows() {
    let mut c = DeadlockChecker::new();
    c.push_available(0);
    c.push_available(0);
    c.inc_allocation(7, 0, 2);
    c.inc_allocation(7, 1, 1);
    c.dec_allocation(7, 0, 2);
    assert_eq!(c.get_allocation(7, 0), 0);
    assert!(c.holds_any(7));
    c.dec_allocation(7, 1, 5);
    assert_eq!(c.get_allocation(7, 1), 0);
    assert!(!c.holds_any(7));
    c.inc_need(7, 0, 3);
    c.dec_need(7, 0, 1);
    assert_eq!(c.get_need(7, 0), 2);
    c.dec_need(7, 0, 2);
    assert!(!c.needs_any(7));
    // decrementing what is not recorded changes nothing
    c.dec_need(9, 0, 1);
    assert!(!c.needs_any(9));
}

#[test]
fn alloc_then_dealloc_round_trip() {
    let mut c = DeadlockChecker::new();
    c.push_available(3);
    c.inc_need(1, 0, 2);
    c.alloc_res(1, 0, 2);
    assert_eq!(c.get_available(0), 1);
    assert_eq!(c.get_allocation(1, 0), 2);
    assert!(!c.needs_any(1));
    c.dealloc_res(1, 0, 2);
    assert_eq!(c.get_available(0), 3);
    assert!(!c.holds_any(1));
    assert_eq!(c.get_allocation(1, 0), 0);
}

#[test]
fn alloc_then_dealloc_keeps_earlier_holding() {
    let mut c = DeadlockChecker::new();
    c.push_available(5);
    c.inc_allocation(2, 0, 1);
    c.inc_need(2, 0, 4);
    c.alloc_res(2, 0, 3);
    assert_eq!(c.get_need(2, 0), 1);
    c.dealloc_res(2, 0, 3);
    assert_eq!(c.get_available(0), 5);
    assert_eq!(c.get_allocation(2, 0), 1);
    assert_eq!(c.get_need(2, 0), 1);
}
