use rcore_os::deadlock::DeadlockDetectData;

#[test]
fn detector_reports_safe_and_unsafe_states() {
    let mut d = DeadlockDetectData::default();
    d.create_res(0, 1);
    d.create_thread(1);
    d.create_thread(2);
    // thread 1 holds the only unit, thread 2 waits for it: thread 1 can finish first
    d.down(0, 1);
    d.need(2, 0);
    assert!(d.check_dead_lock());
    // thread 1 now also waits for the unit: nobody can finish
    d.need(1, 0);
    assert!(!d.check_dead_lock());
    d.satisfy(1, 0);
    assert!(d.check_dead_lock());
}

#[test]
fn empty_detector_is_deadlock_free() {
    let d = DeadlockDetectData::default();
    assert!(d.check_dead_lock());
    assert!(d.available.is_empty());
}

#[test]
fn classic_two_resource_deadlock() {
    let mut d = DeadlockDetectData::default();
    d.create_res(10, 1);
    d.create_res(20, 1);
    d.create_thread(0);
    d.create_thread(1);
    d.down(10, 0);
    d.down(20, 1);
    d.need(0, 20);
    assert!(d.check_dead_lock());
    d.need(1, 10);
    assert!(!d.check_dead_lock());
    // thread 1 gives its unit back: thread 0 can now finish
    d.satisfy(1, 10);
    d.up(20, 1);
    assert!(d.check_dead_lock());
}

#[test]
fn create_thread_and_res_fill_rows_with_zero() {
    let mut d = DeadlockDetectData::default();
    d.create_res(3, 5);
    d.create_thread(7);
    assert_eq!(d.allocation.get(&7).unwrap().get(&3), Some(&0));
    assert_eq!(d.need.get(&7).unwrap().get(&3), Some(&0));
    d.create_res(4, 2);
    assert_eq!(d.allocation.get(&7).unwrap().get(&4), Some(&0));
    assert_eq!(d.need.get(&7).unwrap().get(&4), Some(&0));
    assert_eq!(d.available.get(&4), Some(&2));
    assert_eq!(d.available.get(&3), Some(&5));
}

#[test]
fn down_then_up_restores_counts() {
    let mut d = DeadlockDetectData::default();
    d.create_res(1, 3);
    d.create_thread(9);
    d.down(1, 9);
    assert_eq!(d.available.get(&1), Some(&2));
    assert_eq!(d.allocation.get(&9).unwrap().get(&1), Some(&1));
    d.up(1, 9);
    assert_eq!(d.available.get(&1), Some(&3));
    assert_eq!(d.allocation.get(&9).unwrap().get(&1), Some(&0));
}

#[test]
fn need_then_satisfy_restores_counts() {
    let mut d = DeadlockDetectData::default();
    d.create_res(1, 3);
    d.create_thread(9);
    d.need(9, 1);
    d.need(9, 1);
    assert_eq!(d.need.get(&9).unwrap().get(&1), Some(&2));
    d.satisfy(9, 1);
    assert_eq!(d.need.get(&9).unwrap().get(&1), Some(&1));
}

#[test]
fn release_thread_forgets_it() {
    let mut d = DeadlockDetectData::default();
    d.create_res(0, 1);
    d.create_thread(1);
    d.create_thread(2);
    d.down(0, 1);
    d.need(1, 0);
    d.need(2, 0);
    assert!(!d.check_dead_lock());
    d.release_thread(1);
    assert!(d.allocation.get(&1).is_none());
    assert!(d.need.get(&1).is_none());
    // the unit thread 1 held is not given back, so thread 2 still waits in vain
    assert!(!d.check_dead_lock());
    d.release_thread(2);
    assert!(d.check_dead_lock());
}

#[test]
fn a_needy_thread_waits_for_others_to_finish() {
    let mut d = DeadlockDetectData::default();
    d.create_res(0, 2);
    d.create_thread(1);
    d.create_thread(2);
    d.create_thread(3);
    // thread 3 holds both units; threads 1 and 2 each wait for one
    d.down(0, 3);
    d.down(0, 3);
    d.need(1, 0);
    d.need(2, 0);
    assert!(d.check_dead_lock());
    d.need(3, 0);
    assert!(!d.check_dead_lock());
}

#[test]
fn units_move_between_free_and_held() {
    let mut d = DeadlockDetectData::default();
    d.create_res(5, 4);
    d.create_thread(1);
    d.create_thread(2);
    let total = |d: &DeadlockDetectData| {
        d.available[&5] + d.allocation[&1][&5] + d.allocation[&2][&5]
    };
    assert_eq!(total(&d), 4);
    d.down(5, 1);
    d.down(5, 2);
    d.down(5, 2);
    assert_eq!(total(&d), 4);
    assert_eq!(d.available[&5], 1);
    d.up(5, 2);
    assert_eq!(total(&d), 4);
    assert_eq!(d.allocation[&2][&5], 1);
}

#[test]
fn threads_without_resources_are_deadlock_free() {
    let mut d = DeadlockDetectData::default();
    d.create_thread(1);
    d.create_thread(2);
    assert!(d.available.is_empty());
    assert!(d.check_dead_lock());
}

#[test]
fn an_idle_thread_does_not_change_the_verdict() {
    let mut d = DeadlockDetectData::default();
    d.create_res(0, 1);
    d.create_thread(1);
    d.create_thread(2);
    d.down(0, 1);
    d.need(1, 0);
    d.need(2, 0);
    assert!(!d.check_dead_lock());
    d.create_thread(3);
    assert!(!d.check_dead_lock());
    d.satisfy(1, 0);
    assert!(d.check_dead_lock());
    d.create_thread(4);
    assert!(d.check_dead_lock());
}
