use rcore_kernel::deadlock::detect_deadlock;
use rcore_kernel::sync::{ProcessSyncState, DEADLOCK};

type State = ProcessSyncState<&'static str, u32, u8>;

fn process_with_threads(n: usize) -> State {
    let mut st = State::new();
    for i in 0..n {
        assert_eq!(st.add_thread(), i);
    }
    st
}

#[test]
fn mutex_ids_are_handed_out_in_order() {
    let mut st = process_with_threads(1);
    assert_eq!(st.sys_mutex_create("spin"), 0);
    assert_eq!(st.sys_mutex_create("blocking"), 1);
    assert_eq!(st.mutex_table().slot_count(), 2);
    assert_eq!(*st.mutex(1), "blocking");
    assert_eq!(st.mutex_table().available_of(0), 1);
    assert_eq!(st.mutex_table().allocation_of(0, 1), 0);
    assert_eq!(st.mutex_table().need_of(0, 1), 0);
}

#[test]
fn semaphore_starts_with_its_count() {
    let mut st = process_with_threads(2);
    assert_eq!(st.sys_semaphore_create(3, 7), 0);
    assert_eq!(st.semaphore_table().available_of(0), 3);
    assert_eq!(*st.semaphore(0), 7);
}

#[test]
fn lock_acquire_unlock_restores_tables() {
    let mut st = process_with_threads(1);
    st.sys_mutex_create("m");
    assert_eq!(st.sys_mutex_lock(0, 0), 0);
    assert_eq!(st.mutex_table().need_of(0, 0), 1);
    st.mutex_lock_acquired(0, 0);
    assert_eq!(st.mutex_table().available_of(0), 0);
    assert_eq!(st.mutex_table().need_of(0, 0), 0);
    assert_eq!(st.mutex_table().allocation_of(0, 0), 1);
    assert_eq!(st.sys_mutex_unlock(0, 0), 0);
    assert_eq!(st.mutex_table().available_of(0), 1);
    assert_eq!(st.mutex_table().allocation_of(0, 0), 0);
}

#[test]
fn crossed_locks_are_refused_with_detection_on() {
    let mut st = process_with_threads(2);
    assert_eq!(st.sys_enable_deadlock_detect(1), 0);
    st.sys_mutex_create("a");
    st.sys_mutex_create("b");
    assert_eq!(st.sys_mutex_lock(0, 0), 0);
    st.mutex_lock_acquired(0, 0);
    assert_eq!(st.sys_mutex_lock(1, 1), 0);
    st.mutex_lock_acquired(1, 1);
    // Thread 1 holds nothing thread 0 waits for yet: thread 1 can finish first.
    assert_eq!(st.sys_mutex_lock(0, 1), 0);
    // Now each waits for what the other holds.
    assert_eq!(st.sys_mutex_lock(1, 0), DEADLOCK);
    assert_eq!(DEADLOCK, -0xDEAD);
    // The refused wait stays recorded.
    assert_eq!(st.mutex_table().need_of(1, 0), 1);
}

#[test]
fn crossed_locks_pass_with_detection_off() {
    let mut st = process_with_threads(2);
    st.sys_mutex_create("a");
    st.sys_mutex_create("b");
    st.sys_mutex_lock(0, 0);
    st.mutex_lock_acquired(0, 0);
    st.sys_mutex_lock(1, 1);
    st.mutex_lock_acquired(1, 1);
    assert_eq!(st.sys_mutex_lock(0, 1), 0);
    assert_eq!(st.sys_mutex_lock(1, 0), 0);
}

#[test]
fn semaphore_down_beyond_count_deadlocks_when_nobody_can_up() {
    let mut st = process_with_threads(2);
    st.sys_enable_deadlock_detect(1);
    assert_eq!(st.sys_semaphore_create(1, 0), 0);
    assert_eq!(st.sys_semaphore_down(0, 0), 0);
    st.semaphore_down_acquired(0, 0);
    // Thread 0 holds the only unit and waits for another: it can never go on.
    assert_eq!(st.sys_semaphore_down(0, 0), DEADLOCK);
}

#[test]
fn semaphore_down_waits_for_a_holder_that_can_finish() {
    let mut st = process_with_threads(2);
    st.sys_enable_deadlock_detect(1);
    st.sys_semaphore_create(1, 0);
    st.sys_semaphore_down(0, 0);
    st.semaphore_down_acquired(0, 0);
    // Thread 1 waits; thread 0 waits for nothing and will give its unit back.
    assert_eq!(st.sys_semaphore_down(1, 0), 0);
    assert_eq!(st.sys_semaphore_up(0, 0), 0);
    assert_eq!(st.semaphore_table().available_of(0), 1);
    st.semaphore_down_acquired(1, 0);
    assert_eq!(st.semaphore_table().allocation_of(1, 0), 1);
    assert_eq!(st.semaphore_table().need_of(1, 0), 0);
}

#[test]
fn enable_deadlock_detect_accepts_only_zero_and_one() {
    let mut st = State::new();
    assert_eq!(st.sys_enable_deadlock_detect(1), 0);
    assert!(st.deadlock_detect_enabled());
    assert_eq!(st.sys_enable_deadlock_detect(2), -1);
    assert!(st.deadlock_detect_enabled());
    assert_eq!(st.sys_enable_deadlock_detect(0), 0);
    assert!(!st.deadlock_detect_enabled());
}

#[test]
fn condvars_are_looked_up_by_id() {
    let mut st = process_with_threads(1);
    assert_eq!(st.sys_condvar_create(5), 0);
    assert_eq!(st.sys_condvar_create(6), 1);
    assert!(st.has_condvar(1));
    assert!(!st.has_condvar(2));
    assert_eq!(*st.sys_condvar_signal(1), 6);
    st.sys_mutex_create("m");
    let (c, m) = st.sys_condvar_wait(0, 0);
    assert_eq!((*c, *m), (5, "m"));
}

#[test]
fn new_thread_gets_empty_rows() {
    let mut st = process_with_threads(1);
    st.sys_mutex_create("m");
    st.sys_semaphore_create(2, 1);
    assert_eq!(st.add_thread(), 1);
    assert_eq!(st.mutex_table().thread_count(), 2);
    assert_eq!(st.mutex_table().need_of(1, 0), 0);
    assert_eq!(st.semaphore_table().allocation_of(1, 0), 0);
}

#[test]
fn detector_finds_a_cycle_in_raw_tables() {
    let available = vec![0usize, 0];
    let allocation = vec![vec![1usize, 0], vec![0, 1]];
    let need = vec![vec![0usize, 1], vec![1, 0]];
    assert!(detect_deadlock(&available, &allocation, &need));
}

#[test]
fn detector_accepts_a_safe_order() {
    // Thread 2 can finish with what is free, then thread 0, then thread 1.
    let available = vec![1usize, 0];
    let allocation = vec![vec![0usize, 1], vec![1, 0], vec![0, 0]];
    let need = vec![vec![1usize, 0], vec![0, 1], vec![1, 0]];
    assert!(!detect_deadlock(&available, &allocation, &need));
}

#[test]
fn detector_with_nobody_waiting_reports_no_deadlock() {
    let available = vec![0usize];
    let allocation = vec![vec![1usize], vec![2]];
    let need = vec![vec![0usize], vec![0]];
    assert!(!detect_deadlock(&available, &allocation, &need));
}

#[test]
fn units_are_conserved_by_down_and_up() {
    let mut st = process_with_threads(2);
    st.sys_semaphore_create(3, 0);
    let total = |st: &State| {
        let t = st.semaphore_table();
        t.available_of(0) + t.allocation_of(0, 0) + t.allocation_of(1, 0)
    };
    assert_eq!(total(&st), 3);
    st.sys_semaphore_down(0, 0);
    st.semaphore_down_acquired(0, 0);
    assert_eq!(total(&st), 3);
    st.sys_semaphore_down(1, 0);
    st.semaphore_down_acquired(1, 0);
    assert_eq!(total(&st), 3);
    assert_eq!(st.semaphore_table().available_of(0), 1);
    st.sys_semaphore_up(0, 0);
    assert_eq!(total(&st), 3);
}

#[test]
fn relocking_a_held_mutex_is_a_deadlock() {
    let mut st = process_with_threads(1);
    st.sys_enable_deadlock_detect(1);
    st.sys_mutex_create("m");
    assert_eq!(st.sys_mutex_lock(0, 0), 0);
    st.mutex_lock_acquired(0, 0);
    assert_eq!(st.sys_mutex_lock(0, 0), DEADLOCK);
}

#[test]
fn waiting_on_a_free_mutex_is_never_refused() {
    let mut st = process_with_threads(3);
    st.sys_enable_deadlock_detect(1);
    st.sys_mutex_create("m");
    assert_eq!(st.sys_mutex_lock(0, 0), 0);
    assert_eq!(st.sys_mutex_lock(1, 0), 0);
    assert_eq!(st.sys_mutex_lock(2, 0), 0);
}
