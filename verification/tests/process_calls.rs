use rcore_kernel::process::{
    stride_pass, BIG_STRIDE, sys_get_time, sys_getpid, sys_sbrk, sys_set_priority, sys_spawn, sys_waitpid, ChildStatus, TimeVal,
    WaitResult,
};

fn child(pid: usize, zombie: bool, exit_code: i32) -> ChildStatus {
    ChildStatus { pid, zombie, exit_code }
}

#[test]
fn waitpid_without_matching_child() {
    let r = sys_waitpid(&vec![child(3, true, 0)], 4);
    assert_eq!(r, WaitResult::NoSuchChild);
    assert_eq!(r.code(), -1);
    assert_eq!(sys_waitpid(&vec![], -1).code(), -1);
}

#[test]
fn waitpid_while_child_runs() {
    let r = sys_waitpid(&vec![child(3, false, 0), child(4, true, 9)], 3);
    assert_eq!(r, WaitResult::StillRunning);
    assert_eq!(r.code(), -2);
}

#[test]
fn waitpid_reaps_the_first_exited_match() {
    let children = vec![child(3, false, 0), child(4, true, 9), child(5, true, 1)];
    let r = sys_waitpid(&children, -1);
    assert_eq!(r, WaitResult::Exited { index: 1, pid: 4, exit_code: 9 });
    assert_eq!(r.code(), 4);
    let r = sys_waitpid(&children, 5);
    assert_eq!(r, WaitResult::Exited { index: 2, pid: 5, exit_code: 1 });
}

#[test]
fn other_negative_pids_match_by_their_bits() {
    let children = vec![child(usize::MAX - 1, true, 2)];
    assert_eq!(sys_waitpid(&children, -2), WaitResult::Exited { index: 0, pid: usize::MAX - 1, exit_code: 2 });
}

#[test]
fn simple_calls_return_codes() {
    assert_eq!(sys_getpid(7), 7);
    assert_eq!(sys_sbrk(Some(0x8000)), 0x8000);
    assert_eq!(sys_sbrk(None), -1);
    assert_eq!(sys_spawn(Some(12)), 12);
    assert_eq!(sys_spawn(None), -1);
}

#[test]
fn time_splits_into_seconds_and_microseconds() {
    let tv = TimeVal::from_micros(3_000_042);
    assert_eq!(tv, TimeVal { sec: 3, usec: 42 });
}

#[test]
fn time_bytes_are_little_endian_words() {
    let tv = TimeVal { sec: 0x0102, usec: 5 };
    let mut expected = vec![0u8; 16];
    expected[0] = 0x02;
    expected[1] = 0x01;
    expected[8] = 5;
    assert_eq!(tv.to_bytes(), expected);
}

#[test]
fn get_time_fills_one_piece() {
    let r = sys_get_time(2_000_001, &vec![16]).unwrap();
    assert_eq!(r, vec![TimeVal { sec: 2, usec: 1 }.to_bytes()]);
}

#[test]
fn get_time_continues_across_a_page_boundary() {
    let bytes = TimeVal { sec: 2, usec: 1 }.to_bytes();
    let r = sys_get_time(2_000_001, &vec![10, 6]).unwrap();
    assert_eq!(r, vec![bytes[0..10].to_vec(), bytes[10..16].to_vec()]);
    // Split into the two words: the second page gets the microseconds.
    let r = sys_get_time(1, &vec![8, 8]).unwrap();
    assert_eq!(r[0], vec![0u8; 8]);
    assert_eq!(r[1], vec![1u8, 0, 0, 0, 0, 0, 0, 0]);
}

#[test]
fn get_time_refuses_a_short_buffer() {
    assert_eq!(sys_get_time(5, &vec![8]), Err(-1));
    assert_eq!(sys_get_time(5, &vec![]), Err(-1));
}

#[test]
fn priorities_of_two_and_more_are_accepted() {
    assert_eq!(sys_set_priority(16), 16);
    assert_eq!(sys_set_priority(2), 2);
    assert_eq!(sys_set_priority(1), -1);
    assert_eq!(sys_set_priority(0), -1);
    assert_eq!(sys_set_priority(-5), -1);
}

#[test]
fn passes_shrink_with_priority() {
    assert_eq!(stride_pass(2), BIG_STRIDE / 2);
    assert_eq!(stride_pass(16), BIG_STRIDE / 16);
    assert!(stride_pass(3) <= BIG_STRIDE / 2);
}
