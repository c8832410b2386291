use rcore_kernel::scheduler::TaskManager;

#[test]
fn fetch_is_first_in_first_out() {
    let mut tm: TaskManager<&str> = TaskManager::new();
    assert_eq!(tm.fetch(), None);
    tm.add("a", 3);
    tm.add("b", 1);
    assert_eq!(tm.fetch(), Some("a"));
    assert_eq!(tm.fetch(), Some("b"));
    assert_eq!(tm.fetch(), None);
}

#[test]
fn stride_fetch_takes_the_smallest_stride_first_among_equals() {
    let mut tm: TaskManager<&str> = TaskManager::new();
    tm.add("a", 10);
    tm.add("b", 5);
    tm.add("c", 5);
    tm.add("d", 7);
    let t = tm.fetch_with_stride().unwrap();
    assert_eq!((t.task, t.stride), ("b", 5));
    let t = tm.fetch_with_stride().unwrap();
    assert_eq!((t.task, t.stride), ("c", 5));
    let t = tm.fetch_with_stride().unwrap();
    assert_eq!((t.task, t.stride), ("d", 7));
    // What is left keeps its order.
    assert_eq!(tm.fetch(), Some("a"));
}

#[test]
fn stride_fetch_skips_tasks_at_the_maximum_stride() {
    let mut tm: TaskManager<u32> = TaskManager::new();
    assert!(tm.fetch_with_stride().is_none());
    tm.add(1, usize::MAX);
    tm.add(2, usize::MAX);
    assert!(tm.fetch_with_stride().is_none());
    assert_eq!(tm.fetch(), Some(1));
    tm.add(3, usize::MAX - 1);
    assert_eq!(tm.fetch_with_stride().map(|t| t.task), Some(3));
    assert_eq!(tm.fetch(), Some(2));
}

#[test]
fn strides_stay_within_the_largest_pass() {
    let pass = 8usize;
    let mut tm: TaskManager<u32> = TaskManager::new();
    tm.add(1, 10);
    tm.add(2, 5);
    tm.add(3, 12);
    for _ in 0..20 {
        let t = tm.fetch_with_stride().unwrap();
        tm.add(t.task, t.stride + pass);
        let mut strides = Vec::new();
        for _ in 0..3 {
            let r = tm.fetch_with_stride().unwrap();
            strides.push(r.stride);
        }
        let max = *strides.iter().max().unwrap();
        let min = *strides.iter().min().unwrap();
        assert!(max - min <= pass);
        for (k, s) in strides.iter().enumerate() {
            tm.add(k as u32 + 1, *s);
        }
    }
}
