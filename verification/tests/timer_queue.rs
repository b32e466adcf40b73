use fuchu::timer_queue::TimerQueue;

#[test]
fn empty_queue_expires_nothing() {
    let mut q: TimerQueue<&str> = TimerQueue::new();
    assert!(q.take_expired(u64::MAX).is_empty());
}

#[test]
fn timers_expire_earliest_deadline_first() {
    let mut q = TimerQueue::new();
    q.register_timer(30, 1, "a");
    q.register_timer(10, 2, "b");
    q.register_timer(20, 3, "c");
    assert_eq!(q.take_expired(25), vec![(10, 2, "b"), (20, 3, "c")]);
    assert_eq!(q.take_expired(29), vec![]);
    assert_eq!(q.take_expired(100), vec![(30, 1, "a")]);
    assert!(q.take_expired(u64::MAX).is_empty());
}

#[test]
fn timer_due_exactly_now_expires() {
    let mut q = TimerQueue::new();
    q.register_timer(50, 7, "x");
    assert_eq!(q.take_expired(49), vec![]);
    assert_eq!(q.take_expired(50), vec![(50, 7, "x")]);
}

#[test]
fn same_instant_timers_keep_registration_order() {
    let mut q = TimerQueue::new();
    for id in 1..=5usize {
        q.register_timer(100, id, id * 10);
    }
    q.unregister_timer(1);
    q.unregister_timer(3);
    q.unregister_timer(5);
    assert_eq!(q.take_expired(100), vec![(100, 2, 20), (100, 4, 40)]);
}

#[test]
fn unregister_removes_every_timer_with_that_id() {
    let mut q = TimerQueue::new();
    q.register_timer(5, 9, 'a');
    q.register_timer(5, 1, 'b');
    q.register_timer(8, 9, 'c');
    q.register_timer(3, 9, 'd');
    q.unregister_timer(9);
    assert_eq!(q.take_expired(u64::MAX), vec![(5, 1, 'b')]);
}

#[test]
fn unregister_unknown_id_changes_nothing() {
    let mut q = TimerQueue::new();
    q.register_timer(5, 1, 'a');
    q.register_timer(6, 2, 'b');
    q.unregister_timer(42);
    assert_eq!(q.take_expired(u64::MAX), vec![(5, 1, 'a'), (6, 2, 'b')]);
}

#[test]
fn register_then_unregister_leaves_queue_as_it_was() {
    let mut q = TimerQueue::new();
    q.register_timer(5, 1, 'a');
    q.register_timer(5, 2, 'b');
    q.unregister_timer(2);
    q.register_timer(7, 3, 'c');
    q.unregister_timer(3);
    assert_eq!(q.take_expired(u64::MAX), vec![(5, 1, 'a')]);
}

#[test]
fn expired_timers_are_removed_and_later_ones_kept() {
    let mut q = TimerQueue::new();
    q.register_timer(0, 1, 'a');
    q.register_timer(u64::MAX, 2, 'b');
    assert_eq!(q.take_expired(0), vec![(0, 1, 'a')]);
    assert_eq!(q.take_expired(0), vec![]);
    assert_eq!(q.take_expired(u64::MAX - 1), vec![]);
    assert_eq!(q.take_expired(u64::MAX), vec![(u64::MAX, 2, 'b')]);
}
