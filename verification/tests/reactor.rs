use fuchu::reactor::{
    fd_for_token, registration_accepted, token_for_fd, PollerAction, ReadyEvent, Reactor,
    RegistryRequest, Wake,
};

fn event(token: usize, readable: bool, writable: bool) -> ReadyEvent {
    ReadyEvent { token, readable, writable }
}

#[test]
fn register_fd_asks_poller_and_readable_event_wakes() {
    let mut r: Reactor<&str> = Reactor::new();
    let action = r.handle_request(RegistryRequest::RegisterFd { fd: 3, waker: "w3" });
    assert_eq!(action, PollerAction::Register { fd: 3 });
    let woken = r.wakers_for_events(&vec![event(token_for_fd(3), true, false)]);
    assert_eq!(woken, vec![&"w3"]);
}

#[test]
fn writable_event_wakes_and_empty_event_does_not() {
    let mut r: Reactor<u32> = Reactor::new();
    r.handle_request(RegistryRequest::RegisterFd { fd: 4, waker: 40 });
    r.handle_request(RegistryRequest::RegisterFd { fd: 5, waker: 50 });
    let events = vec![event(4, false, false), event(5, false, true), event(6, true, true), event(4, true, true)];
    assert_eq!(r.wakers_for_events(&events), vec![&50, &40]);
}

#[test]
fn reregistering_fd_replaces_waker() {
    let mut r: Reactor<u32> = Reactor::new();
    r.handle_request(RegistryRequest::RegisterFd { fd: 4, waker: 1 });
    r.handle_request(RegistryRequest::RegisterFd { fd: 4, waker: 2 });
    assert_eq!(r.wakers_for_events(&vec![event(4, true, false)]), vec![&2]);
}

#[test]
fn unregister_fd_stops_wakeups() {
    let mut r: Reactor<u32> = Reactor::new();
    r.handle_request(RegistryRequest::RegisterFd { fd: 7, waker: 70 });
    let action = r.handle_request(RegistryRequest::UnregisterFd { fd: 7 });
    assert_eq!(action, PollerAction::Deregister { fd: 7 });
    assert!(r.wakers_for_events(&vec![event(7, true, true)]).is_empty());
}

#[test]
fn timer_requests_leave_poller_alone_and_expire_in_order() {
    let mut r: Reactor<&str> = Reactor::new();
    assert_eq!(
        r.handle_request(RegistryRequest::RegisterTimer { timer: 200, id: 1, waker: "late" }),
        PollerAction::Nothing
    );
    r.handle_request(RegistryRequest::RegisterTimer { timer: 100, id: 2, waker: "early" });
    r.handle_request(RegistryRequest::RegisterTimer { timer: 100, id: 3, waker: "cancelled" });
    assert_eq!(r.handle_request(RegistryRequest::UnregisterTimer { id: 3 }), PollerAction::Nothing);
    assert_eq!(r.expire_timers(150), vec![(100, 2, "early")]);
    assert_eq!(r.expire_timers(250), vec![(200, 1, "late")]);
    assert!(r.expire_timers(u64::MAX).is_empty());
}

#[test]
fn timers_and_descriptors_are_independent() {
    let mut r: Reactor<u32> = Reactor::new();
    r.handle_request(RegistryRequest::RegisterFd { fd: 1, waker: 11 });
    r.handle_request(RegistryRequest::RegisterTimer { timer: 5, id: 1, waker: 22 });
    r.handle_request(RegistryRequest::UnregisterTimer { id: 1 });
    assert_eq!(r.wakers_for_events(&vec![event(1, true, false)]), vec![&11]);
    r.handle_request(RegistryRequest::RegisterTimer { timer: 5, id: 2, waker: 33 });
    r.handle_request(RegistryRequest::UnregisterFd { fd: 1 });
    assert_eq!(r.expire_timers(5), vec![(5, 2, 33)]);
}

#[test]
fn token_round_trip() {
    for fd in [0, 1, 3, 1024, i32::MAX, -1, i32::MIN] {
        assert_eq!(fd_for_token(token_for_fd(fd)), fd);
    }
    assert_eq!(token_for_fd(17), 17usize);
    assert_eq!(fd_for_token(17), 17);
}

#[test]
fn registration_accepted_on_success_or_already_registered() {
    let ok: Result<(), &str> = Ok(());
    let err: Result<(), &str> = Err("boom");
    assert!(registration_accepted(&ok, false));
    assert!(registration_accepted(&err, true));
    assert!(!registration_accepted(&err, false));
}

#[test]
fn handle_requests_applies_in_order_and_reports_actions() {
    let mut r: Reactor<u32> = Reactor::new();
    let actions = r.handle_requests(vec![
        RegistryRequest::RegisterFd { fd: 2, waker: 1 },
        RegistryRequest::RegisterTimer { timer: 10, id: 1, waker: 5 },
        RegistryRequest::RegisterFd { fd: 2, waker: 3 },
        RegistryRequest::UnregisterTimer { id: 1 },
        RegistryRequest::RegisterTimer { timer: 10, id: 2, waker: 6 },
        RegistryRequest::UnregisterFd { fd: 9 },
        RegistryRequest::UnregisterTimer { id: 77 },
    ]);
    assert_eq!(
        actions,
        vec![
            PollerAction::Register { fd: 2 },
            PollerAction::Nothing,
            PollerAction::Register { fd: 2 },
            PollerAction::Nothing,
            PollerAction::Nothing,
            PollerAction::Deregister { fd: 9 },
            PollerAction::Nothing,
        ]
    );
    assert_eq!(r.expire_timers(10), vec![(10, 2, 6)]);
    assert_eq!(r.wakers_for_events(&vec![event(2, false, true)]), vec![&3]);
}

#[test]
fn timer_fires_once_across_passes() {
    let mut r: Reactor<u32> = Reactor::new();
    r.handle_requests(vec![RegistryRequest::RegisterTimer { timer: 30, id: 4, waker: 44 }]);
    assert!(r.expire_timers(10).is_empty());
    assert!(r.expire_timers(29).is_empty());
    assert_eq!(r.expire_timers(35), vec![(30, 4, 44)]);
    assert!(r.expire_timers(100).is_empty());
}

#[test]
fn cancelled_timer_does_not_fire_and_others_do() {
    let mut r: Reactor<u32> = Reactor::new();
    r.handle_requests(vec![
        RegistryRequest::RegisterTimer { timer: 30, id: 4, waker: 44 },
        RegistryRequest::RegisterTimer { timer: 30, id: 5, waker: 55 },
    ]);
    assert!(r.expire_timers(10).is_empty());
    r.handle_requests(vec![RegistryRequest::UnregisterTimer { id: 4 }]);
    assert_eq!(r.expire_timers(30), vec![(30, 5, 55)]);
}

#[test]
fn registered_fd_keeps_waking_in_later_passes() {
    let mut r: Reactor<u32> = Reactor::new();
    r.handle_requests(vec![RegistryRequest::RegisterFd { fd: 8, waker: 80 }]);
    assert_eq!(r.wakers_for_events(&vec![event(8, true, false)]), vec![&80]);
    r.handle_requests(vec![RegistryRequest::RegisterTimer { timer: 1, id: 1, waker: 0 }]);
    assert_eq!(r.wakers_for_events(&vec![event(8, false, true), event(8, true, true)]), vec![&80, &80]);
    r.handle_requests(vec![RegistryRequest::UnregisterFd { fd: 8 }]);
    assert!(r.wakers_for_events(&vec![event(8, true, true)]).is_empty());
}

fn describe(wakes: Vec<Wake<'_, u32>>) -> Vec<(char, u32)> {
    wakes
        .into_iter()
        .map(|w| match w {
            Wake::Timer { waker, .. } => ('t', waker),
            Wake::Descriptor { waker } => ('d', *waker),
        })
        .collect()
}

#[test]
fn finish_pass_wakes_due_timers_before_descriptors() {
    let mut r: Reactor<u32> = Reactor::new();
    r.handle_requests(vec![
        RegistryRequest::RegisterFd { fd: 3, waker: 300 },
        RegistryRequest::RegisterTimer { timer: 20, id: 1, waker: 1 },
        RegistryRequest::RegisterTimer { timer: 10, id: 2, waker: 2 },
        RegistryRequest::RegisterTimer { timer: 10, id: 3, waker: 3 },
        RegistryRequest::RegisterTimer { timer: 90, id: 4, waker: 4 },
    ]);
    let wakes = r.finish_pass(50, &vec![event(3, true, false), event(4, true, true), event(3, false, true)]);
    assert_eq!(describe(wakes), vec![('t', 2), ('t', 3), ('t', 1), ('d', 300), ('d', 300)]);
    let wakes = r.finish_pass(100, &vec![]);
    assert_eq!(describe(wakes), vec![('t', 4)]);
}

#[test]
fn each_registration_under_a_shared_id_fires_once() {
    let mut r: Reactor<u32> = Reactor::new();
    r.handle_requests(vec![
        RegistryRequest::RegisterTimer { timer: 10, id: 7, waker: 70 },
        RegistryRequest::RegisterTimer { timer: 10, id: 7, waker: 70 },
        RegistryRequest::RegisterTimer { timer: 30, id: 7, waker: 71 },
    ]);
    assert_eq!(r.expire_timers(10), vec![(10, 7, 70), (10, 7, 70)]);
    r.handle_requests(vec![RegistryRequest::RegisterTimer { timer: 10, id: 7, waker: 70 }]);
    assert_eq!(r.expire_timers(20), vec![(10, 7, 70)]);
    assert_eq!(r.expire_timers(40), vec![(30, 7, 71)]);
    assert!(r.expire_timers(u64::MAX).is_empty());
}
