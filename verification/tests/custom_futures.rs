use fuchu::custom_futures::{io_poll_outcome, IoPoll, TimerFuture, TimerPoll};
use fuchu::runtime::RuntimeBuilder;

#[test]
fn timer_registers_once_then_waits_then_completes() {
    let mut t = TimerFuture::new(100, 50);
    assert_eq!(t.poll_timer(100), TimerPoll::Register { deadline: 150 });
    t.record_registration(9);
    assert_eq!(t.poll_timer(120), TimerPoll::Pending);
    assert_eq!(t.poll_timer(149), TimerPoll::Pending);
    assert_eq!(t.poll_timer(150), TimerPoll::Ready);
    assert_eq!(t.poll_timer(1000), TimerPoll::Ready);
}

#[test]
fn zero_duration_timer_is_ready_at_once() {
    let t = TimerFuture::new(42, 0);
    assert_eq!(t.poll_timer(42), TimerPoll::Ready);
}

#[test]
fn timer_at_the_end_of_the_clock() {
    let t = TimerFuture::new(u64::MAX - 1, 1);
    assert_eq!(t.poll_timer(u64::MAX - 1), TimerPoll::Register { deadline: u64::MAX });
    assert_eq!(t.poll_timer(u64::MAX), TimerPoll::Ready);
}

#[test]
fn io_success_and_errors_finish_the_future() {
    let ok: Result<usize, &str> = Ok(5);
    assert_eq!(io_poll_outcome(ok, false), IoPoll::Ready(Ok(5)));
    let ok2: Result<usize, &str> = Ok(7);
    assert_eq!(io_poll_outcome(ok2, true), IoPoll::Ready(Ok(7)));
    let err: Result<usize, &str> = Err("reset");
    assert_eq!(io_poll_outcome(err, false), IoPoll::Ready(Err("reset")));
}

#[test]
fn io_would_block_waits_for_readiness() {
    let err: Result<usize, &str> = Err("would block");
    assert_eq!(io_poll_outcome(err, true), IoPoll::AwaitReadiness);
}

#[test]
fn runtime_builder_new_is_default_configuration() {
    assert_eq!(RuntimeBuilder::new(), RuntimeBuilder {});
}
