use pwdchk::executor::{after_poll, BlockOnStep, PollOutcome, WaitDecision, WakeFlag};

#[test]
fn ready_value_is_returned() {
    assert!(matches!(after_poll(PollOutcome::Ready(10)), BlockOnStep::Return(10)));
    assert!(matches!(after_poll::<i32>(PollOutcome::Pending), BlockOnStep::WaitForWake));
}

#[test]
fn wake_lets_one_wait_proceed() {
    let mut f = WakeFlag::new();
    assert!(matches!(f.wait_step(), WaitDecision::Wait));
    f.wake();
    f.wake();
    assert!(matches!(f.wait_step(), WaitDecision::Proceed));
    assert!(matches!(f.wait_step(), WaitDecision::Wait));
}

#[test]
fn wake_during_poll_is_not_lost() {
    let mut f = WakeFlag::new();
    f.wake();
    assert!(matches!(f.wait_step(), WaitDecision::Proceed));
    f.wake();
    assert!(matches!(f.wait_step(), WaitDecision::Proceed));
    assert!(matches!(f.wait_step(), WaitDecision::Wait));
}
