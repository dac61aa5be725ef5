use gensokyo::util::{poll_future_notify, Countdown, PollAtWake};

#[test]
fn test_in_place_wake() {
    // pending once with a self-wake, then ready: polled exactly twice
    let mut poller = PollAtWake::new(Countdown::new(1));
    let r = poller.poll();
    assert!(r.is_some());
    assert_eq!(poller.polls(), 2);
}

#[test]
fn countdown_resolves_after_exactly_n_polls() {
    for fuel in 0u64..5 {
        let mut poller = PollAtWake::new(Countdown::new(fuel));
        let r = poller.poll();
        assert!(r.is_some());
        assert_eq!(poller.polls(), fuel + 1);
    }
}

#[test]
fn wake_after_completion_runs_no_pass() {
    let mut poller = PollAtWake::new(Countdown::new(2));
    assert!(poller.poll().is_some());
    let polls = poller.polls();
    // completion leaves the state machine parked: a later wake only
    // marks it notified and polls nothing
    assert!(poller.poll().is_none());
    assert_eq!(poller.polls(), polls);
}

#[test]
fn poll_future_notify_returns_value() {
    let v = poll_future_notify(Countdown::new(3));
    assert_eq!(v, 0);
}

#[test]
fn wake_by_ref_drives_like_poll() {
    let mut poller = PollAtWake::new(Countdown::new(0));
    poller.wake_by_ref();
    assert_eq!(poller.polls(), 1);
}
