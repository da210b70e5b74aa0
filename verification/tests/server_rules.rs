use rutis::frame::Frame;
use rutis::server::{
    AcceptDecision, AcceptRetry, HandlerAction, HandlerEvent, ServerPhase, ServerState,
    handler_step, run_accept,
};

#[test]
fn accept_succeeds_after_four_failures() {
    let outcomes = vec![false, false, false, false, true];
    assert_eq!(run_accept(&outcomes), Some(4));
}

#[test]
fn accept_succeeds_at_the_retry_limit() {
    let outcomes = vec![false, false, false, false, false, true];
    assert_eq!(run_accept(&outcomes), Some(5));
}

#[test]
fn accept_fails_after_six_failures() {
    let outcomes = vec![false, false, false, false, false, false];
    assert_eq!(run_accept(&outcomes), None);
    let more = vec![false, false, false, false, false, false, true, true];
    assert_eq!(run_accept(&more), None);
}

#[test]
fn accept_returns_first_success_immediately() {
    let outcomes = vec![true, false, false];
    assert_eq!(run_accept(&outcomes), Some(0));
}

#[test]
fn retry_counter_turns_fatal_past_the_limit() {
    let mut retry = AcceptRetry::new();
    for _ in 0..5 {
        assert_eq!(retry.on_failure(), AcceptDecision::Retry);
    }
    assert_eq!(retry.on_failure(), AcceptDecision::Fatal);
}

#[test]
fn drain_with_three_handlers_stops_only_after_all_release() {
    let mut s = ServerState::new();
    s.spawn_handler();
    s.spawn_handler();
    s.spawn_handler();
    s.begin_drain();
    assert!(!s.try_stop());
    s.handler_done();
    assert!(!s.try_stop());
    s.handler_done();
    assert!(!s.try_stop());
    s.handler_done();
    assert!(s.try_stop());
    assert_eq!(s.phase, ServerPhase::Stopped);
    assert_eq!(s.live_handlers, 0);
}

#[test]
fn drain_with_no_handlers_stops_at_once() {
    let mut s = ServerState::new();
    s.begin_drain();
    assert!(s.try_stop());
    assert_eq!(s.phase, ServerPhase::Stopped);
}

#[test]
fn late_subscriber_still_observes_fired_signal() {
    let mut s = ServerState::new();
    assert!(!s.poll_signal());
    s.begin_drain();
    assert!(s.poll_signal());
    assert!(s.poll_signal());
}

#[test]
fn handler_stops_on_shutdown_or_close_and_dispatches_frames() {
    assert!(matches!(handler_step(HandlerEvent::Shutdown), HandlerAction::Stop));
    assert!(matches!(handler_step(HandlerEvent::Closed), HandlerAction::Stop));
    match handler_step(HandlerEvent::Incoming(Frame::Integer(7))) {
        HandlerAction::Dispatch(f) => assert_eq!(f, Frame::Integer(7)),
        HandlerAction::Stop => panic!("a whole frame must be dispatched"),
    }
}
