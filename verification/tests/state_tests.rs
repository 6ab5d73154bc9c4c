use fix_engine::session::state::{SessionState, Status};

#[test]
fn test_session_state_transitions() {
    let mut state = SessionState::new("TEST");
    assert_eq!(*state.status(), Status::Created);

    state.set_status(Status::Connecting);
    assert_eq!(*state.status(), Status::Connecting);

    state.set_status(Status::Connected);
    assert_eq!(*state.status(), Status::Connected);
}

#[test]
fn test_sequence_numbers() {
    let mut state = SessionState::new("TEST");
    assert_eq!(state.next_outgoing_seq(), 1);
    assert_eq!(state.next_incoming_seq(), 1);

    state.increment_outgoing_seq();
    state.increment_incoming_seq();

    assert_eq!(state.next_outgoing_seq(), 2);
    assert_eq!(state.next_incoming_seq(), 2);
}

#[test]
fn test_test_request_handling() {
    let mut state = SessionState::with_config("TEST", 10, 30, 2);
    assert_eq!(state.test_request_counter(), 0);

    state.increment_test_request_counter();
    assert_eq!(state.test_request_counter(), 1);

    state.reset_test_request_counter();
    assert_eq!(state.test_request_counter(), 0);
}

#[test]
fn test_fresh_connected_session_keeps_running() {
    // A freshly connected session must not ask to disconnect at once.
    let mut state = SessionState::with_config("TEST", 10, 30, 2);
    state.set_status(Status::Connected);
    assert!(!state.should_disconnect_at(0));
}

#[test]
fn test_silence_triggers_test_request_condition() {
    let state = SessionState::with_config("TEST", 10, 5, 2);
    assert!(!state.should_send_test_request_at(7));
    assert!(state.should_send_test_request_at(8));
}

#[test]
fn test_two_unanswered_test_requests_disconnect() {
    let mut state = SessionState::with_config("TEST", 10, 5, 2);
    state.set_status(Status::Connected);
    state.increment_test_request_counter();
    assert!(!state.should_disconnect_at(1));
    state.increment_test_request_counter();
    assert!(state.should_disconnect_at(1));
}
