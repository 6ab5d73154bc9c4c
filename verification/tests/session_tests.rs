use fix_engine::config::{SessionConfig, SessionRole};
use fix_engine::message::field;
use fix_engine::message::field::values;
use fix_engine::message::Field;
use fix_engine::message::Message;
use fix_engine::session::state::Status;
use fix_engine::session::{Session, SessionAction};
use fix_engine::store::MessageStore;

fn config(sender: &str, target: &str, role: SessionRole, reset_on_logon: bool) -> SessionConfig {
    SessionConfig {
        begin_string: "FIX.4.2".to_string(),
        sender_comp_id: sender.to_string(),
        target_comp_id: target.to_string(),
        target_addr: "127.0.0.1:0".to_string(),
        heart_bt_int: 30,
        reset_on_logon,
        reset_on_logout: false,
        reset_on_disconnect: false,
        transport_config: None,
        role,
    }
}

fn inbound(msg_type: &str, sender: &str, target: &str, seq: i32) -> Message {
    let mut m = Message::new(msg_type);
    m.set_field(Field::new(field::SENDER_COMP_ID, sender.to_string()))
        .unwrap();
    m.set_field(Field::new(field::TARGET_COMP_ID, target.to_string()))
        .unwrap();
    m.set_field(Field::new(field::MSG_SEQ_NUM, seq.to_string()))
        .unwrap();
    m
}

fn sent(actions: &[SessionAction]) -> Vec<&Message> {
    actions
        .iter()
        .filter_map(|a| match a {
            SessionAction::Send(m) => Some(m),
            _ => None,
        })
        .collect()
}

#[test]
fn test_outbound_numbering_is_dense() {
    // Consecutive outbound messages carry 1, 2, 3 with no gaps.
    let mut s = Session::new(config("A", "B", SessionRole::Initiator, false));
    let mut store = MessageStore::new();
    for expect in 1..=3 {
        let m = Message::new(values::HEARTBEAT);
        let prepared = s.prepare_outbound(&mut store, m, 0).unwrap();
        assert_eq!(
            prepared.get_field(field::MSG_SEQ_NUM).unwrap().value(),
            expect.to_string()
        );
    }
    assert_eq!(s.get_state().next_outgoing_seq, 4);
}

#[test]
fn test_happy_logon() {
    // The initiator's logon and the acceptor's answer leave both sides
    // connected with both counters at two.
    let mut a = Session::new(config("A", "B", SessionRole::Initiator, false));
    let mut b = Session::new(config("B", "A", SessionRole::Acceptor, false));
    let mut store_a = MessageStore::new();
    let mut store_b = MessageStore::new();

    a.set_status(Status::InitiateLogon);
    let logon = a.create_logon_message(0);
    let logon = a.prepare_outbound(&mut store_a, logon, 0).unwrap();
    let frame = logon.to_string().unwrap();
    assert!(frame.contains("35=A"));
    assert!(frame.contains("98=0"));
    assert!(frame.contains("108=30"));

    let actions = b.on_frame(&mut store_b, &frame, 0);
    assert_eq!(b.get_state().status, Status::Connected);
    assert_eq!(b.get_state().next_incoming_seq, 2);
    let replies = sent(&actions);
    assert_eq!(replies.len(), 1);
    assert_eq!(replies[0].msg_type(), "A");

    let reply = b
        .prepare_outbound(&mut store_b, replies[0].clone(), 0)
        .unwrap();
    let reply_frame = reply.to_string().unwrap();
    let _ = a.on_frame(&mut store_a, &reply_frame, 0);
    assert_eq!(a.get_state().status, Status::Connected);
    assert_eq!(a.get_state().next_incoming_seq, 2);
    assert_eq!(a.get_state().next_outgoing_seq, 2);
    assert_eq!(b.get_state().next_outgoing_seq, 2);
}

#[test]
fn test_gap_triggers_one_resend_request() {
    // A number one ahead triggers exactly one resend request spanning
    // the expected number and the received one.
    let mut a = Session::new(config("A", "B", SessionRole::Initiator, false));
    let mut store = MessageStore::new();
    a.set_status(Status::Connected);
    a.state.next_incoming_seq = 5;

    let m = inbound(values::HEARTBEAT, "B", "A", 6);
    let actions = a.handle_message(&mut store, &m, 0);
    let msgs = sent(&actions);
    assert_eq!(msgs.len(), 1);
    assert_eq!(msgs[0].msg_type(), "2");
    assert_eq!(msgs[0].get_field(field::BEGIN_SEQ_NO).unwrap().value(), "5");
    assert_eq!(msgs[0].get_field(field::END_SEQ_NO).unwrap().value(), "6");
    assert_eq!(a.get_state().next_incoming_seq, 5);
}

#[test]
fn test_gap_fill_moves_expected_number() {
    // A gap fill names the next number to expect, past any gap.
    let mut a = Session::new(config("A", "B", SessionRole::Initiator, false));
    let mut store = MessageStore::new();
    a.set_status(Status::ResendRequest);
    a.state.next_incoming_seq = 2;

    let mut gf = inbound(values::SEQUENCE_RESET, "B", "A", 7);
    gf.set_field(Field::new(field::GAP_FILL_FLAG, "Y".to_string()))
        .unwrap();
    gf.set_field(Field::new(field::NEW_SEQ_NO, "5".to_string()))
        .unwrap();
    let _ = a.handle_message(&mut store, &gf, 0);
    assert_eq!(a.get_state().next_incoming_seq, 5);
    assert_eq!(a.get_state().status, Status::Connected);
}

#[test]
fn test_gap_fill_scenario() {
    // Steady at ten; eleven arrives, thirteen skips twelve; the resend
    // request names twelve and thirteen; the duplicate twelve and a
    // fresh thirteen close the gap.
    let mut a = Session::new(config("A", "B", SessionRole::Initiator, false));
    let mut store = MessageStore::new();
    a.set_status(Status::Connected);
    a.state.next_incoming_seq = 11;
    a.state.next_outgoing_seq = 11;

    let m11 = inbound(values::NEW_ORDER_SINGLE, "B", "A", 11);
    let m11 = with_order_fields(m11);
    let _ = a.handle_message(&mut store, &m11, 0);
    assert_eq!(a.get_state().next_incoming_seq, 12);

    let m13 = with_order_fields(inbound(values::NEW_ORDER_SINGLE, "B", "A", 13));
    let actions = a.handle_message(&mut store, &m13, 1);
    let msgs = sent(&actions);
    assert_eq!(msgs.len(), 1);
    assert_eq!(msgs[0].msg_type(), "2");
    assert_eq!(msgs[0].get_field(field::BEGIN_SEQ_NO).unwrap().value(), "12");
    assert_eq!(msgs[0].get_field(field::END_SEQ_NO).unwrap().value(), "13");
    assert_eq!(a.get_state().next_incoming_seq, 12);

    let mut m12 = with_order_fields(inbound(values::NEW_ORDER_SINGLE, "B", "A", 12));
    m12.set_field(Field::new(field::POSS_DUP_FLAG, "Y".to_string()))
        .unwrap();
    m12.set_field(Field::new(field::ORIG_SENDING_TIME, "20250124-12:00:00".to_string()))
        .unwrap();
    let _ = a.handle_message(&mut store, &m12, 2);
    assert_eq!(a.get_state().next_incoming_seq, 13);
    let _ = a.handle_message(&mut store, &m13, 3);
    assert_eq!(a.get_state().next_incoming_seq, 14);
}

fn with_order_fields(mut m: Message) -> Message {
    m.set_field(Field::new(field::CL_ORD_ID, "C1".to_string()))
        .unwrap();
    m.set_field(Field::new(field::SYMBOL, "AAPL".to_string()))
        .unwrap();
    m.set_field(Field::new(field::SIDE, "1".to_string())).unwrap();
    m.set_field(Field::new(field::ORD_TYPE, "1".to_string()))
        .unwrap();
    m.set_field(Field::new(field::QUANTITY, "100".to_string()))
        .unwrap();
    m.set_field(Field::new(field::TIME_IN_FORCE, "0".to_string()))
        .unwrap();
    m
}

#[test]
fn test_duplicate_behind_is_tolerated() {
    let mut a = Session::new(config("A", "B", SessionRole::Initiator, false));
    let mut store = MessageStore::new();
    a.set_status(Status::Connected);
    a.state.next_incoming_seq = 10;

    let mut dup = inbound(values::HEARTBEAT, "B", "A", 4);
    dup.set_field(Field::new(field::POSS_DUP_FLAG, "Y".to_string()))
        .unwrap();
    let actions = a.handle_message(&mut store, &dup, 0);
    assert_eq!(actions.len(), 0);
    assert_eq!(a.get_state().next_incoming_seq, 10);
    assert_eq!(a.get_state().status, Status::Connected);
}

#[test]
fn test_stale_number_without_duplicate_flag_is_fatal() {
    let mut a = Session::new(config("A", "B", SessionRole::Initiator, false));
    let mut store = MessageStore::new();
    a.set_status(Status::Connected);
    a.state.next_incoming_seq = 10;

    let stale = inbound(values::HEARTBEAT, "B", "A", 4);
    let _ = a.handle_message(&mut store, &stale, 0);
    assert_eq!(a.get_state().status, Status::Error);
}

#[test]
fn test_heartbeat_starvation() {
    // With a five-second interval and a two-second delay: silence sends
    // a test request at eight seconds, a second one later, and the
    // second unanswered request drops the session.
    let mut a = Session::new(config("A", "B", SessionRole::Initiator, false));
    a.state.heartbeat_interval = 5;
    a.set_status(Status::Connected);

    let actions = a.on_timer_tick(8);
    let msgs = sent(&actions);
    assert_eq!(msgs.len(), 1);
    assert_eq!(msgs[0].msg_type(), "1");
    assert!(msgs[0].get_field(field::TEST_REQ_ID).unwrap().value().starts_with("TEST_"));
    assert_eq!(a.get_state().test_request_counter, 1);

    let actions = a.on_timer_tick(10);
    let msgs = sent(&actions);
    assert_eq!(msgs.len(), 1);
    assert_eq!(msgs[0].msg_type(), "1");
    assert_eq!(a.get_state().test_request_counter, 2);

    let actions = a.on_timer_tick(11);
    assert!(matches!(actions[0], SessionAction::Disconnect));
    assert_eq!(a.get_state().status, Status::Disconnecting);
}

#[test]
fn test_connected_tick_sends_heartbeat() {
    let mut a = Session::new(config("A", "B", SessionRole::Initiator, false));
    a.set_status(Status::Connected);
    let actions = a.on_timer_tick(1);
    let msgs = sent(&actions);
    assert_eq!(msgs.len(), 1);
    assert_eq!(msgs[0].msg_type(), "0");
}

#[test]
fn test_checksum_tamper_discards_then_fails() {
    // A tampered frame is discarded and the session stays connected; the
    // third consecutive bad frame is fatal.
    let mut a = Session::new(config("A", "B", SessionRole::Initiator, false));
    let mut store = MessageStore::new();
    a.set_status(Status::Connected);

    let m = inbound(values::HEARTBEAT, "B", "A", 1);
    let frame = m.to_string().unwrap();
    let n = frame.len();
    let tampered = format!("{}000\u{1}", &frame[..n - 4]);

    let _ = a.on_frame(&mut store, &tampered, 0);
    assert_eq!(a.get_state().status, Status::Connected);
    let _ = a.on_frame(&mut store, &tampered, 0);
    assert_eq!(a.get_state().status, Status::Connected);
    let _ = a.on_frame(&mut store, &tampered, 0);
    assert_eq!(a.get_state().status, Status::Error);
}

#[test]
fn test_crash_safe_resend() {
    // Committed writes survive a reload, and a resend request is served
    // from the store with the duplicate flag set.
    let mut store = MessageStore::new();
    let sid = "A_B";
    store.begin_transaction(sid).unwrap();
    for i in 50..=52 {
        let m = with_order_fields(inbound(values::NEW_ORDER_SINGLE, "A", "B", i));
        store.store_message(sid, i, m).unwrap();
    }
    store.commit_transaction(sid).unwrap();

    let mut lines: Vec<String> = Vec::new();
    for i in 50..=52 {
        let (m, v) = store.get_message_with_version(sid, i).unwrap().unwrap();
        lines.push(fix_engine::store::encode_stored_line(i, v, &m).unwrap());
    }
    let mut reloaded = MessageStore::new();
    reloaded.load_messages(sid, &lines).unwrap();
    assert_eq!(reloaded.get_next_seq_num(sid).unwrap(), 53);

    let mut a = Session::new(config("A", "B", SessionRole::Initiator, false));
    a.set_status(Status::Connected);
    a.state.next_outgoing_seq = 53;

    let mut rr = inbound(values::RESEND_REQUEST, "B", "A", 1);
    rr.set_field(Field::new(field::BEGIN_SEQ_NO, "50".to_string()))
        .unwrap();
    rr.set_field(Field::new(field::END_SEQ_NO, "52".to_string()))
        .unwrap();
    let actions = a.handle_message(&mut reloaded, &rr, 0);
    let msgs = sent(&actions);
    assert_eq!(msgs.len(), 3);
    for m in &msgs {
        assert_eq!(m.get_field(field::POSS_DUP_FLAG).unwrap().value(), "Y");
        assert!(m.get_field(field::ORIG_SENDING_TIME).is_some());
    }
}

#[test]
fn test_resend_replaces_admin_with_gap_fill() {
    // Administrative messages in the replayed span collapse into one
    // gap fill naming the next number to expect.
    let mut store = MessageStore::new();
    let sid = "A_B";
    store
        .store_message(sid, 1, inbound(values::LOGON, "A", "B", 1))
        .unwrap();
    store
        .store_message(sid, 2, with_order_fields(inbound(values::NEW_ORDER_SINGLE, "A", "B", 2)))
        .unwrap();

    let mut a = Session::new(config("A", "B", SessionRole::Initiator, false));
    a.set_status(Status::Connected);
    a.state.next_outgoing_seq = 3;

    let mut rr = inbound(values::RESEND_REQUEST, "B", "A", 1);
    rr.set_field(Field::new(field::BEGIN_SEQ_NO, "1".to_string()))
        .unwrap();
    rr.set_field(Field::new(field::END_SEQ_NO, "2".to_string()))
        .unwrap();
    let actions = a.handle_message(&mut store, &rr, 0);
    let msgs = sent(&actions);
    assert_eq!(msgs.len(), 2);
    assert_eq!(msgs[0].msg_type(), "4");
    assert_eq!(msgs[0].get_field(field::GAP_FILL_FLAG).unwrap().value(), "Y");
    assert_eq!(msgs[0].get_field(field::NEW_SEQ_NO).unwrap().value(), "2");
    assert_eq!(msgs[1].msg_type(), "D");
}

#[test]
fn test_reset_on_logon() {
    // With reset-on-logon configured both counters come out of the
    // exchange at two and the session's log is truncated.
    let mut a = Session::new(config("A", "B", SessionRole::Initiator, true));
    let mut b = Session::new(config("B", "A", SessionRole::Acceptor, true));
    let mut store_a = MessageStore::new();
    let mut store_b = MessageStore::new();

    // Stale records from an earlier run sit in the acceptor's log.
    store_b.store_message("B_A", 9, inbound(values::HEARTBEAT, "B", "A", 9)).unwrap();

    a.set_status(Status::InitiateLogon);
    let logon = a.create_logon_message(0);
    let logon = a.prepare_outbound(&mut store_a, logon, 0).unwrap();
    let frame = logon.to_string().unwrap();
    assert!(frame.contains("141=Y"));

    let actions = b.on_frame(&mut store_b, &frame, 0);
    assert_eq!(b.get_state().status, Status::Connected);
    assert_eq!(b.get_state().next_incoming_seq, 2);
    assert_eq!(store_b.get_next_seq_num("B_A").unwrap(), 1);
    assert!(store_b.get_message("B_A", 9).unwrap().is_none());
    let replies = sent(&actions);
    assert_eq!(replies.len(), 1);
    assert_eq!(replies[0].get_field(field::RESET_SEQ_NUM_FLAG).unwrap().value(), "Y");
}

#[test]
fn test_logout_closes_session() {
    let mut a = Session::new(config("A", "B", SessionRole::Initiator, false));
    let mut store = MessageStore::new();
    a.set_status(Status::Connected);

    let lo = inbound(values::LOGOUT, "B", "A", 1);
    let actions = a.handle_message(&mut store, &lo, 0);
    assert_eq!(a.get_state().status, Status::Disconnected);
    let msgs = sent(&actions);
    assert_eq!(msgs.len(), 1);
    assert_eq!(msgs[0].msg_type(), "5");
    assert!(actions.iter().any(|x| matches!(x, SessionAction::Disconnect)));
}

#[test]
fn test_test_request_answered_with_heartbeat() {
    let mut a = Session::new(config("A", "B", SessionRole::Initiator, false));
    let mut store = MessageStore::new();
    a.set_status(Status::Connected);

    let mut tr = inbound(values::TEST_REQUEST, "B", "A", 1);
    tr.set_field(Field::new(field::TEST_REQ_ID, "PING7".to_string()))
        .unwrap();
    let actions = a.handle_message(&mut store, &tr, 0);
    let msgs = sent(&actions);
    assert_eq!(msgs.len(), 1);
    assert_eq!(msgs[0].msg_type(), "0");
    assert_eq!(msgs[0].get_field(field::TEST_REQ_ID).unwrap().value(), "PING7");
}

#[test]
fn test_invalid_message_is_discarded() {
    // A message the validator rejects is dropped without touching the
    // counters.
    let mut a = Session::new(config("A", "B", SessionRole::Initiator, false));
    let mut store = MessageStore::new();
    a.set_status(Status::Connected);

    let mut bad = inbound(values::NEW_ORDER_SINGLE, "B", "A", 1);
    bad.set_field(Field::new(field::SIDE, "9".to_string())).unwrap();
    let actions = a.handle_message(&mut store, &bad, 0);
    assert_eq!(actions.len(), 0);
    assert_eq!(a.get_state().next_incoming_seq, 1);
    assert_eq!(a.get_state().status, Status::Connected);
}
