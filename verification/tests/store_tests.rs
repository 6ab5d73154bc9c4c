use fix_engine::message::field;
use fix_engine::message::field::values;
use fix_engine::message::Field;
use fix_engine::message::Message;
use fix_engine::store::{encode_stored_line, parse_stored_line, MessageStore};

fn order(cl_ord_id: &str, seq: &str) -> Message {
    let mut msg = Message::new(values::NEW_ORDER_SINGLE);
    msg.set_field(Field::new(field::CL_ORD_ID, cl_ord_id.to_string()))
        .unwrap();
    msg.set_field(Field::new(field::MSG_SEQ_NUM, seq.to_string()))
        .unwrap();
    msg
}

#[test]
fn test_message_transaction() {
    let mut store = MessageStore::new();
    let session_id = "TEST_SESSION";

    // Begin transaction
    store.begin_transaction(session_id).unwrap();

    // Store messages in transaction
    let msg1 = order("12345", "1");
    store.store_message(session_id, 1, msg1).unwrap();

    let msg2 = order("12346", "2");
    store.store_message(session_id, 2, msg2).unwrap();

    // Commit transaction
    store.commit_transaction(session_id).unwrap();

    // Verify messages were stored with versions
    let message1 = store.get_message_with_version(session_id, 1).unwrap();
    let message2 = store.get_message_with_version(session_id, 2).unwrap();

    assert!(message1.is_some());
    assert!(message2.is_some());

    let (msg1_stored, ver1) = message1.unwrap();
    let (msg2_stored, ver2) = message2.unwrap();

    assert_eq!(msg1_stored.get_field(field::CL_ORD_ID).unwrap().value(), "12345");
    assert_eq!(msg2_stored.get_field(field::CL_ORD_ID).unwrap().value(), "12346");
    assert_eq!(ver1, ver2); // Same transaction, same version
}

#[test]
fn test_message_transaction_rollback() {
    let mut store = MessageStore::new();
    let session_id = "TEST_SESSION";

    // Begin transaction
    store.begin_transaction(session_id).unwrap();

    // Store message in transaction
    let msg = order("12345", "1");
    store.store_message(session_id, 1, msg).unwrap();

    // Rollback transaction
    store.rollback_transaction(session_id).unwrap();

    // Verify message was not stored
    let message = store.get_message(session_id, 1).unwrap();
    assert!(message.is_none());
}

#[test]
fn test_message_persistence() {
    let mut store = MessageStore::new();
    let session_id = "TEST_SESSION";

    // Begin transaction, store, commit.
    store.begin_transaction(session_id).unwrap();
    let msg = order("12345", "1");
    store.store_message(session_id, 1, msg).unwrap();
    store.commit_transaction(session_id).unwrap();

    // Write the log lines out and replay them into a fresh store.
    let (stored, version) = store
        .get_message_with_version(session_id, 1)
        .unwrap()
        .unwrap();
    let line = encode_stored_line(1, version, &stored).unwrap();

    let mut new_store = MessageStore::new();
    new_store
        .load_messages(session_id, &vec![line])
        .unwrap();

    // Verify message was loaded with correct version
    let loaded = new_store.get_message_with_version(session_id, 1).unwrap();
    assert!(loaded.is_some());

    let (loaded_msg, loaded_ver) = loaded.unwrap();
    assert_eq!(loaded_msg.msg_type(), values::NEW_ORDER_SINGLE);
    assert_eq!(loaded_msg.get_field(field::CL_ORD_ID).unwrap().value(), "12345");
    assert_eq!(loaded_ver, 1); // First version should be 1
}

#[test]
fn test_persist_reload_identical_tuples() {
    // Persisting and reloading returns identical records, and the next
    // outbound number is one past the highest persisted.
    let mut store = MessageStore::new();
    let sid = "A_B";
    store.begin_transaction(sid).unwrap();
    for (i, cl) in [(50, "X50"), (51, "X51"), (52, "X52")] {
        let m = order(cl, &i.to_string());
        store.store_message(sid, i, m).unwrap();
    }
    store.commit_transaction(sid).unwrap();

    let mut lines: Vec<String> = Vec::new();
    let mut frames: Vec<String> = Vec::new();
    for i in 50..=52 {
        let (m, v) = store.get_message_with_version(sid, i).unwrap().unwrap();
        frames.push(m.to_string().unwrap());
        lines.push(encode_stored_line(i, v, &m).unwrap());
    }

    let mut reloaded = MessageStore::new();
    reloaded.load_messages(sid, &lines).unwrap();
    assert_eq!(reloaded.get_next_seq_num(sid).unwrap(), 53);
    for i in 50..=52 {
        let (orig, ov) = store.get_message_with_version(sid, i).unwrap().unwrap();
        let (back, bv) = reloaded.get_message_with_version(sid, i).unwrap().unwrap();
        assert_eq!(ov, bv);
        // Byte-for-byte: re-serialization matches exactly.
        assert_eq!(orig.to_string().unwrap(), back.to_string().unwrap());
        assert_eq!(back.to_string().unwrap(), frames[(i - 50) as usize]);
    }
}

#[test]
fn test_stored_line_shape() {
    let m = order("C9", "5");
    let line = encode_stored_line(5, 7, &m).unwrap();
    assert!(line.starts_with("5|7|8=FIX.4.2"));
    let (seq, version, back) = parse_stored_line(&line).unwrap();
    assert_eq!(seq, 5);
    assert_eq!(version, 7);
    assert_eq!(back.get_field(field::CL_ORD_ID).unwrap().value(), "C9");
}

#[test]
fn test_begin_twice_fails() {
    let mut store = MessageStore::new();
    store.begin_transaction("S").unwrap();
    assert!(store.begin_transaction("S").is_err());
}

#[test]
fn test_commit_without_transaction_fails() {
    let mut store = MessageStore::new();
    assert!(store.commit_transaction("S").is_err());
}

#[test]
fn test_reset_clears_log() {
    let mut store = MessageStore::new();
    store.store_message("S", 1, order("C1", "1")).unwrap();
    assert_eq!(store.get_next_seq_num("S").unwrap(), 2);
    store.reset_sequence_numbers("S").unwrap();
    assert_eq!(store.get_next_seq_num("S").unwrap(), 1);
    assert!(store.get_message("S", 1).unwrap().is_none());
}

#[test]
fn test_get_messages_range_skips_gaps() {
    let mut store = MessageStore::new();
    store.store_message("S", 1, order("C1", "1")).unwrap();
    store.store_message("S", 3, order("C3", "3")).unwrap();
    let msgs = store.get_messages_range("S", 1, 3).unwrap();
    assert_eq!(msgs.len(), 2);
    assert_eq!(msgs[0].get_field(field::CL_ORD_ID).unwrap().value(), "C1");
    assert_eq!(msgs[1].get_field(field::CL_ORD_ID).unwrap().value(), "C3");
}
