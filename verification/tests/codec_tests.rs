use fix_engine::message::calculate_checksum;
use fix_engine::message::field;
use fix_engine::message::field::values;
use fix_engine::message::parser::MessageParser;
use fix_engine::message::Field;
use fix_engine::message::Message;
use fix_engine::session::verify_frame_checksum;

fn set(msg: &mut Message, tag: i32, value: &str) {
    msg.set_field(Field::new(tag, value.to_string())).unwrap();
}

fn base(msg_type: &str) -> Message {
    let mut m = Message::new(msg_type);
    set(&mut m, field::SENDER_COMP_ID, "A");
    set(&mut m, field::TARGET_COMP_ID, "B");
    set(&mut m, field::MSG_SEQ_NUM, "7");
    set(&mut m, field::SENDING_TIME, "20250124-12:00:00");
    m
}

fn roundtrip(m: &Message) -> Message {
    let frame = m.to_string().unwrap();
    let parsed = Message::from_string(&frame).unwrap();
    assert_eq!(parsed.msg_type(), m.msg_type());
    parsed
}

#[test]
fn test_roundtrip_heartbeat() {
    let m = base(values::HEARTBEAT);
    let p = roundtrip(&m);
    assert_eq!(p.get_field(field::MSG_SEQ_NUM).unwrap().value(), "7");
    assert_eq!(p.get_field(field::SENDER_COMP_ID).unwrap().value(), "A");
}

#[test]
fn test_roundtrip_logon() {
    let mut m = base(values::LOGON);
    set(&mut m, field::ENCRYPT_METHOD, "0");
    set(&mut m, field::HEART_BT_INT, "30");
    let p = roundtrip(&m);
    assert_eq!(p.get_field(field::ENCRYPT_METHOD).unwrap().value(), "0");
    assert_eq!(p.get_field(field::HEART_BT_INT).unwrap().value(), "30");
}

#[test]
fn test_roundtrip_new_order_single() {
    let mut m = base(values::NEW_ORDER_SINGLE);
    set(&mut m, field::CL_ORD_ID, "C1");
    set(&mut m, field::SYMBOL, "AAPL");
    set(&mut m, field::SIDE, "1");
    set(&mut m, field::ORD_TYPE, "2");
    set(&mut m, field::QUANTITY, "100");
    set(&mut m, field::TIME_IN_FORCE, "0");
    set(&mut m, field::PRICE, "150.50");
    let p = roundtrip(&m);
    assert_eq!(p.get_field(field::CL_ORD_ID).unwrap().value(), "C1");
    assert_eq!(p.get_field(field::PRICE).unwrap().value(), "150.50");
}

#[test]
fn test_roundtrip_execution_report() {
    let mut m = base(values::EXECUTION_REPORT);
    set(&mut m, field::ORDER_ID, "O1");
    set(&mut m, field::EXEC_ID, "E1");
    set(&mut m, field::EXEC_TYPE, "0");
    set(&mut m, field::ORD_STATUS, "0");
    let p = roundtrip(&m);
    assert_eq!(p.get_field(field::EXEC_TYPE).unwrap().value(), "0");
    assert_eq!(p.get_field(field::ORD_STATUS).unwrap().value(), "0");
}

#[test]
fn test_roundtrip_market_data_request() {
    let mut m = base(values::MARKET_DATA_REQUEST);
    set(&mut m, field::MD_REQ_ID, "R1");
    set(&mut m, field::SUBSCRIPTION_REQ_TYPE, "1");
    set(&mut m, field::MARKET_DEPTH, "0");
    set(&mut m, field::SYMBOL, "AAPL");
    let p = roundtrip(&m);
    assert_eq!(p.get_field(field::MD_REQ_ID).unwrap().value(), "R1");
}

#[test]
fn test_roundtrip_market_data_snapshot_two_entries() {
    let mut m = base(values::MARKET_DATA_SNAPSHOT);
    set(&mut m, field::SYMBOL, "AAPL");
    m.add_group(
        field::NO_MD_ENTRIES,
        field::MD_ENTRY_TYPE,
        vec![field::MD_ENTRY_PX, field::MD_ENTRY_SIZE],
    )
    .unwrap();
    set(&mut m, field::NO_MD_ENTRIES, "2");
    assert!(m.add_group_entry(field::NO_MD_ENTRIES));
    m.set_field_at(0, Field::new(field::MD_ENTRY_TYPE, "0".to_string()))
        .unwrap();
    m.set_field_at(0, Field::new(field::MD_ENTRY_PX, "150.25".to_string()))
        .unwrap();
    m.set_field_at(0, Field::new(field::MD_ENTRY_SIZE, "100".to_string()))
        .unwrap();
    assert!(m.add_group_entry(field::NO_MD_ENTRIES));
    m.set_field_at(1, Field::new(field::MD_ENTRY_TYPE, "1".to_string()))
        .unwrap();
    m.set_field_at(1, Field::new(field::MD_ENTRY_PX, "150.50".to_string()))
        .unwrap();
    m.set_field_at(1, Field::new(field::MD_ENTRY_SIZE, "200".to_string()))
        .unwrap();

    let frame = m.to_string().unwrap();
    // The two entries stand on the wire right after the counter field.
    assert!(frame.contains("268=2\u{1}269=0\u{1}270=150.25\u{1}271=100\u{1}269=1\u{1}"));
    let p = Message::from_string(&frame).unwrap();
    assert_eq!(p.msg_type(), values::MARKET_DATA_SNAPSHOT);
    assert_eq!(p.get_field(field::SYMBOL).unwrap().value(), "AAPL");
    assert_eq!(p.get_field(field::NO_MD_ENTRIES).unwrap().value(), "2");
    // The entries fold back into a group, entry by entry.
    let g = p.get_group(field::NO_MD_ENTRIES).unwrap();
    assert_eq!(g.entry_count(), 2);
    assert_eq!(g.get_field_at(field::MD_ENTRY_TYPE, 0).unwrap().value(), "0");
    assert_eq!(g.get_field_at(field::MD_ENTRY_PX, 0).unwrap().value(), "150.25");
    assert_eq!(g.get_field_at(field::MD_ENTRY_SIZE, 1).unwrap().value(), "200");
    // The reparsed message serializes back to the same bytes.
    assert_eq!(p.to_string().unwrap(), frame);
    // A parsed inbound snapshot passes validation.
    assert!(fix_engine::message::validator::MessageValidator::validate(&p).is_ok());
}

#[test]
fn test_roundtrip_quote() {
    let mut m = base(values::QUOTE);
    set(&mut m, field::QUOTE_ID, "Q1");
    set(&mut m, field::SYMBOL, "AAPL");
    set(&mut m, field::BID_PX, "100.50");
    set(&mut m, field::OFFER_PX, "100.75");
    set(&mut m, field::BID_SIZE, "1000");
    set(&mut m, field::OFFER_SIZE, "500");
    let p = roundtrip(&m);
    assert_eq!(p.get_field(field::BID_PX).unwrap().value(), "100.50");
    assert_eq!(p.get_field(field::OFFER_SIZE).unwrap().value(), "500");
}

#[test]
fn test_roundtrip_resend_request() {
    let mut m = base(values::RESEND_REQUEST);
    set(&mut m, field::BEGIN_SEQ_NO, "12");
    set(&mut m, field::END_SEQ_NO, "13");
    let p = roundtrip(&m);
    assert_eq!(p.get_field(field::BEGIN_SEQ_NO).unwrap().value(), "12");
    assert_eq!(p.get_field(field::END_SEQ_NO).unwrap().value(), "13");
}

#[test]
fn test_roundtrip_sequence_reset_gap_fill() {
    let mut m = base(values::SEQUENCE_RESET);
    set(&mut m, field::GAP_FILL_FLAG, "Y");
    set(&mut m, field::NEW_SEQ_NO, "53");
    let p = roundtrip(&m);
    assert_eq!(p.get_field(field::GAP_FILL_FLAG).unwrap().value(), "Y");
    assert_eq!(p.get_field(field::NEW_SEQ_NO).unwrap().value(), "53");
}

#[test]
fn test_serialized_checksum_and_body_length() {
    // The three digits after `10=` are the mod-256 sum of everything
    // before the trailer, and the `9=` digits count the body bytes.
    let m = base(values::HEARTBEAT);
    let frame = m.to_string().unwrap();
    let bytes = frame.as_bytes();
    let n = bytes.len();
    assert_eq!(&frame[n - 7..n - 4], "10=");
    let declared: u32 = frame[n - 4..n - 1].parse().unwrap();
    let computed = calculate_checksum(&frame[..n - 7]);
    assert_eq!(declared, computed);
    assert!(verify_frame_checksum(&frame));

    // Body length: from after the `9=nnnn` delimiter up to the trailer.
    let after_begin = frame.find('\u{1}').unwrap() + 1;
    assert!(frame[after_begin..].starts_with("9="));
    let len_end = frame[after_begin..].find('\u{1}').unwrap() + after_begin;
    let declared_len: usize = frame[after_begin + 2..len_end].parse().unwrap();
    let body = &frame[len_end + 1..n - 7];
    assert_eq!(declared_len, body.len());
}

#[test]
fn test_frame_extraction_partial_second_frame() {
    // A buffer holding one and a half frames yields the first frame and
    // leaves the partial one for the next read.
    let m = base(values::HEARTBEAT);
    let frame = m.to_string().unwrap();
    let mut buffer = frame.clone().into_bytes();
    let half = &frame.as_bytes()[..frame.len() / 2];
    buffer.extend_from_slice(half);

    let (extracted, consumed) = MessageParser::extract_complete_message(&buffer).unwrap();
    assert_eq!(extracted, frame);
    assert_eq!(consumed, frame.len());
    assert_eq!(&buffer[consumed..], half);
}

#[test]
fn test_checksum_tamper_detected() {
    let m = base(values::HEARTBEAT);
    let frame = m.to_string().unwrap();
    assert!(verify_frame_checksum(&frame));
    let n = frame.len();
    let tampered = format!("{}000\u{1}", &frame[..n - 4]);
    assert!(!verify_frame_checksum(&tampered));
}
