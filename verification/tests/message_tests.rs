use fix_engine::message::field;
use fix_engine::message::field::values;
use fix_engine::message::formatter::{DateTimeFormatter, DecimalFormatter, ValueFormat};
use fix_engine::message::Field;
use fix_engine::message::Message;

#[test]
fn mod_test_message_creation() {
    let mut msg = Message::new(values::NEW_ORDER_SINGLE);
    msg.set_field(Field::new(field::CL_ORD_ID, "12345".to_string()))
        .unwrap();
    msg.set_field(Field::new(field::SYMBOL, "AAPL".to_string()))
        .unwrap();
    msg.set_field(Field::new(field::SIDE, values::BUY.to_string()))
        .unwrap();

    assert_eq!(msg.msg_type(), values::NEW_ORDER_SINGLE);
    assert_eq!(msg.get_field(field::SYMBOL).unwrap().value(), "AAPL");
}

#[test]
fn test_message_serialization() {
    let mut msg = Message::new(values::HEARTBEAT);
    msg.set_field(Field::new(field::SENDER_COMP_ID, "SENDER".to_string()))
        .unwrap();
    msg.set_field(Field::new(field::TARGET_COMP_ID, "TARGET".to_string()))
        .unwrap();
    msg.set_field(Field::new(field::MSG_SEQ_NUM, "1".to_string()))
        .unwrap();

    let result = msg.to_string();
    assert!(result.is_ok());
    let msg_str = result.unwrap();
    assert!(msg_str.starts_with("8=FIX.4.2"));
    assert!(msg_str.contains("35=0"));
    assert!(msg_str.contains("49=SENDER"));
    assert!(msg_str.contains("56=TARGET"));
}

#[test]
fn test_field_access() {
    let mut msg = Message::new(values::NEW_ORDER_SINGLE);
    msg.set_field(Field::new(field::CL_ORD_ID, "12345".to_string()))
        .unwrap();

    assert!(msg.get_field(field::CL_ORD_ID).is_some());
    assert!(msg.get_field(field::BEGIN_STRING).is_some());
    assert!(msg.get_field(field::MSG_TYPE).is_some());
}

#[test]
fn test_message_roundtrip() {
    let mut original = Message::new(values::NEW_ORDER_SINGLE);
    original
        .set_field(Field::new(field::CL_ORD_ID, "12345".to_string()))
        .unwrap();
    original
        .set_field(Field::new(field::SYMBOL, "AAPL".to_string()))
        .unwrap();
    original
        .set_field(Field::new(field::SIDE, values::BUY.to_string()))
        .unwrap();
    original
        .set_field(Field::new(field::SENDER_COMP_ID, "SENDER".to_string()))
        .unwrap();
    original
        .set_field(Field::new(field::TARGET_COMP_ID, "TARGET".to_string()))
        .unwrap();
    original
        .set_field(Field::new(field::MSG_SEQ_NUM, "1".to_string()))
        .unwrap();

    let msg_str = original.to_string().unwrap();
    let parsed = Message::from_string(&msg_str).unwrap();

    assert_eq!(parsed.msg_type(), original.msg_type());
    assert_eq!(
        parsed.get_field(field::CL_ORD_ID).unwrap().value(),
        original.get_field(field::CL_ORD_ID).unwrap().value()
    );
    assert_eq!(
        parsed.get_field(field::SYMBOL).unwrap().value(),
        original.get_field(field::SYMBOL).unwrap().value()
    );
    assert_eq!(
        parsed.get_field(field::SIDE).unwrap().value(),
        original.get_field(field::SIDE).unwrap().value()
    );
}

#[test]
fn test_message_with_formatters() {
    let mut msg = Message::new(values::NEW_ORDER_SINGLE);

    // Add formatters
    msg.set_formatter(field::SENDING_TIME, ValueFormat::DateTime(DateTimeFormatter));
    msg.set_formatter(field::PRICE, ValueFormat::Decimal(DecimalFormatter::new(2)));

    // Set fields with formatting
    msg.set_field(Field::new(
        field::SENDING_TIME,
        "2025-01-24T12:34:56Z".to_string(),
    ))
    .unwrap();
    msg.set_field(Field::new(field::PRICE, "123.456".to_string()))
        .unwrap();

    // Verify formatted values
    assert_eq!(
        msg.get_field(field::SENDING_TIME).unwrap().value(),
        "20250124-12:34:56"
    );
    assert_eq!(msg.get_field(field::PRICE).unwrap().value(), "123.46");
}
