use fix_engine::message::field;
use fix_engine::message::field::values;
use fix_engine::message::validator::MessageValidator;
use fix_engine::message::Field;
use fix_engine::message::Message;

fn set(msg: &mut Message, tag: i32, value: &str) {
    msg.set_field(Field::new(tag, value.to_string())).unwrap();
}

#[test]
fn test_validate_new_order_types() {
    let mut msg = Message::new(values::NEW_ORDER_SINGLE);
    // Add required fields
    set(&mut msg, field::BEGIN_STRING, "FIX.4.2");
    set(&mut msg, field::MSG_TYPE, values::NEW_ORDER_SINGLE);
    set(&mut msg, field::SENDER_COMP_ID, "SENDER");
    set(&mut msg, field::TARGET_COMP_ID, "TARGET");
    set(&mut msg, field::MSG_SEQ_NUM, "1");
    set(&mut msg, field::SENDING_TIME, "20250124-12:00:00");
    set(&mut msg, field::CL_ORD_ID, "123456");
    set(&mut msg, field::SYMBOL, "AAPL");
    set(&mut msg, field::SIDE, values::BUY);
    set(&mut msg, field::QUANTITY, "100");
    set(&mut msg, field::TIME_IN_FORCE, values::DAY);

    // Test LIMIT order
    set(&mut msg, field::ORD_TYPE, values::LIMIT);
    set(&mut msg, field::PRICE, "150.50");
    assert!(MessageValidator::validate(&msg).is_ok());

    // Test STOP order
    set(&mut msg, field::ORD_TYPE, values::STOP);
    set(&mut msg, field::STOP_PX, "155.00");
    assert!(MessageValidator::validate(&msg).is_ok());
}

#[test]
fn test_validate_logon() {
    let mut msg = Message::new(values::LOGON);
    set(&mut msg, field::BEGIN_STRING, "FIX.4.2");
    set(&mut msg, field::MSG_TYPE, values::LOGON);
    set(&mut msg, field::SENDER_COMP_ID, "SENDER");
    set(&mut msg, field::TARGET_COMP_ID, "TARGET");
    set(&mut msg, field::MSG_SEQ_NUM, "1");
    set(&mut msg, field::SENDING_TIME, "20250124-12:00:00");

    // Add Logon-specific fields
    set(&mut msg, field::ENCRYPT_METHOD, "0");
    set(&mut msg, field::HEART_BT_INT, "30");

    assert!(MessageValidator::validate(&msg).is_ok());
}

#[test]
fn test_validate_missing_required_field() {
    let mut msg = Message::new(values::LOGON);
    // Missing some required fields
    set(&mut msg, field::BEGIN_STRING, "FIX.4.2");
    set(&mut msg, field::MSG_TYPE, values::LOGON);

    assert!(MessageValidator::validate(&msg).is_err());
}

#[test]
fn test_validate_new_order_single() {
    let mut msg = Message::new(values::NEW_ORDER_SINGLE);
    set(&mut msg, field::BEGIN_STRING, "FIX.4.2");
    set(&mut msg, field::MSG_TYPE, values::NEW_ORDER_SINGLE);
    set(&mut msg, field::SENDER_COMP_ID, "SENDER");
    set(&mut msg, field::TARGET_COMP_ID, "TARGET");
    set(&mut msg, field::MSG_SEQ_NUM, "2");
    set(&mut msg, field::SENDING_TIME, "20250124-12:00:00");

    // Add order fields
    set(&mut msg, field::CL_ORD_ID, "123456");
    set(&mut msg, field::SYMBOL, "AAPL");
    set(&mut msg, field::SIDE, "1"); // Buy
    set(&mut msg, field::ORD_TYPE, "2"); // Limit
    set(&mut msg, field::QUANTITY, "100");
    set(&mut msg, field::TIME_IN_FORCE, "0"); // Day
    set(&mut msg, field::PRICE, "150.50"); // Required for LIMIT orders

    assert!(MessageValidator::validate(&msg).is_ok());
}

#[test]
fn test_validate_resend_request() {
    let mut msg = Message::new(values::RESEND_REQUEST);
    set(&mut msg, field::BEGIN_STRING, "FIX.4.2");
    set(&mut msg, field::MSG_TYPE, values::RESEND_REQUEST);
    set(&mut msg, field::SENDER_COMP_ID, "SENDER");
    set(&mut msg, field::TARGET_COMP_ID, "TARGET");
    set(&mut msg, field::MSG_SEQ_NUM, "1");
    set(&mut msg, field::SENDING_TIME, "20250124-12:00:00");

    // Add ResendRequest fields
    set(&mut msg, field::BEGIN_SEQ_NO, "1");
    set(&mut msg, field::END_SEQ_NO, "10");

    assert!(MessageValidator::validate(&msg).is_ok());
}

#[test]
fn test_validate_quote_request() {
    let mut msg = Message::new(values::QUOTE_REQUEST);
    set(&mut msg, field::BEGIN_STRING, "FIX.4.2");
    set(&mut msg, field::MSG_TYPE, values::QUOTE_REQUEST);
    set(&mut msg, field::SENDER_COMP_ID, "SENDER");
    set(&mut msg, field::TARGET_COMP_ID, "TARGET");
    set(&mut msg, field::MSG_SEQ_NUM, "1");
    set(&mut msg, field::SENDING_TIME, "20250124-12:00:00");
    set(&mut msg, field::QUOTE_REQ_ID, "QR001");
    set(&mut msg, field::SYMBOL, "AAPL");

    assert!(MessageValidator::validate(&msg).is_ok());
}

#[test]
fn test_validate_market_data_request() {
    let mut msg = Message::new(values::MARKET_DATA_REQUEST);
    set(&mut msg, field::BEGIN_STRING, "FIX.4.2");
    set(&mut msg, field::MSG_TYPE, values::MARKET_DATA_REQUEST);
    set(&mut msg, field::SENDER_COMP_ID, "SENDER");
    set(&mut msg, field::TARGET_COMP_ID, "TARGET");
    set(&mut msg, field::MSG_SEQ_NUM, "1");
    set(&mut msg, field::SENDING_TIME, "20250124-12:00:00");

    // Add market data specific fields
    set(&mut msg, field::MD_REQ_ID, "MDR001");
    set(&mut msg, field::SUBSCRIPTION_REQ_TYPE, "1");
    set(&mut msg, field::MARKET_DEPTH, "0");
    set(&mut msg, field::NO_MD_ENTRIES, "2");
    set(&mut msg, field::SYMBOL, "AAPL");

    assert!(MessageValidator::validate(&msg).is_ok());
}

#[test]
fn test_validate_market_data_snapshot() {
    let mut msg = Message::new(values::MARKET_DATA_SNAPSHOT);
    set(&mut msg, field::BEGIN_STRING, "FIX.4.2");
    set(&mut msg, field::MSG_TYPE, values::MARKET_DATA_SNAPSHOT);
    set(&mut msg, field::SENDER_COMP_ID, "SENDER");
    set(&mut msg, field::TARGET_COMP_ID, "TARGET");
    set(&mut msg, field::MSG_SEQ_NUM, "1");
    set(&mut msg, field::SENDING_TIME, "20250124-12:00:00");

    // Add Symbol field
    set(&mut msg, field::SYMBOL, "AAPL");

    // Setup market data group
    msg.add_group(
        field::NO_MD_ENTRIES,
        field::MD_ENTRY_TYPE,
        vec![field::MD_ENTRY_PX, field::MD_ENTRY_SIZE],
    )
    .unwrap();
    set(&mut msg, field::NO_MD_ENTRIES, "2");

    // Add first entry
    assert!(msg.add_group_entry(field::NO_MD_ENTRIES));
    msg.set_field_at(0, Field::new(field::MD_ENTRY_TYPE, values::MD_ENTRY_BID.to_string()))
        .unwrap();
    msg.set_field_at(0, Field::new(field::MD_ENTRY_PX, "150.25".to_string()))
        .unwrap();
    msg.set_field_at(0, Field::new(field::MD_ENTRY_SIZE, "100".to_string()))
        .unwrap();

    // Add second entry
    assert!(msg.add_group_entry(field::NO_MD_ENTRIES));
    msg.set_field_at(1, Field::new(field::MD_ENTRY_TYPE, values::MD_ENTRY_OFFER.to_string()))
        .unwrap();
    msg.set_field_at(1, Field::new(field::MD_ENTRY_PX, "150.50".to_string()))
        .unwrap();
    msg.set_field_at(1, Field::new(field::MD_ENTRY_SIZE, "200".to_string()))
        .unwrap();

    assert!(MessageValidator::validate(&msg).is_ok());
}

#[test]
fn test_validate_market_data_snapshot_with_entries() {
    let mut msg = Message::new(values::MARKET_DATA_SNAPSHOT);
    set(&mut msg, field::BEGIN_STRING, "FIX.4.2");
    set(&mut msg, field::MSG_TYPE, values::MARKET_DATA_SNAPSHOT);
    set(&mut msg, field::SENDER_COMP_ID, "SENDER");
    set(&mut msg, field::TARGET_COMP_ID, "TARGET");
    set(&mut msg, field::MSG_SEQ_NUM, "1");
    set(&mut msg, field::SENDING_TIME, "20250124-12:00:00");

    // Add Symbol and group setup
    set(&mut msg, field::SYMBOL, "AAPL");
    msg.add_group(
        field::NO_MD_ENTRIES,
        field::MD_ENTRY_TYPE,
        vec![field::MD_ENTRY_PX, field::MD_ENTRY_SIZE],
    )
    .unwrap();
    set(&mut msg, field::NO_MD_ENTRIES, "2");

    // Add entries
    assert!(msg.add_group_entry(field::NO_MD_ENTRIES));
    msg.set_field_at(0, Field::new(field::MD_ENTRY_TYPE, values::MD_ENTRY_BID.to_string()))
        .unwrap();
    msg.set_field_at(0, Field::new(field::MD_ENTRY_PX, "150.25".to_string()))
        .unwrap();
    msg.set_field_at(0, Field::new(field::MD_ENTRY_SIZE, "100".to_string()))
        .unwrap();

    assert!(msg.add_group_entry(field::NO_MD_ENTRIES));
    msg.set_field_at(1, Field::new(field::MD_ENTRY_TYPE, values::MD_ENTRY_OFFER.to_string()))
        .unwrap();
    msg.set_field_at(1, Field::new(field::MD_ENTRY_PX, "150.50".to_string()))
        .unwrap();
    msg.set_field_at(1, Field::new(field::MD_ENTRY_SIZE, "200".to_string()))
        .unwrap();

    assert!(MessageValidator::validate(&msg).is_ok());
}

#[test]
fn test_validate_market_data_snapshot_invalid_entries() {
    let mut msg = Message::new(values::MARKET_DATA_SNAPSHOT);
    set(&mut msg, field::BEGIN_STRING, "FIX.4.2");
    set(&mut msg, field::MSG_TYPE, values::MARKET_DATA_SNAPSHOT);
    set(&mut msg, field::SENDER_COMP_ID, "SENDER");
    set(&mut msg, field::TARGET_COMP_ID, "TARGET");
    set(&mut msg, field::MSG_SEQ_NUM, "1");
    set(&mut msg, field::SENDING_TIME, "20250124-12:00:00");

    // Add market data fields with mismatched entry count
    set(&mut msg, field::SYMBOL, "AAPL");
    set(&mut msg, field::NO_MD_ENTRIES, "2");

    // Add only one entry when we specified two
    set(&mut msg, field::MD_ENTRY_TYPE, values::MD_ENTRY_BID);
    set(&mut msg, field::MD_ENTRY_PX, "150.25");
    set(&mut msg, field::MD_ENTRY_SIZE, "100");

    assert!(MessageValidator::validate(&msg).is_err());
}

#[test]
fn test_validate_market_data_snapshot_missing_price() {
    let mut msg = Message::new(values::MARKET_DATA_SNAPSHOT);
    set(&mut msg, field::BEGIN_STRING, "FIX.4.2");
    set(&mut msg, field::MSG_TYPE, values::MARKET_DATA_SNAPSHOT);
    set(&mut msg, field::SENDER_COMP_ID, "SENDER");
    set(&mut msg, field::TARGET_COMP_ID, "TARGET");
    set(&mut msg, field::MSG_SEQ_NUM, "1");
    set(&mut msg, field::SENDING_TIME, "20250124-12:00:00");

    // Add market data fields but missing price
    set(&mut msg, field::SYMBOL, "AAPL");
    set(&mut msg, field::NO_MD_ENTRIES, "1");
    set(&mut msg, field::MD_ENTRY_TYPE, values::MD_ENTRY_BID);
    set(&mut msg, field::MD_ENTRY_SIZE, "100");

    assert!(MessageValidator::validate(&msg).is_err());
}

#[test]
fn test_validate_quote_rejects_crossed_prices() {
    // A bid above the offer is rejected.
    let mut msg = Message::new(values::QUOTE);
    set(&mut msg, field::BEGIN_STRING, "FIX.4.2");
    set(&mut msg, field::MSG_TYPE, values::QUOTE);
    set(&mut msg, field::SENDER_COMP_ID, "SENDER");
    set(&mut msg, field::TARGET_COMP_ID, "TARGET");
    set(&mut msg, field::MSG_SEQ_NUM, "1");
    set(&mut msg, field::SENDING_TIME, "20250124-12:00:00");
    set(&mut msg, field::QUOTE_ID, "Q1");
    set(&mut msg, field::SYMBOL, "AAPL");
    set(&mut msg, field::BID_PX, "9");
    set(&mut msg, field::OFFER_PX, "1");
    set(&mut msg, field::BID_SIZE, "100");
    set(&mut msg, field::OFFER_SIZE, "100");
    assert!(MessageValidator::validate(&msg).is_err());

    // Flip the prices and the quote passes.
    set(&mut msg, field::BID_PX, "1");
    set(&mut msg, field::OFFER_PX, "9");
    assert!(MessageValidator::validate(&msg).is_ok());

    // The ordering is numeric, not textual.
    set(&mut msg, field::BID_PX, "10.25");
    set(&mut msg, field::OFFER_PX, "10.30");
    assert!(MessageValidator::validate(&msg).is_ok());
    set(&mut msg, field::BID_PX, "10.31");
    assert!(MessageValidator::validate(&msg).is_err());
}
