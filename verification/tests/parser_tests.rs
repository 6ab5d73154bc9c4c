use fix_engine::error::FixError;
use fix_engine::message::field;
use fix_engine::message::parser::MessageParser;

#[test]
fn test_parse_logon_message() {
    let msg_str = "8=FIX.4.2\u{1}9=73\u{1}35=A\u{1}49=SENDER\u{1}56=TARGET\u{1}34=1\u{1}52=20210713-12:00:00\u{1}10=146\u{1}";
    let result = MessageParser::parse(msg_str);
    assert!(result.is_ok());
    let message = result.unwrap();
    assert_eq!(message.msg_type(), "A");
    assert_eq!(
        message.get_field(field::SENDER_COMP_ID).unwrap().value(),
        "SENDER"
    );
    assert_eq!(
        message.get_field(field::TARGET_COMP_ID).unwrap().value(),
        "TARGET"
    );
}

#[test]
fn test_parse_new_order_single() {
    let msg_str = "8=FIX.4.2\u{1}35=D\u{1}11=12345\u{1}55=AAPL\u{1}54=1\u{1}10=070\u{1}";
    let result = MessageParser::parse(msg_str);
    assert!(result.is_ok());
    let message = result.unwrap();
    assert_eq!(message.msg_type(), "D");
    assert_eq!(message.get_field(field::CL_ORD_ID).unwrap().value(), "12345");
    assert_eq!(message.get_field(field::SYMBOL).unwrap().value(), "AAPL");
}

#[test]
fn test_extract_complete_message() {
    let msg = b"8=FIX.4.2\x0149=SENDER\x0156=TARGET\x0135=0\x0134=1\x0152=20250124-12:00:00\x0110=160\x01";
    let result = MessageParser::extract_complete_message(msg);
    assert!(result.is_some());
    let (msg_str, len) = result.unwrap();
    assert_eq!(len, msg.len());
    assert!(msg_str.starts_with("8=FIX.4.2"));
    assert!(msg_str.ends_with("\u{1}"));
}

#[test]
fn test_parse_invalid_message() {
    let msg_str = "invalid message";
    let result = MessageParser::parse(msg_str);
    assert!(result.is_err());
    if let Err(FixError::ParseError(msg)) = result {
        assert!(msg.contains("Invalid field format"));
    } else {
        panic!("Expected ParseError");
    }
}

#[test]
fn test_parse_missing_required_fields() {
    let msg_str = "8=FIX.4.2\u{1}9=73\u{1}"; // Missing MsgType
    let result = MessageParser::parse(msg_str);
    assert!(result.is_err());
    if let Err(FixError::ParseError(msg)) = result {
        assert!(msg.contains("Missing BeginString or MsgType"));
    } else {
        panic!("Expected ParseError");
    }
}

#[test]
fn test_parse_market_data_request() {
    let msg_str = "8=FIX.4.2\u{1}35=V\u{1}262=REQ123\u{1}263=1\u{1}264=10\u{1}265=1\u{1}146=1\u{1}55=AAPL\u{1}268=2\u{1}269=0\u{1}269=1\u{1}10=193\u{1}";
    let result = MessageParser::parse(msg_str);
    assert!(result.is_ok());
    let message = result.unwrap();
    assert_eq!(message.msg_type(), "V");
    assert_eq!(message.get_field(field::MD_REQ_ID).unwrap().value(), "REQ123");
}

#[test]
fn test_parse_market_data_snapshot() {
    let msg_str = "8=FIX.4.2\u{1}35=W\u{1}262=REQ123\u{1}55=AAPL\u{1}268=2\u{1}269=0\u{1}270=100.50\u{1}271=1000\u{1}269=1\u{1}270=100.75\u{1}271=500\u{1}10=106\u{1}";
    let result = MessageParser::parse(msg_str);
    assert!(result.is_ok());
    let message = result.unwrap();
    assert_eq!(message.msg_type(), "W");
    assert_eq!(message.get_field(field::SYMBOL).unwrap().value(), "AAPL");
}

#[test]
fn test_parse_quote() {
    let msg_str = "8=FIX.4.2\u{1}35=S\u{1}117=QUOTE123\u{1}55=AAPL\u{1}132=100.50\u{1}133=100.75\u{1}134=1000\u{1}135=500\u{1}10=212\u{1}";
    let result = MessageParser::parse(msg_str);
    assert!(result.is_ok());
    let message = result.unwrap();
    assert_eq!(message.msg_type(), "S");
    assert_eq!(message.get_field(field::QUOTE_ID).unwrap().value(), "QUOTE123");
}

#[test]
fn test_parse_rejects_checksum_mismatch() {
    // A declared checksum that is not the true mod-256 sum fails the parse.
    let msg_str = "8=FIX.4.2\u{1}35=D\u{1}11=12345\u{1}55=AAPL\u{1}54=1\u{1}10=000\u{1}";
    let result = MessageParser::parse(msg_str);
    assert!(result.is_err());
    if let Err(FixError::ParseError(msg)) = result {
        assert!(msg.contains("Checksum"));
    } else {
        panic!("Expected ParseError");
    }
}
