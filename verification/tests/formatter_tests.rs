use fix_engine::message::formatter::{
    CharFormatter, DateTimeFormatter, DecimalFormatter, FieldFormatter, IntegerFormatter,
    StringFormatter,
};

#[test]
fn test_datetime_formatter() {
    let formatter = DateTimeFormatter;
    let rfc3339 = "2025-01-24T12:34:56Z";
    let fix_format = "20250124-12:34:56";

    let formatted = formatter.format(rfc3339).unwrap();
    assert_eq!(formatted, fix_format);

    let parsed = formatter.parse(fix_format).unwrap();
    assert_eq!(parsed, fix_format);
}

#[test]
fn test_integer_formatter() {
    let formatter = IntegerFormatter;

    let formatted = formatter.format("123").unwrap();
    assert_eq!(formatted, "123");

    assert!(formatter.format("12.3").is_err());
    assert!(formatter.parse("abc").is_err());
}

#[test]
fn test_decimal_formatter() {
    let formatter = DecimalFormatter::new(2);

    let formatted = formatter.format("123.456").unwrap();
    assert_eq!(formatted, "123.46");

    assert!(formatter.format("abc").is_err());
    assert!(formatter.parse("abc").is_err());
}

#[test]
fn test_char_formatter() {
    let formatter = CharFormatter;

    let formatted = formatter.format("A").unwrap();
    assert_eq!(formatted, "A");

    assert!(formatter.format("AB").is_err());
    assert!(formatter.parse("").is_err());
}

#[test]
fn test_string_formatter() {
    let formatter = StringFormatter;

    let formatted = formatter.format("ABC|DEF").unwrap();
    assert_eq!(formatted, "ABCDEF");

    let parsed = formatter.parse("ABC").unwrap();
    assert_eq!(parsed, "ABC");
}
