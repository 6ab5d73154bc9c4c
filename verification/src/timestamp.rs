//! Timestamps in the wire format `YYYYMMDD-HH:MM:SS`, produced and checked
//! through the `chrono` crate.

use vstd::prelude::*;

use crate::message::wire::is_value_char;

verus! {

/// What `chrono` renders for an RFC 3339 input reformatted as a wire
/// timestamp, when the input parses; the result depends on the input alone.
pub uninterp spec fn rfc3339_reformat(s: Seq<char>) -> Option<Seq<char>>;

/// Whether `chrono` accepts `s` as a calendar-valid wire timestamp; the
/// answer depends on the input alone.
pub uninterp spec fn is_wire_datetime(s: Seq<char>) -> bool;

/// What `chrono` renders for a Unix second count as a wire timestamp; the
/// result depends on the count alone.
pub uninterp spec fn wire_timestamp_of(secs: u64) -> Seq<char>;

/// Relies on `chrono::DateTime::parse_from_rfc3339` and the `%Y%m%d-%H:%M:%S`
/// formatter: parsing succeeds exactly on RFC 3339 input, and the rendering
/// is made of ASCII digits, dashes and colons.
#[verifier::external_body]
pub fn format_rfc3339(value: &str) -> (r: Option<String>)
    ensures
        match r {
            Some(s) => {
                &&& rfc3339_reformat(value@) == Some(s@)
                &&& forall|i: int| 0 <= i < s@.len() ==> is_value_char(#[trigger] s@[i])
            },
            None => rfc3339_reformat(value@) is None,
        },
{
    match chrono::DateTime::parse_from_rfc3339(value) {
        Ok(dt) => Some(dt.format("%Y%m%d-%H:%M:%S").to_string()),
        Err(_) => None,
    }
}

/// Relies on `chrono::NaiveDateTime::parse_from_str` with the wire pattern:
/// acceptance depends on the input alone.
#[verifier::external_body]
pub fn check_wire_datetime(value: &str) -> (r: bool)
    ensures
        r == is_wire_datetime(value@),
{
    chrono::NaiveDateTime::parse_from_str(value, "%Y%m%d-%H:%M:%S").is_ok()
}

/// Relies on `chrono::DateTime::from_timestamp` and the `%Y%m%d-%H:%M:%S`
/// formatter: the rendering is seventeen characters in the wire timestamp
/// shape, made of ASCII digits, one dash and two colons. The bound keeps
/// the count below the year ten thousand, so the year renders as exactly
/// four digits.
#[verifier::external_body]
pub fn unix_to_wire_timestamp(secs: u64) -> (r: String)
    requires
        secs < 253402300800,
    ensures
        r@ == wire_timestamp_of(secs),
        r@.len() == 17,
        crate::message::validator::spec_is_timestamp(r@),
        forall|i: int| 0 <= i < r@.len() ==> is_value_char(#[trigger] r@[i]),
{
    match chrono::DateTime::from_timestamp(secs as i64, 0) {
        Some(dt) => dt.format("%Y%m%d-%H:%M:%S").to_string(),
        None => String::new(),
    }
}

/// Relies on `chrono::Utc::now` and the `%Y%m%d-%H:%M:%S` formatter: the
/// rendering is made of ASCII digits, dashes and colons. The clock decides
/// the value; nothing more is claimed of it.
#[verifier::external_body]
pub fn now_wire_timestamp() -> (r: String)
    ensures
        forall|i: int| 0 <= i < r@.len() ==> is_value_char(#[trigger] r@[i]),
{
    chrono::Utc::now().format("%Y%m%d-%H:%M:%S").to_string()
}

/// Relies on `std::time::SystemTime::now`: seconds since the Unix epoch,
/// zero if the clock reads before it. Nothing more is claimed of the value.
#[verifier::external_body]
pub fn now_unix_seconds() -> (r: u64)
{
    match std::time::SystemTime::now().duration_since(std::time::UNIX_EPOCH) {
        Ok(d) => d.as_secs(),
        Err(_) => 0,
    }
}

} // verus!
