//! Message types and the admissible values of enum-valued fields.

use vstd::prelude::*;

verus! {

// Message types.
pub const HEARTBEAT: &'static str = "0";

pub const TEST_REQUEST: &'static str = "1";

pub const RESEND_REQUEST: &'static str = "2";

pub const REJECT: &'static str = "3";

pub const SEQUENCE_RESET: &'static str = "4";

pub const LOGOUT: &'static str = "5";

pub const LOGON: &'static str = "A";

pub const NEW_ORDER_SINGLE: &'static str = "D";

pub const ORDER_CANCEL_REQUEST: &'static str = "F";

pub const EXECUTION_REPORT: &'static str = "8";

// Market-data message types.
pub const MARKET_DATA_REQUEST: &'static str = "V";

pub const MARKET_DATA_SNAPSHOT: &'static str = "W";

pub const MARKET_DATA_INCREMENT_REFRESH: &'static str = "X";

pub const MARKET_DATA_REQUEST_REJECT: &'static str = "Y";

pub const SECURITY_STATUS: &'static str = "f";

pub const TRADING_SESSION_STATUS: &'static str = "h";

// Quote message types.
pub const QUOTE_REQUEST: &'static str = "R";

pub const QUOTE: &'static str = "S";

pub const QUOTE_CANCEL: &'static str = "Z";

pub const QUOTE_REQUEST_REJECT: &'static str = "AG";

pub const MASS_QUOTE: &'static str = "i";

pub const MASS_QUOTE_ACKNOWLEDGEMENT: &'static str = "b";

// Further message types.
pub const ORDER_CANCEL_REPLACE_REQUEST: &'static str = "G";

pub const ORDER_STATUS_REQUEST: &'static str = "H";

pub const ORDER_MASS_CANCEL_REQUEST: &'static str = "q";

pub const SECURITY_DEFINITION_REQUEST: &'static str = "c";

pub const SECURITY_DEFINITION: &'static str = "d";

pub const TRADE_CAPTURE_REPORT: &'static str = "AE";

// Side values.
pub const BUY: &'static str = "1";

pub const SELL: &'static str = "2";

pub const BUY_MINUS: &'static str = "3";

pub const SELL_PLUS: &'static str = "4";

pub const SELL_SHORT: &'static str = "5";

pub const SELL_SHORT_EXEMPT: &'static str = "6";

// Market-data entry types.
pub const MD_ENTRY_BID: &'static str = "0";

pub const MD_ENTRY_OFFER: &'static str = "1";

pub const MD_ENTRY_TRADE: &'static str = "2";

pub const MD_ENTRY_INDEX: &'static str = "3";

pub const MD_ENTRY_OPENING: &'static str = "4";

pub const MD_ENTRY_CLOSING: &'static str = "5";

pub const MD_ENTRY_HIGH: &'static str = "7";

pub const MD_ENTRY_LOW: &'static str = "8";

// Quote conditions.
pub const QUOTE_OPEN: &'static str = "A";

pub const QUOTE_CLOSED: &'static str = "B";

pub const QUOTE_OUTRIGHT: &'static str = "C";

pub const QUOTE_CROSS: &'static str = "D";

pub const QUOTE_LOCKED: &'static str = "E";

pub const QUOTE_CROSSED: &'static str = "F";

// Order types.
pub const MARKET: &'static str = "1";

pub const LIMIT: &'static str = "2";

pub const STOP: &'static str = "3";

pub const STOP_LIMIT: &'static str = "4";

pub const MARKET_ON_CLOSE: &'static str = "5";

pub const WITH_OR_WITHOUT: &'static str = "6";

pub const LIMIT_OR_BETTER: &'static str = "7";

pub const LIMIT_WITH_OR_WITHOUT: &'static str = "8";

// Time-in-force values.
pub const DAY: &'static str = "0";

pub const GOOD_TILL_CANCEL: &'static str = "1";

pub const AT_THE_OPENING: &'static str = "2";

pub const IMMEDIATE_OR_CANCEL: &'static str = "3";

pub const FILL_OR_KILL: &'static str = "4";

pub const GOOD_TILL_DATE: &'static str = "6";

// Position-effect values.
pub const OPEN: &'static str = "O";

pub const CLOSE: &'static str = "C";

pub const ROLLED: &'static str = "R";

pub const FIFO: &'static str = "F";

} // verus!
