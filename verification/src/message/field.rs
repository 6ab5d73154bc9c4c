//! Fields: a tag paired with a raw value, and the tag numbers the engine
//! knows by name.

use vstd::prelude::*;

use crate::message::wire;

pub use crate::message::values;

verus! {

/// One tag-value pair.
pub struct Field {
    tag: i32,
    value: String,
}

impl Field {
    /// The pair as the wire model sees it.
    pub closed spec fn view(&self) -> (int, Seq<char>) {
        (self.tag as int, self.value@)
    }

    /// The value is ASCII, holds no delimiter byte, and the tag is positive.
    pub open spec fn wf(&self) -> bool {
        wire::wf_pair(self@)
    }

    pub fn new(tag: i32, value: String) -> (r: Field)
        ensures
            r@ == (tag as int, value@),
    {
        Field { tag, value }
    }

    pub fn tag(&self) -> (r: i32)
        ensures
            r as int == self@.0,
    {
        self.tag
    }

    pub fn value(&self) -> (r: &str)
        ensures
            r@ == self@.1,
    {
        self.value.as_str()
    }

    /// Whether this field may enter a message: positive tag, ASCII value
    /// free of the delimiter byte.
    pub fn check_wf(&self) -> (r: bool)
        ensures
            r == self.wf(),
    {
        if self.tag < 1 {
            return false;
        }
        if !self.value.as_str().is_ascii() {
            proof {
                let v = self.value@;
                assert(!vstd::utf8::is_ascii_chars(v));
                assert(exists|i| 0 <= i < v.len() && !('\0' <= #[trigger] v[i] <= '\u{7f}'));
            }
            return false;
        }
        let len: usize = self.value.as_str().unicode_len();
        let mut i: usize = 0;
        while i < len
            invariant
                0 <= i <= len,
                len == self.value@.len(),
                vstd::utf8::is_ascii_chars(self.value@),
                self.tag >= 1,
                forall|j: int| 0 <= j < i ==> wire::is_value_char(#[trigger] self.value@[j]),
            decreases len - i,
        {
            if self.value.as_str().get_char(i) == '\u{1}' {
                return false;
            }
            proof {
                assert('\0' <= self.value@[i as int] <= '\u{7f}');
            }
            i = i + 1;
        }
        true
    }
}

impl Clone for Field {
    fn clone(&self) -> (r: Self)
        ensures
            r@ == self@,
    {
        Field { tag: self.tag, value: self.value.clone() }
    }
}

// Header and trailer tags.
pub const BEGIN_STRING: i32 = 8;

pub const BODY_LENGTH: i32 = 9;

pub const MSG_TYPE: i32 = 35;

pub const SENDER_COMP_ID: i32 = 49;

pub const TARGET_COMP_ID: i32 = 56;

pub const MSG_SEQ_NUM: i32 = 34;

pub const SENDING_TIME: i32 = 52;

pub const CHECKSUM: i32 = 10;

pub const HEART_BT_INT: i32 = 108;

// Order-related tags.
pub const CL_ORD_ID: i32 = 11;

pub const ORDER_ID: i32 = 37;

pub const EXEC_ID: i32 = 17;

pub const EXEC_TRANS_TYPE: i32 = 20;

pub const EXEC_TYPE: i32 = 150;

pub const ORD_STATUS: i32 = 39;

pub const ORD_TYPE: i32 = 40;

pub const SIDE: i32 = 54;

pub const SYMBOL: i32 = 55;

pub const TIME_IN_FORCE: i32 = 59;

pub const QUANTITY: i32 = 38;

pub const PRICE: i32 = 44;

// Market-data tags.
pub const MD_REQ_ID: i32 = 262;

pub const SUBSCRIPTION_REQ_TYPE: i32 = 263;

pub const MARKET_DEPTH: i32 = 264;

pub const MD_UPDATE_TYPE: i32 = 265;

pub const AGGREGATE_BOOK: i32 = 266;

pub const NO_MD_ENTRIES: i32 = 268;

pub const MD_ENTRY_TYPE: i32 = 269;

pub const MD_ENTRY_PX: i32 = 270;

pub const MD_ENTRY_SIZE: i32 = 271;

pub const MD_ENTRY_DATE: i32 = 272;

pub const MD_ENTRY_TIME: i32 = 273;

pub const TRADING_SESSION_ID: i32 = 336;

// Quote tags.
pub const QUOTE_ID: i32 = 117;

pub const QUOTE_REQ_ID: i32 = 131;

pub const BID_PX: i32 = 132;

pub const OFFER_PX: i32 = 133;

pub const BID_SIZE: i32 = 134;

pub const OFFER_SIZE: i32 = 135;

pub const VALID_UNTIL_TIME: i32 = 62;

pub const QUOTE_CONDITION: i32 = 276;

pub const MIN_QUOTE_LIFE: i32 = 110;

pub const NO_QUOTE_ENTRIES: i32 = 295;

pub const QUOTE_ENTRY_ID: i32 = 299;

pub const QUOTE_REJECT_REASON: i32 = 300;

// Further order tags.
pub const TEXT: i32 = 58;

pub const TRANSACTION_TIME: i32 = 60;

pub const SETTLE_TYPE: i32 = 63;

pub const SETTLE_DATE: i32 = 64;

pub const TRADE_DATE: i32 = 75;

pub const POSITION_EFFECT: i32 = 77;

pub const STOP_PX: i32 = 99;

pub const EX_DESTINATION: i32 = 100;

pub const MIN_QTY: i32 = 110;

pub const MAX_FLOOR: i32 = 111;

pub const EXPIRE_TIME: i32 = 126;

// Session-management tags.
pub const ENCRYPT_METHOD: i32 = 98;

pub const RESET_SEQ_NUM_FLAG: i32 = 141;

pub const TEST_REQ_ID: i32 = 112;

pub const GAP_FILL_FLAG: i32 = 123;

pub const NEW_SEQ_NO: i32 = 36;

pub const LAST_MSG_SEQ_NUM_PROCESSED: i32 = 369;

pub const POSS_DUP_FLAG: i32 = 43;

pub const ORIG_SENDING_TIME: i32 = 122;

// Resend-request tags.
pub const BEGIN_SEQ_NO: i32 = 7;

pub const END_SEQ_NO: i32 = 16;

} // verus!
