//! Structural and semantic checks on messages, beyond what the codec
//! enforces: required header fields, typed field values, per-type required
//! fields and conditional rules.

use vstd::prelude::*;

use crate::error::FixError;
use crate::message::field;
use crate::message::formatter::spec_decimal_parts;
use crate::message::group::RepeatingGroup;
use crate::message::Message;
use crate::text::{is_digit, is_digit_seq, spec_parse_i32, str_eq};

verus! {

/// A wire timestamp: `YYYYMMDD-HH:MM:SS` with an optional `.sss`.
pub open spec fn spec_is_timestamp(v: Seq<char>) -> bool {
    &&& (v.len() == 17 || (v.len() == 21 && v[17] == '.' && is_digit(v[18]) && is_digit(v[19])
        && is_digit(v[20])))
    &&& is_digit(v[0]) && is_digit(v[1]) && is_digit(v[2]) && is_digit(v[3]) && is_digit(v[4])
        && is_digit(v[5]) && is_digit(v[6]) && is_digit(v[7])
    &&& v[8] == '-'
    &&& is_digit(v[9]) && is_digit(v[10])
    &&& v[11] == ':'
    &&& is_digit(v[12]) && is_digit(v[13])
    &&& v[14] == ':'
    &&& is_digit(v[15]) && is_digit(v[16])
}

pub open spec fn spec_valid_side(v: Seq<char>) -> bool {
    v == "1"@ || v == "2"@ || v == "3"@ || v == "4"@ || v == "5"@ || v == "6"@
}

pub open spec fn spec_valid_ord_type(v: Seq<char>) -> bool {
    v == "1"@ || v == "2"@ || v == "3"@ || v == "4"@ || v == "5"@ || v == "6"@ || v == "7"@ || v
        == "8"@
}

pub open spec fn spec_valid_tif(v: Seq<char>) -> bool {
    v == "0"@ || v == "1"@ || v == "2"@ || v == "3"@ || v == "4"@ || v == "6"@
}

pub open spec fn spec_valid_md_entry_type(v: Seq<char>) -> bool {
    v == "0"@ || v == "1"@ || v == "2"@ || v == "3"@ || v == "4"@ || v == "5"@ || v == "7"@ || v
        == "8"@
}

pub open spec fn spec_valid_quote_condition(v: Seq<char>) -> bool {
    v == "A"@ || v == "B"@ || v == "C"@ || v == "D"@ || v == "E"@ || v == "F"@
}

/// The admissible (ExecType, OrdStatus) pairs.
pub open spec fn spec_valid_exec_pair(e: Seq<char>, o: Seq<char>) -> bool {
    ||| (e == "0"@ && (o == "0"@ || o == "1"@))
    ||| (e == "1"@ && (o == "1"@ || o == "2"@))
    ||| (e == "2"@ && o == "2"@)
    ||| (e == "4"@ && o == "4"@)
    ||| (e == "C"@ && o == "C"@)
}

/// A positive sequence number.
pub open spec fn spec_valid_seq_num(v: Seq<char>) -> bool {
    match spec_parse_i32(v) {
        Some(n) => n > 0,
        None => false,
    }
}

/// A decimal literal.
pub open spec fn spec_valid_decimal(v: Seq<char>) -> bool {
    spec_decimal_parts(v) is Some
}

/// A price or quantity tag whose value must read as a decimal.
pub open spec fn is_numeric_tag(t: int) -> bool {
    t == 44 || t == 38 || t == 99 || t == 110 || t == 111 || t == 270 || t == 271 || t == 132 || t
        == 133 || t == 134 || t == 135
}

/// A timestamp-typed tag.
pub open spec fn is_timestamp_tag(t: int) -> bool {
    t == 52 || t == 60 || t == 126 || t == 273 || t == 62
}

/// What a single field's value must satisfy, by tag.
pub open spec fn spec_field_ok(t: int, v: Seq<char>) -> bool {
    &&& t == 34 ==> spec_valid_seq_num(v)
    &&& is_numeric_tag(t) ==> spec_valid_decimal(v)
    &&& is_timestamp_tag(t) ==> spec_is_timestamp(v)
    &&& t == 54 ==> spec_valid_side(v)
    &&& t == 40 ==> spec_valid_ord_type(v)
    &&& t == 59 ==> spec_valid_tif(v)
    &&& t == 269 ==> spec_valid_md_entry_type(v)
    &&& t == 276 ==> spec_valid_quote_condition(v)
}

/// Every field value is admissible for its tag.
pub open spec fn spec_field_values_ok(m: &Message) -> bool {
    forall|j: int|
        0 <= j < m.spec_fields().len() ==> spec_field_ok(
            (#[trigger] m.spec_fields()[j]).0,
            m.spec_fields()[j].1,
        )
}

/// The required header fields are present.
pub open spec fn spec_header_ok(m: &Message) -> bool {
    &&& m.field_map().contains_key(8)
    &&& m.field_map().contains_key(35)
    &&& m.field_map().contains_key(49)
    &&& m.field_map().contains_key(56)
    &&& m.field_map().contains_key(34)
    &&& m.field_map().contains_key(52)
}

/// The tags a message type requires beyond the header.
pub open spec fn spec_required_tags(mt: Seq<char>) -> Seq<int> {
    if mt == "A"@ {
        seq![98int, 108int]
    } else if mt == "D"@ {
        seq![11int, 55int, 54int, 40int, 38int, 59int]
    } else if mt == "V"@ {
        seq![262int, 263int, 264int, 268int]
    } else if mt == "R"@ {
        seq![131int, 55int]
    } else if mt == "S"@ {
        seq![117int, 55int]
    } else {
        Seq::<int>::empty()
    }
}

pub open spec fn spec_required_ok(m: &Message) -> bool {
    forall|k: int|
        0 <= k < spec_required_tags(m.spec_msg_type()).len() ==> m.field_map().contains_key(
            #[trigger] spec_required_tags(m.spec_msg_type())[k],
        )
}

/// An integer in `0 ..= 2`.
pub open spec fn spec_sub_type_ok(v: Seq<char>) -> bool {
    match spec_parse_i32(v) {
        Some(n) => 0 <= n <= 2,
        None => false,
    }
}

/// A non-negative integer.
pub open spec fn spec_nonneg_int(v: Seq<char>) -> bool {
    match spec_parse_i32(v) {
        Some(n) => n >= 0,
        None => false,
    }
}

/// The conditional rules of a market-data request.
pub open spec fn spec_md_request_ok(m: &Message) -> bool {
    &&& m.field_map().contains_key(262)
    &&& m.field_map().contains_key(263)
    &&& m.field_map().contains_key(264)
    &&& m.field_map().contains_key(268)
    &&& m.field_map().contains_key(55)
    &&& spec_sub_type_ok(m.field_map()[263])
    &&& spec_nonneg_int(m.field_map()[264])
    &&& spec_nonneg_int(m.field_map()[268])
}

/// The conditional rules of a market-data snapshot: the symbol, a declared
/// group whose entries are complete and match the declared count, and
/// admissible types and numerics in every entry.
pub open spec fn spec_md_snapshot_ok(m: &Message) -> bool {
    &&& m.field_map().contains_key(55)
    &&& m.spec_groups().contains_key(268)
    &&& m.field_map().contains_key(268)
    &&& {
        &&& spec_nonneg_int(m.field_map()[268])
        &&& (match spec_parse_i32(m.field_map()[268]) {
            Some(n) => m.spec_groups()[268].entries.len() == n,
            None => false,
        })
        &&& forall|i: int|
            0 <= i < m.spec_groups()[268].entries.len() ==> {
                let em = crate::message::wire::map_of_pairs(
                    #[trigger] m.spec_groups()[268].entries[i],
                );
                &&& em.contains_key(269) && spec_valid_md_entry_type(em[269])
                &&& em.contains_key(270) && spec_valid_decimal(em[270])
                &&& em.contains_key(271) && spec_valid_decimal(em[271])
            }
    }
}

/// The conditional rules of a quote: a side must be quoted, each quoted
/// price carries its size, the prices read as decimals, and where both
/// sides are quoted the bid does not exceed the offer.
pub open spec fn spec_quote_ok(m: &Message) -> bool {
    &&& m.field_map().contains_key(132) || m.field_map().contains_key(133)
    &&& m.field_map().contains_key(132) ==> m.field_map().contains_key(134)
    &&& m.field_map().contains_key(133) ==> m.field_map().contains_key(135)
    &&& m.field_map().contains_key(132) ==> spec_valid_decimal(m.field_map()[132])
    &&& m.field_map().contains_key(133) ==> spec_valid_decimal(m.field_map()[133])
    &&& m.field_map().contains_key(132) && m.field_map().contains_key(133) ==> {
        &&& crate::message::formatter::spec_decimal_in_bounds(m.field_map()[132])
        &&& crate::message::formatter::spec_decimal_in_bounds(m.field_map()[133])
        &&& crate::message::formatter::spec_decimal_le(
            m.field_map()[132],
            m.field_map()[133],
        )
    }
}

/// The conditional rules of a new order: a limit order carries a price, a
/// stop order a stop price, a stop-limit both.
pub open spec fn spec_new_order_ok(m: &Message) -> bool {
    m.field_map().contains_key(40) ==> {
        &&& m.field_map()[40] == "2"@ ==> m.field_map().contains_key(44)
        &&& m.field_map()[40] == "3"@ ==> m.field_map().contains_key(99)
        &&& m.field_map()[40] == "4"@ ==> m.field_map().contains_key(44)
            && m.field_map().contains_key(99)
    }
}

pub open spec fn spec_exec_report_ok(m: &Message) -> bool {
    m.field_map().contains_key(150) && m.field_map().contains_key(39) ==> spec_valid_exec_pair(
        m.field_map()[150],
        m.field_map()[39],
    )
}

pub open spec fn spec_cancel_replace_ok(m: &Message) -> bool {
    m.field_map().contains_key(37)
}

pub open spec fn spec_quote_request_ok(m: &Message) -> bool {
    m.field_map().contains_key(131) && m.field_map().contains_key(55)
}

/// The per-type conditional rules.
pub open spec fn spec_conditional_ok(m: &Message) -> bool {
    &&& m.spec_msg_type() == "8"@ ==> spec_exec_report_ok(m)
    &&& m.spec_msg_type() == "D"@ ==> spec_new_order_ok(m)
    &&& m.spec_msg_type() == "G"@ ==> spec_cancel_replace_ok(m)
    &&& m.spec_msg_type() == "R"@ ==> spec_quote_request_ok(m)
    &&& m.spec_msg_type() == "V"@ ==> spec_md_request_ok(m)
    &&& m.spec_msg_type() == "S"@ ==> spec_quote_ok(m)
    &&& m.spec_msg_type() == "W"@ ==> spec_md_snapshot_ok(m)
}

/// Everything `validate` checks.
pub open spec fn spec_validate(m: &Message) -> bool {
    &&& spec_header_ok(m)
    &&& spec_required_ok(m)
    &&& spec_field_values_ok(m)
    &&& spec_conditional_ok(m)
}


/// The message-type literals are pairwise distinct.
proof fn lemma_msg_type_lits_distinct()
    ensures
        "8"@ != "D"@,
        "8"@ != "G"@,
        "8"@ != "R"@,
        "8"@ != "V"@,
        "8"@ != "S"@,
        "8"@ != "W"@,
        "D"@ != "G"@,
        "D"@ != "R"@,
        "D"@ != "V"@,
        "D"@ != "S"@,
        "D"@ != "W"@,
        "G"@ != "R"@,
        "G"@ != "V"@,
        "G"@ != "S"@,
        "G"@ != "W"@,
        "R"@ != "V"@,
        "R"@ != "S"@,
        "R"@ != "W"@,
        "V"@ != "S"@,
        "V"@ != "W"@,
        "S"@ != "W"@,
{
    reveal_strlit("8");
    reveal_strlit("D");
    reveal_strlit("G");
    reveal_strlit("R");
    reveal_strlit("V");
    reveal_strlit("S");
    reveal_strlit("W");
    assert("8"@ != "D"@) by {
        assert("8"@[0] == '8');
        assert("D"@[0] == 'D');
        if "8"@ == "D"@ {
            assert("8"@[0] == "D"@[0]);
        }
    }
    assert("8"@ != "G"@) by {
        assert("8"@[0] == '8');
        assert("G"@[0] == 'G');
        if "8"@ == "G"@ {
            assert("8"@[0] == "G"@[0]);
        }
    }
    assert("8"@ != "R"@) by {
        assert("8"@[0] == '8');
        assert("R"@[0] == 'R');
        if "8"@ == "R"@ {
            assert("8"@[0] == "R"@[0]);
        }
    }
    assert("8"@ != "V"@) by {
        assert("8"@[0] == '8');
        assert("V"@[0] == 'V');
        if "8"@ == "V"@ {
            assert("8"@[0] == "V"@[0]);
        }
    }
    assert("8"@ != "S"@) by {
        assert("8"@[0] == '8');
        assert("S"@[0] == 'S');
        if "8"@ == "S"@ {
            assert("8"@[0] == "S"@[0]);
        }
    }
    assert("8"@ != "W"@) by {
        assert("8"@[0] == '8');
        assert("W"@[0] == 'W');
        if "8"@ == "W"@ {
            assert("8"@[0] == "W"@[0]);
        }
    }
    assert("D"@ != "G"@) by {
        assert("D"@[0] == 'D');
        assert("G"@[0] == 'G');
        if "D"@ == "G"@ {
            assert("D"@[0] == "G"@[0]);
        }
    }
    assert("D"@ != "R"@) by {
        assert("D"@[0] == 'D');
        assert("R"@[0] == 'R');
        if "D"@ == "R"@ {
            assert("D"@[0] == "R"@[0]);
        }
    }
    assert("D"@ != "V"@) by {
        assert("D"@[0] == 'D');
        assert("V"@[0] == 'V');
        if "D"@ == "V"@ {
            assert("D"@[0] == "V"@[0]);
        }
    }
    assert("D"@ != "S"@) by {
        assert("D"@[0] == 'D');
        assert("S"@[0] == 'S');
        if "D"@ == "S"@ {
            assert("D"@[0] == "S"@[0]);
        }
    }
    assert("D"@ != "W"@) by {
        assert("D"@[0] == 'D');
        assert("W"@[0] == 'W');
        if "D"@ == "W"@ {
            assert("D"@[0] == "W"@[0]);
        }
    }
    assert("G"@ != "R"@) by {
        assert("G"@[0] == 'G');
        assert("R"@[0] == 'R');
        if "G"@ == "R"@ {
            assert("G"@[0] == "R"@[0]);
        }
    }
    assert("G"@ != "V"@) by {
        assert("G"@[0] == 'G');
        assert("V"@[0] == 'V');
        if "G"@ == "V"@ {
            assert("G"@[0] == "V"@[0]);
        }
    }
    assert("G"@ != "S"@) by {
        assert("G"@[0] == 'G');
        assert("S"@[0] == 'S');
        if "G"@ == "S"@ {
            assert("G"@[0] == "S"@[0]);
        }
    }
    assert("G"@ != "W"@) by {
        assert("G"@[0] == 'G');
        assert("W"@[0] == 'W');
        if "G"@ == "W"@ {
            assert("G"@[0] == "W"@[0]);
        }
    }
    assert("R"@ != "V"@) by {
        assert("R"@[0] == 'R');
        assert("V"@[0] == 'V');
        if "R"@ == "V"@ {
            assert("R"@[0] == "V"@[0]);
        }
    }
    assert("R"@ != "S"@) by {
        assert("R"@[0] == 'R');
        assert("S"@[0] == 'S');
        if "R"@ == "S"@ {
            assert("R"@[0] == "S"@[0]);
        }
    }
    assert("R"@ != "W"@) by {
        assert("R"@[0] == 'R');
        assert("W"@[0] == 'W');
        if "R"@ == "W"@ {
            assert("R"@[0] == "W"@[0]);
        }
    }
    assert("V"@ != "S"@) by {
        assert("V"@[0] == 'V');
        assert("S"@[0] == 'S');
        if "V"@ == "S"@ {
            assert("V"@[0] == "S"@[0]);
        }
    }
    assert("V"@ != "W"@) by {
        assert("V"@[0] == 'V');
        assert("W"@[0] == 'W');
        if "V"@ == "W"@ {
            assert("V"@[0] == "W"@[0]);
        }
    }
    assert("S"@ != "W"@) by {
        assert("S"@[0] == 'S');
        assert("W"@[0] == 'W');
        if "S"@ == "W"@ {
            assert("S"@[0] == "W"@[0]);
        }
    }
}

/// The order-type literals the conditional rules test are pairwise distinct.
proof fn lemma_ord_type_lits_distinct()
    ensures
        "2"@ != "3"@,
        "2"@ != "4"@,
        "3"@ != "4"@,
{
    reveal_strlit("2");
    reveal_strlit("3");
    reveal_strlit("4");
    assert("2"@ != "3"@) by {
        assert("2"@[0] == '2');
        assert("3"@[0] == '3');
        if "2"@ == "3"@ {
            assert("2"@[0] == "3"@[0]);
        }
    }
    assert("2"@ != "4"@) by {
        assert("2"@[0] == '2');
        assert("4"@[0] == '4');
        if "2"@ == "4"@ {
            assert("2"@[0] == "4"@[0]);
        }
    }
    assert("3"@ != "4"@) by {
        assert("3"@[0] == '3');
        assert("4"@[0] == '4');
        if "3"@ == "4"@ {
            assert("3"@[0] == "4"@[0]);
        }
    }
}

/// A parse error whose text names the offending tag.
fn tag_error(prefix: &str, tag: i32) -> (e: FixError)
    ensures
        e is ParseError,
{
    let mut text = String::from_str(prefix);
    proof {
        reveal_strlit(" ");
    }
    text.append(" ");
    text.append(crate::text::u64_to_string(tag as u64).as_str());
    FixError::ParseError(text)
}

/// The message validator.
pub struct MessageValidator;

impl MessageValidator {
    /// Checks a message: required header fields, the fields its type
    /// requires, every field value's type, and the per-type conditional
    /// rules. Passes exactly the messages `spec_validate` admits.
    pub fn validate(message: &Message) -> (r: Result<(), FixError>)
        requires
            message.wf(),
        ensures
            match r {
                Ok(()) => spec_validate(message),
                Err(e) => !spec_validate(message) && e is ParseError,
            },
    {
        if message.get_field(field::BEGIN_STRING).is_none() {
            return Err(tag_error("Missing required header field:", field::BEGIN_STRING));
        }
        if message.get_field(field::MSG_TYPE).is_none() {
            return Err(tag_error("Missing required header field:", field::MSG_TYPE));
        }
        if message.get_field(field::SENDER_COMP_ID).is_none() {
            return Err(tag_error("Missing required header field:", field::SENDER_COMP_ID));
        }
        if message.get_field(field::TARGET_COMP_ID).is_none() {
            return Err(tag_error("Missing required header field:", field::TARGET_COMP_ID));
        }
        if message.get_field(field::MSG_SEQ_NUM).is_none() {
            return Err(tag_error("Missing required header field:", field::MSG_SEQ_NUM));
        }
        if message.get_field(field::SENDING_TIME).is_none() {
            return Err(tag_error("Missing required header field:", field::SENDING_TIME));
        }
        let required = Self::get_required_fields(message.msg_type());
        let rn = required.len();
        let mut k: usize = 0;
        while k < rn
            invariant
                0 <= k <= rn,
                message.wf(),
                rn == required@.len(),
                rn == spec_required_tags(message.spec_msg_type()).len(),
                forall|j: int|
                    0 <= j < rn ==> #[trigger] required@[j] as int == spec_required_tags(
                        message.spec_msg_type(),
                    )[j],
                forall|j: int|
                    0 <= j < k ==> message.field_map().contains_key(
                        #[trigger] spec_required_tags(message.spec_msg_type())[j],
                    ),
            decreases rn - k,
        {
            if message.get_field(required[k]).is_none() {
                return Err(
                    tag_error("Missing required field for message type:", required[k]),
                );
            }
            k = k + 1;
        }
        match Self::validate_field_values(message) {
            Ok(()) => {},
            Err(e) => {
                return Err(e);
            },
        }
        match Self::validate_conditional_fields(message) {
            Ok(()) => {},
            Err(e) => {
                return Err(e);
            },
        }
        Ok(())
    }

    /// Checks every field value against its tag's type. Passes exactly when
    /// `spec_field_values_ok` holds.
    pub fn validate_field_values(message: &Message) -> (r: Result<(), FixError>)
        requires
            message.wf(),
        ensures
            match r {
                Ok(()) => spec_field_values_ok(message),
                Err(e) => !spec_field_values_ok(message) && e is ParseError,
            },
    {
        let fl = message.fields();
        let n = fl.len();
        let mut i: usize = 0;
        while i < n
            invariant
                0 <= i <= n,
                message.wf(),
                n == message.spec_fields().len(),
                fl.pairs() == message.spec_fields(),
                forall|j: int|
                    0 <= j < i ==> spec_field_ok(
                        (#[trigger] message.spec_fields()[j]).0,
                        message.spec_fields()[j].1,
                    ),
            decreases n - i,
        {
            let f = fl.item(i);
            proof {
                assert(message.spec_fields()[i as int] == f@);
            }
            let tag = f.tag();
            let v = f.value();
            let ok: bool = if tag == field::MSG_SEQ_NUM {
                Self::check_seq_num(v)
            } else if tag == field::PRICE || tag == field::QUANTITY || tag == field::STOP_PX || tag
                == field::MIN_QTY || tag == field::MAX_FLOOR || tag == field::MD_ENTRY_PX || tag
                == field::MD_ENTRY_SIZE || tag == field::BID_PX || tag == field::OFFER_PX || tag
                == field::BID_SIZE || tag == field::OFFER_SIZE {
                crate::message::formatter::check_decimal_str(v)
            } else if tag == field::SENDING_TIME || tag == field::TRANSACTION_TIME || tag
                == field::EXPIRE_TIME || tag == field::MD_ENTRY_TIME || tag
                == field::VALID_UNTIL_TIME {
                Self::is_valid_timestamp(v)
            } else if tag == field::SIDE {
                Self::is_valid_side(v)
            } else if tag == field::ORD_TYPE {
                Self::is_valid_order_type(v)
            } else if tag == field::TIME_IN_FORCE {
                Self::is_valid_time_in_force(v)
            } else if tag == field::MD_ENTRY_TYPE {
                Self::is_valid_md_entry_type(v)
            } else if tag == field::QUOTE_CONDITION {
                Self::is_valid_quote_condition(v)
            } else {
                true
            };
            if !ok {
                proof {
                    assert(!spec_field_ok(f@.0, f@.1));
                }
                return Err(tag_error("Invalid value for tag", tag));
            }
            proof {
                assert(spec_field_ok(f@.0, f@.1));
            }
            i = i + 1;
        }
        Ok(())
    }

    /// Applies the conditional rules keyed by the message type. Passes
    /// exactly when `spec_conditional_ok` holds.
    pub fn validate_conditional_fields(message: &Message) -> (r: Result<(), FixError>)
        requires
            message.wf(),
        ensures
            match r {
                Ok(()) => spec_conditional_ok(message),
                Err(e) => !spec_conditional_ok(message) && e is ParseError,
            },
    {
        proof {
            lemma_msg_type_lits_distinct();
        }
        let mt = message.msg_type();
        if str_eq(mt, "8") {
            Self::validate_execution_report(message)
        } else if str_eq(mt, "D") {
            Self::validate_new_order_single(message)
        } else if str_eq(mt, "G") {
            Self::validate_order_cancel_replace(message)
        } else if str_eq(mt, "R") {
            Self::validate_quote_request(message)
        } else if str_eq(mt, "V") {
            Self::validate_market_data_request(message)
        } else if str_eq(mt, "S") {
            Self::validate_quote(message)
        } else if str_eq(mt, "W") {
            Self::validate_market_data_snapshot(message)
        } else {
            Ok(())
        }
    }

    /// The conditional rules of a market-data request.
    pub fn validate_market_data_request(message: &Message) -> (r: Result<(), FixError>)
        requires
            message.wf(),
        ensures
            match r {
                Ok(()) => spec_md_request_ok(message),
                Err(e) => !spec_md_request_ok(message) && e is ParseError,
            },
    {
        if message.get_field(field::MD_REQ_ID).is_none() {
            return Err(
                FixError::ParseError(
                    String::from_str("Missing required field for market data request"),
                ),
            );
        }
        let sub = match message.get_field(field::SUBSCRIPTION_REQ_TYPE) {
            Some(f) => f,
            None => {
                return Err(
                    FixError::ParseError(
                        String::from_str("Missing required field for market data request"),
                    ),
                );
            },
        };
        let depth = match message.get_field(field::MARKET_DEPTH) {
            Some(f) => f,
            None => {
                return Err(
                    FixError::ParseError(
                        String::from_str("Missing required field for market data request"),
                    ),
                );
            },
        };
        let entries = match message.get_field(field::NO_MD_ENTRIES) {
            Some(f) => f,
            None => {
                return Err(
                    FixError::ParseError(
                        String::from_str("Missing required field for market data request"),
                    ),
                );
            },
        };
        if message.get_field(field::SYMBOL).is_none() {
            return Err(
                FixError::ParseError(
                    String::from_str("Missing required field for market data request"),
                ),
            );
        }
        match crate::text::parse_i32_str(sub.value()) {
            Some(n) => {
                if n < 0 || n > 2 {
                    return Err(
                        FixError::ParseError(
                            String::from_str("Invalid SubscriptionRequestType value"),
                        ),
                    );
                }
            },
            None => {
                return Err(
                    FixError::ParseError(String::from_str("Invalid SubscriptionRequestType")),
                );
            },
        }
        match crate::text::parse_i32_str(depth.value()) {
            Some(n) => {
                if n < 0 {
                    return Err(
                        FixError::ParseError(String::from_str("MarketDepth must be non-negative")),
                    );
                }
            },
            None => {
                return Err(FixError::ParseError(String::from_str("Invalid MarketDepth")));
            },
        }
        match crate::text::parse_i32_str(entries.value()) {
            Some(n) => {
                if n < 0 {
                    return Err(FixError::ParseError(String::from_str("Invalid NoMDEntries")));
                }
            },
            None => {
                return Err(FixError::ParseError(String::from_str("Invalid NoMDEntries")));
            },
        }
        Ok(())
    }

    /// The conditional rules of a market-data snapshot.
    pub fn validate_market_data_snapshot(message: &Message) -> (r: Result<(), FixError>)
        requires
            message.wf(),
        ensures
            match r {
                Ok(()) => spec_md_snapshot_ok(message),
                Err(e) => !spec_md_snapshot_ok(message) && e is ParseError,
            },
    {
        if message.get_field(field::SYMBOL).is_none() {
            return Err(
                FixError::ParseError(String::from_str("Missing Symbol in market data snapshot")),
            );
        }
        let group: &RepeatingGroup = match message.get_group(field::NO_MD_ENTRIES) {
            Some(g) => g,
            None => {
                return Err(
                    FixError::ParseError(String::from_str("Missing market data entries group")),
                );
            },
        };
        let declared = match message.get_field(field::NO_MD_ENTRIES) {
            Some(f) => f,
            None => {
                return Err(tag_error("Missing entry-count field:", field::NO_MD_ENTRIES));
            },
        };
        let expected: i32 = match crate::text::parse_i32_str(declared.value()) {
            Some(n) => {
                if n < 0 {
                    return Err(
                        FixError::ParseError(String::from_str("Invalid NoMDEntries value")),
                    );
                } else {
                    n
                }
            },
            None => {
                return Err(FixError::ParseError(String::from_str("Invalid NoMDEntries value")));
            },
        };
        let count = group.entry_count();
        proof {
            assert(group.spec_count() == group@.entries.len());
        }
        if count != expected as usize {
            return Err(
                FixError::ParseError(
                    String::from_str("NoMDEntries doesn't match actual entries"),
                ),
            );
        }
        let n = count;
        let mut i: usize = 0;
        while i < n
            invariant
                0 <= i <= n,
                message.wf(),
                group.wf(),
                message.field_map().contains_key(55),
                message.spec_groups().contains_key(268),
                message.field_map().contains_key(268),
                group@ == message.spec_groups()[268],
                n == group@.entries.len(),
                spec_nonneg_int(message.field_map()[268]),
                spec_parse_i32(message.field_map()[268]) == Some(n as int),
                forall|j: int|
                    0 <= j < i ==> {
                        let em = crate::message::wire::map_of_pairs(
                            #[trigger] group@.entries[j],
                        );
                        &&& em.contains_key(269) && spec_valid_md_entry_type(em[269])
                        &&& em.contains_key(270) && spec_valid_decimal(em[270])
                        &&& em.contains_key(271) && spec_valid_decimal(em[271])
                    },
            decreases n - i,
        {
            let et = match group.get_field_at(field::MD_ENTRY_TYPE, i) {
                Some(f) => f,
                None => {
                    return Err(tag_error("Missing entry field:", field::MD_ENTRY_TYPE));
                },
            };
            if !Self::is_valid_md_entry_type(et.value()) {
                return Err(tag_error("Invalid value for tag", field::MD_ENTRY_TYPE));
            }
            let px = match group.get_field_at(field::MD_ENTRY_PX, i) {
                Some(f) => f,
                None => {
                    return Err(tag_error("Missing entry field:", field::MD_ENTRY_PX));
                },
            };
            if !crate::message::formatter::check_decimal_str(px.value()) {
                return Err(tag_error("Invalid value for tag", field::MD_ENTRY_PX));
            }
            let sz = match group.get_field_at(field::MD_ENTRY_SIZE, i) {
                Some(f) => f,
                None => {
                    return Err(tag_error("Missing entry field:", field::MD_ENTRY_SIZE));
                },
            };
            if !crate::message::formatter::check_decimal_str(sz.value()) {
                return Err(tag_error("Invalid value for tag", field::MD_ENTRY_SIZE));
            }
            i = i + 1;
        }
        Ok(())
    }

    /// The conditional rules of a quote.
    pub fn validate_quote(message: &Message) -> (r: Result<(), FixError>)
        requires
            message.wf(),
        ensures
            match r {
                Ok(()) => spec_quote_ok(message),
                Err(e) => !spec_quote_ok(message) && e is ParseError,
            },
    {
        let bid = message.get_field(field::BID_PX);
        let has_bid = bid.is_some();
        let has_offer = message.get_field(field::OFFER_PX).is_some();
        if !has_bid && !has_offer {
            return Err(
                FixError::ParseError(String::from_str("Quote must have either BidPx or OfferPx")),
            );
        }
        if has_bid && message.get_field(field::BID_SIZE).is_none() {
            return Err(
                FixError::ParseError(
                    String::from_str("BidSize is required when BidPx is present"),
                ),
            );
        }
        if has_offer && message.get_field(field::OFFER_SIZE).is_none() {
            return Err(
                FixError::ParseError(
                    String::from_str("OfferSize is required when OfferPx is present"),
                ),
            );
        }
        match message.get_field(field::BID_PX) {
            Some(f) => {
                if !crate::message::formatter::check_decimal_str(f.value()) {
                    return Err(FixError::ParseError(String::from_str("Invalid BidPx value")));
                }
            },
            None => {},
        }
        match message.get_field(field::OFFER_PX) {
            Some(f) => {
                if !crate::message::formatter::check_decimal_str(f.value()) {
                    return Err(FixError::ParseError(String::from_str("Invalid OfferPx value")));
                }
            },
            None => {},
        }
        match (message.get_field(field::BID_PX), message.get_field(field::OFFER_PX)) {
            (Some(b), Some(o)) => {
                match crate::message::formatter::decimal_le(b.value(), o.value()) {
                    Some(true) => {},
                    Some(false) => {
                        return Err(
                            FixError::ParseError(
                                String::from_str(
                                    "BidPx (132) cannot be greater than OfferPx (133)",
                                ),
                            ),
                        );
                    },
                    None => {
                        return Err(
                            FixError::ParseError(
                                String::from_str(
                                    "BidPx (132) or OfferPx (133) out of comparable range",
                                ),
                            ),
                        );
                    },
                }
            },
            _ => {},
        }
        Ok(())
    }

    /// The tags a message type requires beyond the header.
    pub fn get_required_fields(msg_type: &str) -> (r: Vec<i32>)
        ensures
            r@.len() == spec_required_tags(msg_type@).len(),
            forall|j: int|
                0 <= j < r@.len() ==> #[trigger] r@[j] as int == spec_required_tags(msg_type@)[j],
    {
        let mut v: Vec<i32> = Vec::new();
        if str_eq(msg_type, "A") {
            v.push(field::ENCRYPT_METHOD);
            v.push(field::HEART_BT_INT);
        } else if str_eq(msg_type, "D") {
            v.push(field::CL_ORD_ID);
            v.push(field::SYMBOL);
            v.push(field::SIDE);
            v.push(field::ORD_TYPE);
            v.push(field::QUANTITY);
            v.push(field::TIME_IN_FORCE);
        } else if str_eq(msg_type, "V") {
            v.push(field::MD_REQ_ID);
            v.push(field::SUBSCRIPTION_REQ_TYPE);
            v.push(field::MARKET_DEPTH);
            v.push(field::NO_MD_ENTRIES);
        } else if str_eq(msg_type, "R") {
            v.push(field::QUOTE_REQ_ID);
            v.push(field::SYMBOL);
        } else if str_eq(msg_type, "S") {
            v.push(field::QUOTE_ID);
            v.push(field::SYMBOL);
        }
        proof {
            reveal_strlit("A");
            reveal_strlit("D");
            reveal_strlit("V");
            reveal_strlit("R");
            reveal_strlit("S");
        }
        v
    }

    /// Whether `timestamp` has the wire timestamp shape.
    pub fn is_valid_timestamp(timestamp: &str) -> (r: bool)
        ensures
            r == spec_is_timestamp(timestamp@),
    {
        let n = timestamp.unicode_len();
        if !(n == 17 || n == 21) {
            return false;
        }
        let mut i: usize = 0;
        while i < 8
            invariant
                0 <= i <= 8,
                n == timestamp@.len(),
                n == 17 || n == 21,
                forall|j: int| 0 <= j < i ==> is_digit(#[trigger] timestamp@[j]),
            decreases 8 - i,
        {
            let c = timestamp.get_char(i);
            if !('0' <= c && c <= '9') {
                return false;
            }
            i = i + 1;
        }
        if timestamp.get_char(8) != '-' {
            return false;
        }
        if !Self::digit_at(timestamp, 9) || !Self::digit_at(timestamp, 10) {
            return false;
        }
        if timestamp.get_char(11) != ':' {
            return false;
        }
        if !Self::digit_at(timestamp, 12) || !Self::digit_at(timestamp, 13) {
            return false;
        }
        if timestamp.get_char(14) != ':' {
            return false;
        }
        if !Self::digit_at(timestamp, 15) || !Self::digit_at(timestamp, 16) {
            return false;
        }
        if n == 21 {
            if timestamp.get_char(17) != '.' {
                return false;
            }
            if !Self::digit_at(timestamp, 18) || !Self::digit_at(timestamp, 19) || !Self::digit_at(
                timestamp,
                20,
            ) {
                return false;
            }
        }
        true
    }

    fn digit_at(s: &str, i: usize) -> (r: bool)
        requires
            i < s@.len(),
        ensures
            r == is_digit(s@[i as int]),
    {
        let c = s.get_char(i);
        '0' <= c && c <= '9'
    }

    fn check_seq_num(v: &str) -> (r: bool)
        ensures
            r == spec_valid_seq_num(v@),
    {
        match crate::text::parse_i32_str(v) {
            Some(n) => n > 0,
            None => false,
        }
    }

    pub fn is_valid_side(side: &str) -> (r: bool)
        ensures
            r == spec_valid_side(side@),
    {
        proof {
            reveal_strlit("1");
            reveal_strlit("2");
            reveal_strlit("3");
            reveal_strlit("4");
            reveal_strlit("5");
            reveal_strlit("6");
        }
        str_eq(side, "1") || str_eq(side, "2") || str_eq(side, "3") || str_eq(side, "4") || str_eq(
            side,
            "5",
        ) || str_eq(side, "6")
    }

    pub fn is_valid_md_entry_type(entry_type: &str) -> (r: bool)
        ensures
            r == spec_valid_md_entry_type(entry_type@),
    {
        str_eq(entry_type, "0") || str_eq(entry_type, "1") || str_eq(entry_type, "2") || str_eq(
            entry_type,
            "3",
        ) || str_eq(entry_type, "4") || str_eq(entry_type, "5") || str_eq(entry_type, "7")
            || str_eq(entry_type, "8")
    }

    pub fn is_valid_quote_condition(condition: &str) -> (r: bool)
        ensures
            r == spec_valid_quote_condition(condition@),
    {
        str_eq(condition, "A") || str_eq(condition, "B") || str_eq(condition, "C") || str_eq(
            condition,
            "D",
        ) || str_eq(condition, "E") || str_eq(condition, "F")
    }

    pub fn is_valid_order_type(ord_type: &str) -> (r: bool)
        ensures
            r == spec_valid_ord_type(ord_type@),
    {
        str_eq(ord_type, "1") || str_eq(ord_type, "2") || str_eq(ord_type, "3") || str_eq(
            ord_type,
            "4",
        ) || str_eq(ord_type, "5") || str_eq(ord_type, "6") || str_eq(ord_type, "7") || str_eq(
            ord_type,
            "8",
        )
    }

    pub fn is_valid_time_in_force(tif: &str) -> (r: bool)
        ensures
            r == spec_valid_tif(tif@),
    {
        str_eq(tif, "0") || str_eq(tif, "1") || str_eq(tif, "2") || str_eq(tif, "3") || str_eq(
            tif,
            "4",
        ) || str_eq(tif, "6")
    }

    pub fn is_valid_exec_type_ord_status(exec_type: &str, ord_status: &str) -> (r: bool)
        ensures
            r == spec_valid_exec_pair(exec_type@, ord_status@),
    {
        (str_eq(exec_type, "0") && (str_eq(ord_status, "0") || str_eq(ord_status, "1"))) || (
        str_eq(exec_type, "1") && (str_eq(ord_status, "1") || str_eq(ord_status, "2"))) || (str_eq(
            exec_type,
            "2",
        ) && str_eq(ord_status, "2")) || (str_eq(exec_type, "4") && str_eq(ord_status, "4")) || (
        str_eq(exec_type, "C") && str_eq(ord_status, "C"))
    }

    /// The sending time, where present, must have the timestamp shape.
    pub fn validate_sending_time(message: &Message) -> (r: Result<(), FixError>)
        requires
            message.wf(),
        ensures
            match r {
                Ok(()) => message.field_map().contains_key(52) ==> spec_is_timestamp(
                    message.field_map()[52],
                ),
                Err(e) => message.field_map().contains_key(52) && !spec_is_timestamp(
                    message.field_map()[52],
                ) && e is ParseError,
            },
    {
        match message.get_field(field::SENDING_TIME) {
            Some(f) => {
                if Self::is_valid_timestamp(f.value()) {
                    Ok(())
                } else {
                    Err(FixError::ParseError(String::from_str("Invalid SendingTime format")))
                }
            },
            None => Ok(()),
        }
    }

    /// The sequence number, where present, must be a positive integer.
    pub fn validate_sequence_numbers(message: &Message) -> (r: Result<(), FixError>)
        requires
            message.wf(),
        ensures
            match r {
                Ok(()) => message.field_map().contains_key(34) ==> spec_valid_seq_num(
                    message.field_map()[34],
                ),
                Err(e) => message.field_map().contains_key(34) && !spec_valid_seq_num(
                    message.field_map()[34],
                ) && e is ParseError,
            },
    {
        match message.get_field(field::MSG_SEQ_NUM) {
            Some(f) => {
                if Self::check_seq_num(f.value()) {
                    Ok(())
                } else {
                    Err(FixError::ParseError(String::from_str("MsgSeqNum must be positive")))
                }
            },
            None => Ok(()),
        }
    }

    /// The conditional rules of an execution report.
    pub fn validate_execution_report(message: &Message) -> (r: Result<(), FixError>)
        requires
            message.wf(),
        ensures
            match r {
                Ok(()) => spec_exec_report_ok(message),
                Err(e) => !spec_exec_report_ok(message) && e is ParseError,
            },
    {
        let et = message.get_field(field::EXEC_TYPE);
        let os = message.get_field(field::ORD_STATUS);
        match (et, os) {
            (Some(e), Some(o)) => {
                if Self::is_valid_exec_type_ord_status(e.value(), o.value()) {
                    Ok(())
                } else {
                    Err(
                        FixError::ParseError(
                            String::from_str("Invalid ExecType and OrdStatus combination"),
                        ),
                    )
                }
            },
            _ => Ok(()),
        }
    }

    /// The conditional rules of a new order.
    pub fn validate_new_order_single(message: &Message) -> (r: Result<(), FixError>)
        requires
            message.wf(),
        ensures
            match r {
                Ok(()) => spec_new_order_ok(message),
                Err(e) => !spec_new_order_ok(message) && e is ParseError,
            },
    {
        proof {
            lemma_ord_type_lits_distinct();
        }
        match message.get_field(field::ORD_TYPE) {
            Some(f) => {
                if str_eq(f.value(), "2") {
                    if message.get_field(field::PRICE).is_none() {
                        return Err(
                            FixError::ParseError(
                                String::from_str("Price is required for LIMIT orders"),
                            ),
                        );
                    }
                } else if str_eq(f.value(), "3") {
                    if message.get_field(field::STOP_PX).is_none() {
                        return Err(
                            FixError::ParseError(
                                String::from_str("StopPx is required for STOP orders"),
                            ),
                        );
                    }
                } else if str_eq(f.value(), "4") {
                    if message.get_field(field::PRICE).is_none() {
                        return Err(
                            FixError::ParseError(
                                String::from_str(
                                    "Both Price and StopPx are required for STOP LIMIT orders",
                                ),
                            ),
                        );
                    }
                    if message.get_field(field::STOP_PX).is_none() {
                        return Err(
                            FixError::ParseError(
                                String::from_str(
                                    "Both Price and StopPx are required for STOP LIMIT orders",
                                ),
                            ),
                        );
                    }
                }
                Ok(())
            },
            None => Ok(()),
        }
    }

    /// The original order must be named for a cancel or replace.
    pub fn validate_order_cancel_replace(message: &Message) -> (r: Result<(), FixError>)
        requires
            message.wf(),
        ensures
            match r {
                Ok(()) => spec_cancel_replace_ok(message),
                Err(e) => !spec_cancel_replace_ok(message) && e is ParseError,
            },
    {
        if message.get_field(field::ORDER_ID).is_none() {
            Err(FixError::ParseError(String::from_str("OrderID is required for cancel/replace")))
        } else {
            Ok(())
        }
    }

    /// The conditional rules of a quote request.
    pub fn validate_quote_request(message: &Message) -> (r: Result<(), FixError>)
        requires
            message.wf(),
        ensures
            match r {
                Ok(()) => spec_quote_request_ok(message),
                Err(e) => !spec_quote_request_ok(message) && e is ParseError,
            },
    {
        if message.get_field(field::QUOTE_REQ_ID).is_none() || message.get_field(
            field::SYMBOL,
        ).is_none() {
            Err(
                FixError::ParseError(
                    String::from_str("Missing required field for quote request"),
                ),
            )
        } else {
            Ok(())
        }
    }
}

} // verus!
