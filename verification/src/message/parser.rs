//! Reading frames back into messages, and frame extraction from a raw byte
//! accumulator.

use vstd::prelude::*;

use crate::error::FixError;
use crate::message::field::Field;
use crate::message::fieldlist::FieldList;
use crate::message::wire::{
    self, acc_init, acc_step, fold_pieces, parse_piece, soh, spec_parse, split_soh, ParseAcc,
};
use crate::message::Message;
use crate::text;

verus! {

/// The spec accumulator an exec parse state denotes.
pub open spec fn acc_of(
    fields: Map<int, Seq<char>>,
    msg_type: Option<Seq<char>>,
    has_begin: bool,
    md_expected: Option<Seq<char>>,
    md_count: int,
    has_checksum: bool,
    md_entries: Seq<Seq<(int, Seq<char>)>>,
    in_group: bool,
) -> ParseAcc {
    ParseAcc {
        fields,
        msg_type,
        has_begin,
        md_expected,
        md_count,
        has_checksum,
        md_entries,
        in_group,
    }
}

/// The frame reader.
pub struct MessageParser;

impl MessageParser {
    /// Reads a frame: splits at each delimiter, reads each piece as
    /// `tag=value` splitting at the first `=`, collects the fields, folds
    /// the entries that follow the entry-count tag into a repeating group,
    /// checks that a declared entry count matches the entries seen, and
    /// checks a declared checksum against the recomputed one. The outcome
    /// is exactly `spec_parse` on the input; only ASCII input is accepted.
    pub fn parse(data: &str) -> (r: Result<Message, FixError>)
        ensures
            match r {
                Ok(m) => {
                    &&& vstd::utf8::is_ascii_chars(data@)
                    &&& spec_parse(data@) matches Some((mt, fm, gm)) && m.spec_msg_type() == mt
                        && m.field_map() == fm && m.spec_groups() == gm
                    &&& m.wf()
                    &&& m.spec_formats_seq() == Seq::<
                        (int, crate::message::formatter::ValueFormat),
                    >::empty()
                },
                Err(e) => (!vstd::utf8::is_ascii_chars(data@) || spec_parse(data@) is None) && e is ParseError,
            },
    {
        if !data.is_ascii() {
            return Err(FixError::ParseError(String::from_str("Invalid encoding")));
        }
        let len: usize = data.unicode_len();
        let mut fields = FieldList::new();
        let mut msg_type: Option<String> = None;
        let mut has_begin: bool = false;
        let mut md_expected: Option<String> = None;
        let mut md_count: u64 = 0;
        let mut has_checksum: bool = false;
        let mut group_entries: Vec<FieldList> = Vec::new();
        let mut in_group: bool = false;
        let mut pos: usize = 0;
        proof {
            assert(group_entries@.map_values(|e: FieldList| e.pairs()) =~= Seq::<
                Seq<(int, Seq<char>)>,
            >::empty());
        }
        proof {
            assert(data@.skip(0) =~= data@);
            assert(fields.map() =~= Map::<int, Seq<char>>::empty());
        }
        while pos < len
            invariant
                0 <= pos <= len,
                len == data@.len(),
                vstd::string::is_ascii(data),
                fields.wf(),
                forall|j: int| 0 <= j < group_entries@.len() ==> (#[trigger] group_entries@[j]).wf(),
                md_count as int <= pos as int,
                fold_pieces(acc_init(), split_soh(data@)) == fold_pieces(
                    (acc_of(
                        fields.map(),
                        msg_type.deep_view(),
                        has_begin,
                        md_expected.deep_view(),
                        md_count as int,
                        has_checksum,
                        group_entries@.map_values(|e: FieldList| e.pairs()),
                        in_group,
                    )),
                    split_soh(data@.skip(pos as int)),
                ),
            decreases len - pos,
        {
            let ghost acc_before = acc_of(
                fields.map(),
                msg_type.deep_view(),
                has_begin,
                md_expected.deep_view(),
                md_count as int,
                has_checksum,
                group_entries@.map_values(|e: FieldList| e.pairs()),
                in_group,
            );
            let sohk = text::find_char_from(data, '\u{1}', pos);
            let k: usize = match sohk {
                Some(k) => k,
                None => len,
            };
            let ghost piece = data@.subrange(pos as int, k as int);
            let ghost remainder = data@.skip(pos as int);
            proof {
                assert(forall|j: int|
                    0 <= j < remainder.len() ==> #[trigger] remainder[j] == data@[j + pos]);
                assert(forall|j: int| 0 <= j < piece.len() ==> piece[j] != soh());
                if k < len {
                    assert(remainder =~= piece + seq![soh()] + data@.skip(k + 1));
                    wire::lemma_split_prepend_piece(piece, data@.skip(k + 1));
                } else {
                    assert(remainder =~= piece);
                    if piece.len() > 0 {
                        crate::text::lemma_spec_find_none(piece, soh());
                        assert(split_soh(remainder) == seq![piece]) by {
                            lemma_split_no_soh(piece);
                        }
                    }
                }
            }
            if k > pos {
                // A non-empty piece: it must read as tag=value.
                let eq = text::find_char_from(data, '=', pos);
                let e: usize = match eq {
                    Some(e) => {
                        if e < k {
                            e
                        } else {
                            proof {
                                lemma_piece_rejected_no_eq(data@, pos as int, k as int);
                                lemma_fold_none(
                                    acc_before,
                                    piece,
                                    data@.skip(k + 1),
                                    data@,
                                    pos as int,
                                    k as int,
                                );
                            }
                            return Err(
                                FixError::ParseError(String::from_str("Invalid field format")),
                            );
                        }
                    },
                    None => {
                        proof {
                            lemma_piece_rejected_no_eq(data@, pos as int, k as int);
                            lemma_fold_none(
                                acc_before,
                                piece,
                                data@.skip(k + 1),
                                data@,
                                pos as int,
                                k as int,
                            );
                        }
                        return Err(
                            FixError::ParseError(String::from_str("Invalid field format")),
                        );
                    },
                };
                proof {
                    assert(piece[e - pos] == '=');
                    assert(forall|j: int| 0 <= j < e - pos ==> piece[j] != '=');
                    crate::text::lemma_spec_find_is_first(piece, '=', e - pos as int);
                    assert(piece.take(e - pos as int) =~= data@.subrange(pos as int, e as int));
                    assert(piece.skip(e - pos + 1) =~= data@.subrange(e + 1 as int, k as int));
                }
                let tagv = text::parse_u32_range(data, pos, e);
                let tag: i32 = match tagv {
                    Some(tv) => {
                        if tv >= 1 && tv <= i32::MAX as u32 {
                            tv as i32
                        } else {
                            proof {
                                assert(parse_piece(piece) is None);
                                lemma_fold_none(
                                    acc_before,
                                    piece,
                                    data@.skip(k + 1),
                                    data@,
                                    pos as int,
                                    k as int,
                                );
                            }
                            return Err(
                                FixError::ParseError(String::from_str("Invalid tag number")),
                            );
                        }
                    },
                    None => {
                        proof {
                            assert(parse_piece(piece) is None) by {
                                let tagpart = piece.take(e - pos as int);
                                if tagpart.len() > 0 && text::is_digit_seq(tagpart) {
                                    crate::text::lemma_val_of_digits_bound(tagpart);
                                    crate::text::lemma_val_of_digits_nonneg(tagpart);
                                    if text::val_of_digits(tagpart) <= u32::MAX as int {
                                        assert(false);
                                    }
                                }
                            }
                            lemma_fold_none(
                                acc_before,
                                piece,
                                data@.skip(k + 1),
                                data@,
                                pos as int,
                                k as int,
                            );
                        }
                        return Err(FixError::ParseError(String::from_str("Invalid tag number")));
                    },
                };
                let value: String = data.substring_ascii(e + 1, k).to_owned();
                proof {
                    assert(value@ == data@.subrange(e + 1 as int, k as int));
                    assert(parse_piece(piece) == Some((tag as int, value@)));
                    assert(wire::wf_value(value@)) by {
                        assert(forall|j: int|
                            0 <= j < value@.len() ==> #[trigger] value@[j] == data@[e + 1 + j]);
                        assert(forall|j: int|
                            0 <= j < value@.len() ==> '\0' <= #[trigger] value@[j] <= '\u{7f}');
                        assert(forall|j: int|
                            0 <= j < value@.len() ==> #[trigger] value@[j] == piece[(e - pos + 1)
                                + j]);
                    }
                }
                // Apply the step. A tag 269 inside the group opens a new
                // entry; member tags fill the entry just opened; everything
                // else is a plain field, the codec-owned tags excepted.
                let ghost pre_entries = group_entries@.map_values(|e: FieldList| e.pairs());
                let fold_new_entry = tag == crate::message::field::MD_ENTRY_TYPE && in_group;
                let fold_member = (tag == crate::message::field::MD_ENTRY_PX || tag
                    == crate::message::field::MD_ENTRY_SIZE) && in_group && group_entries.len()
                    > 0;
                if fold_new_entry {
                    let mut e = FieldList::new();
                    let f = Field::new(tag, value.clone());
                    proof {
                        assert(f.wf());
                    }
                    e.upsert(f);
                    proof {
                        assert(e.pairs() =~= seq![(tag as int, value@)]);
                    }
                    group_entries.push(e);
                    proof {
                        assert(group_entries@.map_values(|e2: FieldList| e2.pairs())
                            =~= pre_entries.push(seq![(269int, value@)]));
                    }
                } else if fold_member {
                    let last = group_entries.len() - 1;
                    let f = Field::new(tag, value.clone());
                    proof {
                        assert(f.wf());
                        assert(group_entries@[last as int].wf());
                        assert(group_entries@[last as int].pairs() == pre_entries.last());
                    }
                    let e = &mut group_entries[last];
                    e.upsert(f);
                    proof {
                        assert(group_entries@.map_values(|e2: FieldList| e2.pairs())
                            =~= pre_entries.update(
                            pre_entries.len() - 1,
                            crate::message::wire::sorted_insert(
                                pre_entries.last(),
                                tag as int,
                                value@,
                            ),
                        ));
                    }
                } else if tag != crate::message::field::BODY_LENGTH && tag
                    != crate::message::field::CHECKSUM {
                    let f = Field::new(tag, value.clone());
                    proof {
                        assert(f.wf());
                    }
                    fields.upsert(f);
                }
                if tag == crate::message::field::MSG_TYPE {
                    msg_type = Some(value.clone());
                }
                if tag == crate::message::field::BEGIN_STRING {
                    has_begin = true;
                }
                if tag == crate::message::field::NO_MD_ENTRIES {
                    md_expected = Some(value.clone());
                }
                if tag == crate::message::field::MD_ENTRY_TYPE {
                    md_count = md_count + 1;
                }
                if tag == crate::message::field::CHECKSUM {
                    has_checksum = true;
                }
                in_group = tag == crate::message::field::NO_MD_ENTRIES || (in_group && (tag
                    == crate::message::field::MD_ENTRY_TYPE || tag
                    == crate::message::field::MD_ENTRY_PX || tag
                    == crate::message::field::MD_ENTRY_SIZE));
                proof {
                    let acc_after = acc_of(
                        fields.map(),
                        msg_type.deep_view(),
                        has_begin,
                        md_expected.deep_view(),
                        md_count as int,
                        has_checksum,
                        group_entries@.map_values(|e: FieldList| e.pairs()),
                        in_group,
                    );
                    assert(acc_after == acc_step(acc_before, tag as int, value@));
                    wire::lemma_fold_single_ok(acc_before, piece, tag as int, value@);
                    if k < len {
                        assert(split_soh(remainder) == seq![piece] + split_soh(
                            data@.skip(k + 1),
                        ));
                        wire::lemma_fold_pieces_append(
                            acc_before,
                            seq![piece],
                            split_soh(data@.skip(k + 1)),
                        );
                    } else {
                        assert(split_soh(remainder) == seq![piece]);
                        assert(data@.skip(len as int) =~= Seq::<char>::empty());
                        assert(split_soh(Seq::<char>::empty()) == seq![Seq::<char>::empty()]);
                        wire::lemma_fold_single_empty(acc_after, Seq::<char>::empty());
                    }
                }
            } else {
                // An empty piece: skipped.
                proof {
                    assert(piece.len() == 0);
                    assert(k < len);
                    assert(split_soh(remainder) == seq![piece] + split_soh(data@.skip(k + 1)));
                    wire::lemma_fold_pieces_append(
                        acc_before,
                        seq![piece],
                        split_soh(data@.skip(k + 1)),
                    );
                    wire::lemma_fold_single_empty(acc_before, piece);
                }
            }
            if k >= len {
                pos = len;
            } else {
                pos = k + 1;
            }
        }
        let ghost acc_done = acc_of(
            fields.map(),
            msg_type.deep_view(),
            has_begin,
            md_expected.deep_view(),
            md_count as int,
            has_checksum,
            group_entries@.map_values(|e: FieldList| e.pairs()),
            in_group,
        );
        proof {
            assert(data@.skip(len as int) =~= Seq::<char>::empty());
            assert(split_soh(Seq::<char>::empty()) == seq![Seq::<char>::empty()]);
            wire::lemma_fold_single_empty(acc_done, Seq::<char>::empty());
            assert(fold_pieces(acc_init(), split_soh(data@)) == Some(acc_done));
        }
        // The frame must carry the version and the message type.
        let mt: String = match msg_type {
            Some(s) => {
                if has_begin {
                    s
                } else {
                    return Err(
                        FixError::ParseError(String::from_str("Missing BeginString or MsgType")),
                    );
                }
            },
            None => {
                return Err(
                    FixError::ParseError(String::from_str("Missing BeginString or MsgType")),
                );
            },
        };
        // A declared checksum must be the true one, carried in a
        // well-formed trailer.
        if has_checksum {
            if !crate::message::wire::verify_frame_checksum(data) {
                return Err(FixError::ParseError(String::from_str("Checksum mismatch")));
            }
        }
        // A declared entry count must match the entries seen.
        match &md_expected {
            Some(declared) => {
                match text::parse_i32_str(declared.as_str()) {
                    Some(n) => {
                        if n < 0 || md_count != n as u64 {
                            return Err(
                                FixError::ParseError(
                                    String::from_str(
                                        "Market data entry count does not match entries found",
                                    ),
                                ),
                            );
                        }
                    },
                    None => {},
                }
            },
            None => {},
        }
        proof {
            assert(wire::md_ok(acc_done));
        }
        let group: Option<(i32, crate::message::group::RepeatingGroup)> = match &md_expected {
            Some(_) => {
                let mut req: Vec<i32> = Vec::new();
                req.push(crate::message::field::MD_ENTRY_PX);
                req.push(crate::message::field::MD_ENTRY_SIZE);
                proof {
                    assert(forall|j: int|
                        0 <= j < group_entries@.len() ==> (#[trigger] group_entries@[j]).wf());
                }
                let g = crate::message::group::RepeatingGroup::from_entries(
                    crate::message::field::MD_ENTRY_TYPE,
                    req,
                    group_entries,
                );
                proof {
                    assert(g@ == (crate::message::wire::GroupModel {
                        delim: 269,
                        entries: acc_done.md_entries,
                    }));
                }
                Some((crate::message::field::NO_MD_ENTRIES, g))
            },
            None => None,
        };
        Ok(Message::from_parts(fields, mt, group))
    }
}

/// The index of the first `8=` in `b`, or `-1`.
pub open spec fn find_frame_start(b: Seq<u8>) -> int
    decreases b.len(),
{
    if b.len() < 2 {
        -1
    } else if b[0] == 56 && b[1] == 61 {
        0
    } else {
        let r = find_frame_start(b.drop_first());
        if r < 0 {
            -1
        } else {
            r + 1
        }
    }
}

/// The index of the first `10=` in `b`, or `-1`.
pub open spec fn find_checksum_start(b: Seq<u8>) -> int
    decreases b.len(),
{
    if b.len() < 3 {
        -1
    } else if b[0] == 49 && b[1] == 48 && b[2] == 61 {
        0
    } else {
        let r = find_checksum_start(b.drop_first());
        if r < 0 {
            -1
        } else {
            r + 1
        }
    }
}

pub open spec fn is_digit_byte(b: u8) -> bool {
    48 <= b <= 57
}

/// The bounds of the first complete frame held in `b`: from the first `8=`
/// through the delimiter that closes the first following `10=` trailer,
/// whose three checksum characters must be digits.
pub open spec fn spec_extract(b: Seq<u8>) -> Option<(int, int)> {
    let s = find_frame_start(b);
    if s < 0 {
        None
    } else {
        let c0 = find_checksum_start(b.skip(s));
        if c0 < 0 {
            None
        } else {
            let c = s + c0;
            if c + 7 <= b.len() && is_digit_byte(b[c + 3]) && is_digit_byte(b[c + 4])
                && is_digit_byte(b[c + 5]) && b[c + 6] == 1 {
                Some((s, c + 7))
            } else {
                None
            }
        }
    }
}

proof fn lemma_find_frame_start_is(b: Seq<u8>, i: int)
    requires
        0 <= i,
        i + 2 <= b.len(),
        b[i] == 56 && b[i + 1] == 61,
        forall|j: int| 0 <= j < i ==> !((#[trigger] b[j]) == 56 && b[j + 1] == 61),
    ensures
        find_frame_start(b) == i,
    decreases b.len(),
{
    if i > 0 {
        let rest = b.drop_first();
        assert(forall|j: int| 0 <= j < rest.len() ==> #[trigger] rest[j] == b[j + 1]);
        lemma_find_frame_start_is(rest, i - 1);
    }
}

proof fn lemma_find_frame_start_none(b: Seq<u8>)
    requires
        forall|j: int| 0 <= j && j + 2 <= b.len() ==> !((#[trigger] b[j]) == 56 && b[j + 1] == 61),
    ensures
        find_frame_start(b) < 0,
    decreases b.len(),
{
    if b.len() >= 2 {
        let rest = b.drop_first();
        assert(forall|j: int| 0 <= j < rest.len() ==> #[trigger] rest[j] == b[j + 1]);
        lemma_find_frame_start_none(rest);
    }
}

proof fn lemma_find_checksum_start_is(b: Seq<u8>, i: int)
    requires
        0 <= i,
        i + 3 <= b.len(),
        b[i] == 49 && b[i + 1] == 48 && b[i + 2] == 61,
        forall|j: int| 0 <= j < i ==> !((#[trigger] b[j]) == 49 && b[j + 1] == 48 && b[j + 2] == 61),
    ensures
        find_checksum_start(b) == i,
    decreases b.len(),
{
    if i > 0 {
        let rest = b.drop_first();
        assert(forall|j: int| 0 <= j < rest.len() ==> #[trigger] rest[j] == b[j + 1]);
        lemma_find_checksum_start_is(rest, i - 1);
    }
}

proof fn lemma_find_checksum_start_none(b: Seq<u8>)
    requires
        forall|j: int| 0 <= j && j + 3 <= b.len() ==> !((#[trigger] b[j]) == 49 && b[j + 1] == 48 && b[j + 2]
            == 61),
    ensures
        find_checksum_start(b) < 0,
    decreases b.len(),
{
    if b.len() >= 3 {
        let rest = b.drop_first();
        assert(forall|j: int| 0 <= j < rest.len() ==> #[trigger] rest[j] == b[j + 1]);
        lemma_find_checksum_start_none(rest);
    }
}

/// Relies on `String::from_utf8_lossy`: ASCII bytes are valid UTF-8 and
/// decode to the same code points, one character per byte.
#[verifier::external_body]
fn ascii_bytes_to_string(b: &[u8]) -> (r: String)
    requires
        forall|i: int| 0 <= i < b@.len() ==> #[trigger] b@[i] < 128,
    ensures
        r@.len() == b@.len(),
        forall|i: int| 0 <= i < r@.len() ==> #[trigger] r@[i] == b@[i] as char,
{
    String::from_utf8_lossy(b).into_owned()
}

impl MessageParser {
    /// Finds the first complete frame in a byte accumulator: the first `8=`
    /// through the delimiter closing the first `10=` trailer after it, with
    /// three digit characters between. The frame and the count of bytes to
    /// drain are returned; a partial frame leaves the buffer for the next
    /// read. Frames holding non-ASCII bytes are not returned.
    pub fn extract_complete_message(buffer: &[u8]) -> (r: Option<(String, usize)>)
        ensures
            match r {
                Some((msg, consumed)) => {
                    &&& spec_extract(buffer@) matches Some((s, e)) && e == consumed as int
                        && msg@.len() == e - s && forall|k: int|
                        0 <= k < msg@.len() ==> #[trigger] msg@[k] == buffer@[s + k] as char
                    &&& consumed <= buffer@.len()
                },
                None => spec_extract(buffer@) is None || (spec_extract(buffer@) matches Some(
                    (s, e),
                ) && exists|k: int| s <= k < e && #[trigger] buffer@[k] >= 128),
            },
    {
        let n = buffer.len();
        // The first `8=`.
        let mut s: usize = 0;
        let mut found: bool = false;
        while !found && n >= 2 && s <= n - 2
            invariant
                0 <= s,
                n == buffer@.len(),
                !found ==> forall|j: int|
                    0 <= j < s ==> !((#[trigger] buffer@[j]) == 56 && buffer@[j + 1] == 61),
                !found ==> s <= n,
                found ==> s + 2 <= n && buffer@[s as int] == 56 && buffer@[s + 1] == 61 && forall|
                    j: int,
                |
                    0 <= j < s ==> !((#[trigger] buffer@[j]) == 56 && buffer@[j + 1] == 61),
            decreases n - s + (if found { 0int } else { 1int }),
        {
            if buffer[s] == 56 && buffer[s + 1] == 61 {
                found = true;
            } else {
                s = s + 1;
            }
        }
        if !found {
            proof {
                lemma_find_frame_start_none(buffer@);
            }
            return None;
        }
        proof {
            lemma_find_frame_start_is(buffer@, s as int);
        }
        // The first `10=` at or after the start.
        let mut c: usize = s;
        let mut cfound: bool = false;
        while !cfound && n >= 3 && c <= n - 3
            invariant
                s <= c,
                n == buffer@.len(),
                !cfound ==> forall|j: int|
                    s <= j < c ==> !((#[trigger] buffer@[j]) == 49 && buffer@[j + 1] == 48 && buffer@[j + 2]
                        == 61),
                !cfound ==> c <= n,
                cfound ==> c + 3 <= n && buffer@[c as int] == 49 && buffer@[c + 1] == 48
                    && buffer@[c + 2] == 61 && forall|j: int|
                    s <= j < c ==> !((#[trigger] buffer@[j]) == 49 && buffer@[j + 1] == 48 && buffer@[j + 2]
                        == 61),
            decreases n - c + (if cfound { 0int } else { 1int }),
        {
            if buffer[c] == 49 && buffer[c + 1] == 48 && buffer[c + 2] == 61 {
                cfound = true;
            } else {
                c = c + 1;
            }
        }
        let ghost tail = buffer@.skip(s as int);
        proof {
            assert(forall|j: int| 0 <= j < tail.len() ==> #[trigger] tail[j] == buffer@[j + s]);
        }
        if !cfound {
            proof {
                lemma_find_checksum_start_none(tail);
            }
            return None;
        }
        proof {
            lemma_find_checksum_start_is(tail, c - s as int);
        }
        // The trailer: three digits and the closing delimiter.
        if !(n >= 7 && c <= n - 7 && buffer[c + 3] >= 48 && buffer[c + 3] <= 57 && buffer[c + 4] >= 48
            && buffer[c + 4] <= 57 && buffer[c + 5] >= 48 && buffer[c + 5] <= 57 && buffer[c + 6]
            == 1) {
            proof {
                assert(find_frame_start(buffer@) == s as int);
                assert(find_checksum_start(buffer@.skip(s as int)) == c - s as int);
                assert(!(c + 7 <= buffer@.len() && is_digit_byte(buffer@[c as int + 3])
                    && is_digit_byte(buffer@[c as int + 4]) && is_digit_byte(buffer@[c as int + 5])
                    && buffer@[c as int + 6] == 1));
                assert(spec_extract(buffer@) is None);
            }
            return None;
        }
        let e: usize = c + 7;
        proof {
            assert(spec_extract(buffer@) == Some((s as int, e as int)));
        }
        // Only ASCII frames are decoded.
        let mut k: usize = s;
        while k < e
            invariant
                s <= k <= e <= n,
                n == buffer@.len(),
                spec_extract(buffer@) == Some((s as int, e as int)),
                forall|j: int| s <= j < k ==> #[trigger] buffer@[j] < 128,
            decreases e - k,
        {
            if buffer[k] >= 128 {
                proof {
                    assert(s <= k < e && buffer@[k as int] >= 128);
                }
                return None;
            }
            k = k + 1;
        }
        let frame = vstd::slice::slice_subrange(buffer, s, e);
        let msg = ascii_bytes_to_string(frame);
        Some((msg, e))
    }
}

/// A delimiter-free sequence splits to itself alone.
proof fn lemma_split_no_soh(s: Seq<char>)
    requires
        forall|j: int| 0 <= j < s.len() ==> s[j] != soh(),
    ensures
        split_soh(s) == seq![s],
    decreases s.len(),
{
    if s.len() == 0 {
        assert(split_soh(s) == seq![Seq::<char>::empty()]);
        assert(seq![Seq::<char>::empty()] =~~= seq![s]);
    } else {
        let rest = s.drop_first();
        assert(forall|j: int| 0 <= j < rest.len() ==> #[trigger] rest[j] == s[j + 1]);
        lemma_split_no_soh(rest);
        let r = split_soh(rest);
        assert(r[0] == rest);
        assert(seq![s[0]] + r[0] =~= s);
        assert(r.drop_first() =~= Seq::<Seq<char>>::empty());
        assert(split_soh(s) == seq![seq![s[0]] + r[0]] + r.drop_first());
        assert(seq![seq![s[0]] + r[0]] + r.drop_first() =~~= seq![s]);
    }
}

/// A piece without `=` is rejected.
proof fn lemma_piece_rejected_no_eq(s: Seq<char>, pos: int, k: int)
    requires
        0 <= pos < k <= s.len(),
        forall|j: int| pos <= j < k ==> s[j] != '=',
    ensures
        parse_piece(s.subrange(pos, k)) is None,
{
    let piece = s.subrange(pos, k);
    assert(forall|j: int| 0 <= j < piece.len() ==> #[trigger] piece[j] == s[j + pos]);
    crate::text::lemma_spec_find_none(piece, '=');
}

/// One rejected piece fails the whole read, whatever came before or after.
proof fn lemma_fold_none(
    acc: ParseAcc,
    piece: Seq<char>,
    after: Seq<char>,
    s: Seq<char>,
    pos: int,
    k: int,
)
    requires
        0 <= pos <= k <= s.len(),
        piece == s.subrange(pos, k),
        piece.len() > 0,
        parse_piece(piece) is None,
        k < s.len() ==> {
            &&& s[k] == soh()
            &&& after == s.skip(k + 1)
            &&& split_soh(s.skip(pos)) == seq![piece] + split_soh(after)
        },
        k == s.len() ==> split_soh(s.skip(pos)) == seq![piece],
    ensures
        fold_pieces(acc, split_soh(s.skip(pos))) is None,
{
    if k < s.len() {
        wire::lemma_fold_pieces_append(acc, seq![piece], split_soh(after));
        assert(seq![piece][0] == piece);
        assert(seq![piece].drop_first() =~= Seq::<Seq<char>>::empty());
        assert(fold_pieces(acc, seq![piece]) is None);
    } else {
        assert(seq![piece][0] == piece);
        assert(fold_pieces(acc, seq![piece]) is None);
    }
}

} // verus!
