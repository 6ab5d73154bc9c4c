//! The wire model of the tag-value format: field encoding, frame assembly
//! with body length and checksum, frame splitting, and the parse model that
//! the codec's executable functions are proved against.

use vstd::prelude::*;

use crate::text::{
    dec_digits_of, digit_char, digit_val, is_digit, is_digit_seq, padded_digits_of, spec_find,
    spec_parse_i32, val_of_digits,
};

verus! {

/// The field delimiter, a single 0x01 byte.
pub open spec fn soh() -> char {
    '\u{1}'
}

/// A character admissible inside a field value: ASCII and not the delimiter.
pub open spec fn is_value_char(c: char) -> bool {
    '\0' <= c <= '\u{7f}' && c != soh()
}

/// Every character of `v` is admissible inside a field value.
pub open spec fn wf_value(v: Seq<char>) -> bool {
    forall|i: int| 0 <= i < v.len() ==> is_value_char(#[trigger] v[i])
}

/// A tag the wire format can carry: positive and within `i32`.
pub open spec fn wf_tag(t: int) -> bool {
    1 <= t <= i32::MAX as int
}

/// A well-formed (tag, value) pair.
pub open spec fn wf_pair(p: (int, Seq<char>)) -> bool {
    wf_tag(p.0) && wf_value(p.1)
}

/// The pairs stand in strictly ascending tag order.
pub open spec fn pairs_sorted(ps: Seq<(int, Seq<char>)>) -> bool {
    forall|i: int, j: int|
        0 <= i < j < ps.len() ==> (#[trigger] ps[i]).0 < (#[trigger] ps[j]).0
}

/// Every pair is well-formed.
pub open spec fn pairs_wf(ps: Seq<(int, Seq<char>)>) -> bool {
    forall|i: int| 0 <= i < ps.len() ==> wf_pair(#[trigger] ps[i])
}

/// The pair list with `(t, v)` set, keeping ascending order.
pub open spec fn sorted_insert(
    ps: Seq<(int, Seq<char>)>,
    t: int,
    v: Seq<char>,
) -> Seq<(int, Seq<char>)>
    decreases ps.len(),
{
    if ps.len() == 0 {
        seq![(t, v)]
    } else if ps[0].0 < t {
        seq![ps[0]] + sorted_insert(ps.drop_first(), t, v)
    } else if ps[0].0 == t {
        seq![(t, v)] + ps.drop_first()
    } else {
        seq![(t, v)] + ps
    }
}

/// The encoding of one field: decimal tag, `=`, raw value, delimiter.
pub open spec fn enc_field(t: int, v: Seq<char>) -> Seq<char>
    recommends
        t >= 0,
{
    dec_digits_of(t as nat) + seq!['='] + v + seq![soh()]
}

/// The encoding of a list of fields, in order.
pub open spec fn enc_fields(ps: Seq<(int, Seq<char>)>) -> Seq<char>
    decreases ps.len(),
{
    if ps.len() == 0 {
        Seq::empty()
    } else {
        enc_field(ps[0].0, ps[0].1) + enc_fields(ps.drop_first())
    }
}

/// A repeating group as the wire sees it: the delimiter tag and, for each
/// entry, its (tag, value) pairs in ascending tag order.
pub ghost struct GroupModel {
    pub delim: int,
    pub entries: Seq<Seq<(int, Seq<char>)>>,
}

/// The index of the pair carrying `t`, or `-1` if none.
pub open spec fn find_tag(ps: Seq<(int, Seq<char>)>, t: int) -> int
    decreases ps.len(),
{
    if ps.len() == 0 {
        -1
    } else if ps[0].0 == t {
        0
    } else {
        let r = find_tag(ps.drop_first(), t);
        if r < 0 {
            -1
        } else {
            r + 1
        }
    }
}

/// An entry's pairs reordered so the delimiter tag comes first.
pub open spec fn delim_first(delim: int, e: Seq<(int, Seq<char>)>) -> Seq<(int, Seq<char>)> {
    let i = find_tag(e, delim);
    if i < 0 {
        e
    } else {
        seq![e[i]] + e.take(i) + e.skip(i + 1)
    }
}

/// The encoding of a group's entries.
pub open spec fn enc_entries(delim: int, es: Seq<Seq<(int, Seq<char>)>>) -> Seq<char>
    decreases es.len(),
{
    if es.len() == 0 {
        Seq::empty()
    } else {
        enc_fields(delim_first(delim, es[0])) + enc_entries(delim, es.drop_first())
    }
}

/// Body encoding: each field in order, each immediately followed by the
/// entries of the group keyed by its tag, where one exists.
pub open spec fn enc_body(ps: Seq<(int, Seq<char>)>, groups: Map<int, GroupModel>) -> Seq<char>
    decreases ps.len(),
{
    if ps.len() == 0 {
        Seq::empty()
    } else {
        enc_field(ps[0].0, ps[0].1) + (if groups.contains_key(ps[0].0) {
            enc_entries(groups[ps[0].0].delim, groups[ps[0].0].entries)
        } else {
            Seq::empty()
        }) + enc_body(ps.drop_first(), groups)
    }
}

/// Strictly ascending tags are distinct.
pub proof fn lemma_sorted_distinct_generic(ps: Seq<(int, Seq<char>)>)
    requires
        pairs_sorted(ps),
    ensures
        forall|i: int, j: int|
            0 <= i < j < ps.len() ==> (#[trigger] ps[i]).0 != (#[trigger] ps[j]).0,
{
    assert forall|i: int, j: int| 0 <= i < j < ps.len() implies (#[trigger] ps[i]).0 != (
    #[trigger] ps[j]).0 by {
        assert(ps[i].0 < ps[j].0);
    }
}

pub proof fn lemma_enc_fields_singleton(p: (int, Seq<char>))
    ensures
        enc_fields(seq![p]) == enc_field(p.0, p.1),
{
    assert(seq![p][0] == p);
    assert(seq![p].drop_first() =~= Seq::<(int, Seq<char>)>::empty());
    assert(enc_fields(seq![p]) == enc_field(p.0, p.1) + enc_fields(
        Seq::<(int, Seq<char>)>::empty(),
    ));
    assert(enc_field(p.0, p.1) + Seq::<char>::empty() =~= enc_field(p.0, p.1));
}

pub proof fn lemma_find_tag_is(ps: Seq<(int, Seq<char>)>, t: int, i: int)
    requires
        0 <= i < ps.len(),
        ps[i].0 == t,
        forall|j: int| 0 <= j < i ==> (#[trigger] ps[j]).0 != t,
    ensures
        find_tag(ps, t) == i,
    decreases ps.len(),
{
    if i > 0 {
        let rest = ps.drop_first();
        assert(forall|j: int| 0 <= j < rest.len() ==> #[trigger] rest[j] == ps[j + 1]);
        lemma_find_tag_is(rest, t, i - 1);
    }
}

pub proof fn lemma_find_tag_none(ps: Seq<(int, Seq<char>)>, t: int)
    requires
        forall|j: int| 0 <= j < ps.len() ==> (#[trigger] ps[j]).0 != t,
    ensures
        find_tag(ps, t) < 0,
    decreases ps.len(),
{
    if ps.len() > 0 {
        let rest = ps.drop_first();
        assert(forall|j: int| 0 <= j < rest.len() ==> #[trigger] rest[j] == ps[j + 1]);
        lemma_find_tag_none(rest, t);
    }
}

/// Writes one encoded field onto `out`.
pub fn append_field(out: &mut String, tag: i32, value: &str)
    requires
        tag >= 0,
    ensures
        final(out)@ == old(out)@ + enc_field(tag as int, value@),
{
    out.append(crate::text::u64_to_string(tag as u64).as_str());
    proof {
        reveal_strlit("=");
    }
    out.append("=");
    out.append(value);
    crate::text::push_char(out, '\u{1}');
    proof {
        assert(out@ =~= old(out)@ + enc_field(tag as int, value@));
    }
}

/// The sum of the character codes of `s`.
pub open spec fn char_sum(s: Seq<char>) -> int
    decreases s.len(),
{
    if s.len() == 0 {
        0
    } else {
        char_sum(s.drop_last()) + s.last() as int
    }
}

/// Whether `frame` ends with a well-formed checksum trailer carrying the
/// true checksum, exactly as `spec_trailer_ok` states.
pub fn verify_frame_checksum(frame: &str) -> (r: bool)
    ensures
        r == spec_trailer_ok(frame@),
{
    let len: usize = frame.unicode_len();
    if len < 7 {
        return false;
    }
    if frame.get_char(len - 7) != '1' || frame.get_char(len - 6) != '0' || frame.get_char(len - 5)
        != '=' || frame.get_char(len - 1) != '\u{1}' {
        return false;
    }
    let declared = match crate::text::parse_u32_range(frame, len - 4, len - 1) {
        Some(v) => v,
        None => {
            proof {
                let d = frame@.subrange(len - 4, len - 1);
                if crate::text::is_digit_seq(d) {
                    crate::text::lemma_val_of_digits_bound(d);
                    assert(crate::text::pow10(3) == 1000) by {
                        reveal_with_fuel(crate::text::pow10, 5);
                    }
                }
                assert(!crate::text::is_digit_seq(d));
                assert(!(is_digit(frame@[len - 4]) && is_digit(frame@[len - 3]) && is_digit(
                    frame@[len - 2],
                ))) by {
                    if is_digit(frame@[len - 4]) && is_digit(frame@[len - 3]) && is_digit(
                        frame@[len - 2],
                    ) {
                        assert forall|i: int| 0 <= i < d.len() implies crate::text::is_digit(
                            d[i],
                        ) by {
                            assert(d[i] == frame@[len - 4 + i]);
                        }
                    }
                }
            }
            return false;
        },
    };
    let prefix = frame.substring_char(0, len - 7);
    let actual = calculate_checksum(prefix);
    proof {
        assert(prefix@ =~= frame@.take(frame@.len() - 7));
        let d = frame@.subrange(len - 4, len - 1);
        assert(is_digit(frame@[len - 4]) && is_digit(frame@[len - 3]) && is_digit(
            frame@[len - 2],
        )) by {
            assert(d[0] == frame@[len - 4]);
            assert(d[1] == frame@[len - 3]);
            assert(d[2] == frame@[len - 2]);
        }
    }
    declared == actual
}

/// The checksum of `s`: its character-code sum mod 256.
pub open spec fn checksum_of(s: Seq<char>) -> int {
    char_sum(s) % 256
}

/// A complete frame for a message: `8=` first, the zero-padded body length
/// second, `35=` opening the body, then the body fields with their groups,
/// and the three-digit checksum trailer last.
pub open spec fn spec_serialize(
    begin: Seq<char>,
    mt: Seq<char>,
    body_fields: Seq<(int, Seq<char>)>,
    groups: Map<int, GroupModel>,
) -> Seq<char> {
    let body = enc_field(35, mt) + enc_body(body_fields, groups);
    let pre = enc_field(8, begin) + enc_field(9, padded_digits_of(body.len(), 4)) + body;
    pre + enc_field(10, padded_digits_of(checksum_of(pre) as nat, 3))
}

/// The prefix of a serialized frame that the checksum is computed over:
/// everything up to and including the delimiter before `10=`.
pub open spec fn spec_serialize_pre(
    begin: Seq<char>,
    mt: Seq<char>,
    body_fields: Seq<(int, Seq<char>)>,
    groups: Map<int, GroupModel>,
) -> Seq<char> {
    let body = enc_field(35, mt) + enc_body(body_fields, groups);
    enc_field(8, begin) + enc_field(9, padded_digits_of(body.len(), 4)) + body
}

// ---------------------------------------------------------------------------
// The parse model.
// ---------------------------------------------------------------------------

/// The pieces of `s` between delimiters; the final piece (after the last
/// delimiter, possibly empty) is always present.
pub open spec fn split_soh(s: Seq<char>) -> Seq<Seq<char>>
    decreases s.len(),
{
    if s.len() == 0 {
        seq![Seq::empty()]
    } else if s[0] == soh() {
        seq![Seq::<char>::empty()] + split_soh(s.drop_first())
    } else {
        let r = split_soh(s.drop_first());
        seq![seq![s[0]] + r[0]] + r.drop_first()
    }
}

/// Reading one piece as `tag=value`, splitting at the first `=`; the tag must
/// be a positive decimal integer within `i32`.
pub open spec fn parse_piece(p: Seq<char>) -> Option<(int, Seq<char>)> {
    let e = spec_find(p, '=');
    if e < 0 {
        None
    } else {
        let tagpart = p.take(e);
        if tagpart.len() > 0 && is_digit_seq(tagpart) && 1 <= val_of_digits(tagpart)
            && val_of_digits(tagpart) <= i32::MAX as int {
            Some((val_of_digits(tagpart), p.skip(e + 1)))
        } else {
            None
        }
    }
}

/// The state accumulated while reading a frame's pieces.
pub ghost struct ParseAcc {
    /// Field values by tag, later occurrences overriding earlier ones; the
    /// codec-owned tags 9 and 10 are not recorded.
    pub fields: Map<int, Seq<char>>,
    /// The last value seen for tag 35.
    pub msg_type: Option<Seq<char>>,
    /// Whether a tag 8 piece was seen.
    pub has_begin: bool,
    /// The last raw value seen for the entry-count tag 268.
    pub md_expected: Option<Seq<char>>,
    /// How many tag 269 pieces were seen.
    pub md_count: int,
    /// Whether a tag 10 piece was seen; if so the frame's trailer must
    /// carry the true checksum.
    pub has_checksum: bool,
    /// The market-data entries folded so far: one per tag 269 piece seen
    /// inside the group, each carrying its member fields.
    pub md_entries: Seq<Seq<(int, Seq<char>)>>,
    /// Whether the reader stands inside the entry group: after the counter
    /// tag, until a tag outside the entry set appears.
    pub in_group: bool,
}

pub open spec fn acc_init() -> ParseAcc {
    ParseAcc {
        fields: Map::empty(),
        msg_type: None,
        has_begin: false,
        md_expected: None,
        md_count: 0,
        has_checksum: false,
        md_entries: Seq::empty(),
        in_group: false,
    }
}

pub open spec fn acc_step(acc: ParseAcc, t: int, v: Seq<char>) -> ParseAcc {
    ParseAcc {
        fields: if t == 9 || t == 10 {
            acc.fields
        } else if t == 269 && acc.in_group {
            acc.fields
        } else if (t == 270 || t == 271) && acc.in_group && acc.md_entries.len() > 0 {
            acc.fields
        } else {
            acc.fields.insert(t, v)
        },
        msg_type: if t == 35 {
            Some(v)
        } else {
            acc.msg_type
        },
        has_begin: acc.has_begin || t == 8,
        md_expected: if t == 268 {
            Some(v)
        } else {
            acc.md_expected
        },
        md_count: if t == 269 {
            acc.md_count + 1
        } else {
            acc.md_count
        },
        has_checksum: acc.has_checksum || t == 10,
        md_entries: if t == 269 && acc.in_group {
            acc.md_entries.push(seq![(269int, v)])
        } else if (t == 270 || t == 271) && acc.in_group && acc.md_entries.len() > 0 {
            acc.md_entries.update(
                acc.md_entries.len() - 1,
                sorted_insert(acc.md_entries.last(), t, v),
            )
        } else {
            acc.md_entries
        },
        in_group: t == 268 || (acc.in_group && (t == 269 || t == 270 || t == 271)),
    }
}

/// Reading a list of pieces: empty pieces are skipped, a malformed piece
/// fails the whole read.
pub open spec fn fold_pieces(acc: ParseAcc, ps: Seq<Seq<char>>) -> Option<ParseAcc>
    decreases ps.len(),
{
    if ps.len() == 0 {
        Some(acc)
    } else if ps[0].len() == 0 {
        fold_pieces(acc, ps.drop_first())
    } else {
        match parse_piece(ps[0]) {
            None => None,
            Some((t, v)) => fold_pieces(acc_step(acc, t, v), ps.drop_first()),
        }
    }
}

/// Replacing the pair at `i` with a same-tag pair updates the denoted map at
/// that tag alone.
pub proof fn lemma_map_of_pairs_update<V>(ops: Seq<(int, V)>, i: int, t: int, v: V)
    requires
        0 <= i < ops.len(),
        ops[i].0 == t,
        forall|a: int, b: int| 0 <= a < b < ops.len() ==> (#[trigger] ops[a]).0 != (
        #[trigger] ops[b]).0,
    ensures
        forall|a: int, b: int|
            0 <= a < b < ops.update(i, (t, v)).len() ==> (#[trigger] ops.update(i, (t, v))[a]).0
                != (#[trigger] ops.update(i, (t, v))[b]).0,
        map_of_pairs(ops.update(i, (t, v))) == map_of_pairs(ops).insert(t, v),
{
    let nps = ops.update(i, (t, v));
    assert forall|a: int, b: int| 0 <= a < b < nps.len() implies (#[trigger] nps[a]).0 != (
    #[trigger] nps[b]).0 by {
        assert(nps[a].0 == ops[a].0);
        assert(nps[b].0 == ops[b].0);
        assert(ops[a].0 != ops[b].0);
    }
    lemma_insert_pairs_props(Map::empty(), ops);
    lemma_insert_pairs_props(Map::empty(), nps);
    assert forall|x: int| true implies #[trigger] map_of_pairs(nps).contains_key(x)
        == map_of_pairs(ops).insert(t, v).contains_key(x) by {
        if map_of_pairs(nps).contains_key(x) {
            let k = choose|k: int| 0 <= k < nps.len() && (#[trigger] nps[k]).0 == x;
            if k != i {
                assert(nps[k] == ops[k]);
            }
        }
        if map_of_pairs(ops).insert(t, v).contains_key(x) {
            if x == t {
                assert(nps[i].0 == t);
            } else {
                let k = choose|k: int| 0 <= k < ops.len() && (#[trigger] ops[k]).0 == x;
                assert(k != i);
                assert(nps[k] == ops[k]);
            }
        }
    }
    assert forall|x: int| #[trigger] map_of_pairs(nps).contains_key(x) implies map_of_pairs(
        nps,
    )[x] == map_of_pairs(ops).insert(t, v)[x] by {
        let k = choose|k: int| 0 <= k < nps.len() && (#[trigger] nps[k]).0 == x;
        assert(map_of_pairs(nps)[nps[k].0] == nps[k].1);
        if k == i {
            assert(x == t);
        } else {
            assert(nps[k] == ops[k]);
            assert(x != t) by {
                if x == t {
                    if k < i {
                        assert(ops[k].0 != ops[i].0);
                    } else {
                        assert(ops[i].0 != ops[k].0);
                    }
                }
            }
            assert(map_of_pairs(ops)[ops[k].0] == ops[k].1);
        }
    }
    assert(map_of_pairs(nps) =~= map_of_pairs(ops).insert(t, v));
}

/// Appending a fresh-tag pair inserts it into the denoted map.
pub proof fn lemma_map_of_pairs_push<V>(ops: Seq<(int, V)>, t: int, v: V)
    requires
        forall|a: int, b: int| 0 <= a < b < ops.len() ==> (#[trigger] ops[a]).0 != (
        #[trigger] ops[b]).0,
        forall|k: int| 0 <= k < ops.len() ==> (#[trigger] ops[k]).0 != t,
    ensures
        forall|a: int, b: int|
            0 <= a < b < ops.push((t, v)).len() ==> (#[trigger] ops.push((t, v))[a]).0 != (
            #[trigger] ops.push((t, v))[b]).0,
        map_of_pairs(ops.push((t, v))) == map_of_pairs(ops).insert(t, v),
{
    let nps = ops.push((t, v));
    assert forall|a: int, b: int| 0 <= a < b < nps.len() implies (#[trigger] nps[a]).0 != (
    #[trigger] nps[b]).0 by {
        if b == nps.len() - 1 {
            assert(nps[a] == ops[a]);
            assert(ops[a].0 != t);
        } else {
            assert(nps[a] == ops[a]);
            assert(nps[b] == ops[b]);
            assert(ops[a].0 != ops[b].0);
        }
    }
    lemma_insert_pairs_props(Map::empty(), ops);
    lemma_insert_pairs_props(Map::empty(), nps);
    assert forall|x: int| true implies #[trigger] map_of_pairs(nps).contains_key(x)
        == map_of_pairs(ops).insert(t, v).contains_key(x) by {
        if map_of_pairs(nps).contains_key(x) {
            let k = choose|k: int| 0 <= k < nps.len() && (#[trigger] nps[k]).0 == x;
            if k < nps.len() - 1 {
                assert(nps[k] == ops[k]);
            } else {
                assert(nps[k] == (t, v));
            }
        }
        if map_of_pairs(ops).insert(t, v).contains_key(x) {
            if x == t {
                assert(nps[nps.len() - 1].0 == t);
            } else {
                let k = choose|k: int| 0 <= k < ops.len() && (#[trigger] ops[k]).0 == x;
                assert(nps[k] == ops[k]);
            }
        }
    }
    assert forall|x: int| #[trigger] map_of_pairs(nps).contains_key(x) implies map_of_pairs(
        nps,
    )[x] == map_of_pairs(ops).insert(t, v)[x] by {
        let k = choose|k: int| 0 <= k < nps.len() && (#[trigger] nps[k]).0 == x;
        assert(map_of_pairs(nps)[nps[k].0] == nps[k].1);
        if k == nps.len() - 1 {
            assert(x == t);
        } else {
            assert(nps[k] == ops[k]);
            assert(x != t);
            assert(map_of_pairs(ops)[ops[k].0] == ops[k].1);
        }
    }
    assert(map_of_pairs(nps) =~= map_of_pairs(ops).insert(t, v));
}

/// Folding one well-formed piece performs one step.
pub proof fn lemma_fold_single_ok(acc: ParseAcc, piece: Seq<char>, t: int, v: Seq<char>)
    requires
        piece.len() > 0,
        parse_piece(piece) == Some((t, v)),
    ensures
        fold_pieces(acc, seq![piece]) == Some(acc_step(acc, t, v)),
{
    assert(seq![piece][0] == piece);
    assert(fold_pieces(acc, seq![piece]) == fold_pieces(
        acc_step(acc, t, v),
        seq![piece].drop_first(),
    ));
    assert(seq![piece].drop_first() =~= Seq::<Seq<char>>::empty());
}

/// Folding one empty piece changes nothing.
pub proof fn lemma_fold_single_empty(acc: ParseAcc, piece: Seq<char>)
    requires
        piece.len() == 0,
    ensures
        fold_pieces(acc, seq![piece]) == Some(acc),
{
    assert(seq![piece][0] == piece);
    assert(fold_pieces(acc, seq![piece]) == fold_pieces(acc, seq![piece].drop_first()));
    assert(seq![piece].drop_first() =~= Seq::<Seq<char>>::empty());
}

/// The declared entry count, where one was declared with an integer value,
/// must match the number of entry-opening pieces.
pub open spec fn md_ok(acc: ParseAcc) -> bool {
    match acc.md_expected {
        None => true,
        Some(v) => match spec_parse_i32(v) {
            None => true,
            Some(n) => acc.md_count == n,
        },
    }
}

/// The frame ends with a well-formed checksum trailer: `10=` then three
/// digits and the delimiter, the digits reading back as the mod-256
/// character sum of everything before the trailer.
pub open spec fn spec_trailer_ok(s: Seq<char>) -> bool {
    &&& s.len() >= 7
    &&& s[s.len() - 7] == '1' && s[s.len() - 6] == '0' && s[s.len() - 5] == '='
    &&& is_digit(s[s.len() - 4]) && is_digit(s[s.len() - 3]) && is_digit(s[s.len() - 2])
    &&& s[s.len() - 1] == soh()
    &&& val_of_digits(s.subrange(s.len() - 4, s.len() - 1)) == checksum_of(s.take(s.len() - 7))
}

/// The outcome of parsing a frame: the message type, the field map and the
/// folded entry group, or nothing when the frame is rejected. A frame that
/// declares a checksum must end with a trailer carrying the true one.
pub open spec fn spec_parse(s: Seq<char>) -> Option<
    (Seq<char>, Map<int, Seq<char>>, Map<int, GroupModel>),
> {
    match fold_pieces(acc_init(), split_soh(s)) {
        None => None,
        Some(acc) => if acc.has_begin && acc.msg_type is Some && md_ok(acc) && (acc.has_checksum
            ==> spec_trailer_ok(s)) {
            Some(
                (
                    acc.msg_type->0,
                    acc.fields,
                    if acc.md_expected is Some {
                        Map::empty().insert(
                            268,
                            GroupModel { delim: 269, entries: acc.md_entries },
                        )
                    } else {
                        Map::empty()
                    },
                ),
            )
        } else {
            None
        },
    }
}

// ---------------------------------------------------------------------------
// Executable checksum.
// ---------------------------------------------------------------------------

/// The mod-256 sum of the character codes of `msg`.
pub fn calculate_checksum(msg: &str) -> (r: u32)
    ensures
        r as int == checksum_of(msg@),
        r < 256,
{
    let len: usize = msg.unicode_len();
    let mut acc: u32 = 0;
    let mut i: usize = 0;
    while i < len
        invariant
            0 <= i <= len,
            len == msg@.len(),
            acc as int == char_sum(msg@.take(i as int)) % 256,
            acc < 256,
        decreases len - i,
    {
        let c = msg.get_char(i);
        proof {
            let pre = msg@.take(i as int);
            let nxt = msg@.take(i + 1 as int);
            assert(nxt.drop_last() =~= pre);
            assert(nxt.last() == c);
            vstd::arithmetic::div_mod::lemma_add_mod_noop(char_sum(pre), c as int, 256);
            assert(char_sum(pre) % 256 % 256 == char_sum(pre) % 256) by {
                vstd::arithmetic::div_mod::lemma_mod_twice(char_sum(pre), 256);
            }
            assert((c as int) % 256 <= c as int) by {
                vstd::arithmetic::div_mod::lemma_mod_decreases((c as int) as nat, 256);
            }
        }
        let cv: u32 = c as u32;
        acc = (acc + cv % 256) % 256;
        i = i + 1;
    }
    proof {
        assert(msg@.take(len as int) =~= msg@);
    }
    acc
}

// ---------------------------------------------------------------------------
// The round trip: parsing a serialized frame recovers the message.
// ---------------------------------------------------------------------------

/// One field's piece as it stands between delimiters.
pub open spec fn piece_of(t: int, v: Seq<char>) -> Seq<char>
    recommends
        t >= 0,
{
    dec_digits_of(t as nat) + seq!['='] + v
}

/// The pieces of a field list, in order.
pub open spec fn pieces_of_pairs(ps: Seq<(int, Seq<char>)>) -> Seq<Seq<char>> {
    Seq::new(ps.len(), |i: int| piece_of(ps[i].0, ps[i].1))
}

/// Folding `acc_step` over a list of (tag, value) pairs.
pub open spec fn fold_pairs(acc: ParseAcc, ps: Seq<(int, Seq<char>)>) -> ParseAcc
    decreases ps.len(),
{
    if ps.len() == 0 {
        acc
    } else {
        fold_pairs(acc_step(acc, ps[0].0, ps[0].1), ps.drop_first())
    }
}

/// Inserting a list of pairs into a map, in order.
pub open spec fn insert_pairs<V>(m: Map<int, V>, ps: Seq<(int, V)>) -> Map<int, V>
    decreases ps.len(),
{
    if ps.len() == 0 {
        m
    } else {
        insert_pairs(m.insert(ps[0].0, ps[0].1), ps.drop_first())
    }
}

/// The map a pair list denotes.
pub open spec fn map_of_pairs<V>(ps: Seq<(int, V)>) -> Map<int, V> {
    insert_pairs(Map::empty(), ps)
}

/// What `insert_pairs` holds, for a list with distinct tags: membership and
/// lookups over the base map and the list.
pub proof fn lemma_insert_pairs_props<V>(m: Map<int, V>, ps: Seq<(int, V)>)
    requires
        forall|i: int, j: int| 0 <= i < j < ps.len() ==> (#[trigger] ps[i]).0 != (#[trigger] ps[j]).0,
    ensures
        forall|t: int|
            #[trigger] insert_pairs(m, ps).contains_key(t) == (m.contains_key(t) || exists|i: int|
                0 <= i < ps.len() && (#[trigger] ps[i]).0 == t),
        forall|i: int|
            0 <= i < ps.len() ==> insert_pairs(m, ps)[(#[trigger] ps[i]).0] == ps[i].1,
        forall|t: int|
            m.contains_key(t) && !(exists|i: int| 0 <= i < ps.len() && (#[trigger] ps[i]).0 == t)
                ==> #[trigger] insert_pairs(m, ps)[t] == m[t],
    decreases ps.len(),
{
    if ps.len() > 0 {
        let rest = ps.drop_first();
        assert forall|i: int| 0 <= i < rest.len() implies #[trigger] rest[i] == ps[i + 1] by {
            assert(rest[i] == ps[i + 1]);
        }
        assert forall|i: int, j: int| 0 <= i < j < rest.len() implies (#[trigger] rest[i]).0 != (
        #[trigger] rest[j]).0 by {
            assert(rest[i] == ps[i + 1]);
            assert(rest[j] == ps[j + 1]);
            assert(ps[i + 1].0 != ps[j + 1].0);
        }
        let m2 = m.insert(ps[0].0, ps[0].1);
        lemma_insert_pairs_props(m2, rest);
        assert(insert_pairs(m, ps) == insert_pairs(m2, rest));
        assert forall|i: int| 0 <= i < ps.len() implies insert_pairs(m, ps)[(#[trigger] ps[i]).0]
            == ps[i].1 by {
            if i == 0 {
                assert forall|k: int| 0 <= k < rest.len() implies (#[trigger] rest[k]).0
                    != ps[0].0 by {
                    assert(rest[k] == ps[k + 1]);
                    assert(ps[0].0 != ps[k + 1].0);
                }
                assert(m2.contains_key(ps[0].0));
                assert(insert_pairs(m2, rest)[ps[0].0] == m2[ps[0].0]);
            } else {
                assert(rest[i - 1] == ps[i]);
                assert(insert_pairs(m2, rest)[rest[i - 1].0] == rest[i - 1].1);
            }
        }
        assert forall|t: int| #[trigger] insert_pairs(m, ps).contains_key(t) == (m.contains_key(t)
            || exists|i: int| 0 <= i < ps.len() && (#[trigger] ps[i]).0 == t) by {
            assert(insert_pairs(m2, rest).contains_key(t) == (m2.contains_key(t) || exists|k: int|
                0 <= k < rest.len() && (#[trigger] rest[k]).0 == t));
            if insert_pairs(m, ps).contains_key(t) {
                if !m.contains_key(t) && ps[0].0 != t {
                    let k = choose|k: int| 0 <= k < rest.len() && (#[trigger] rest[k]).0 == t;
                    assert(rest[k] == ps[k + 1]);
                    assert(ps[k + 1].0 == t);
                }
            } else {
                if exists|i: int| 0 <= i < ps.len() && (#[trigger] ps[i]).0 == t {
                    let i = choose|i: int| 0 <= i < ps.len() && (#[trigger] ps[i]).0 == t;
                    if i > 0 {
                        assert(rest[i - 1] == ps[i]);
                        assert(rest[i - 1].0 == t);
                    }
                }
            }
        }
        assert forall|t: int|
            m.contains_key(t) && !(exists|i: int| 0 <= i < ps.len() && (#[trigger] ps[i]).0 == t)
                implies #[trigger] insert_pairs(m, ps)[t] == m[t] by {
            assert(ps[0].0 != t);
            assert forall|k: int| 0 <= k < rest.len() implies (#[trigger] rest[k]).0 != t by {
                assert(rest[k] == ps[k + 1]);
            }
            assert(m2.contains_key(t));
            assert(insert_pairs(m2, rest)[t] == m2[t]);
        }
    }
}

pub proof fn lemma_enc_fields_append(a: Seq<(int, Seq<char>)>, b: Seq<(int, Seq<char>)>)
    ensures
        enc_fields(a + b) == enc_fields(a) + enc_fields(b),
    decreases a.len(),
{
    if a.len() == 0 {
        assert(a + b =~= b);
        assert(enc_fields(a) + enc_fields(b) =~= enc_fields(b));
    } else {
        lemma_enc_fields_append(a.drop_first(), b);
        assert((a + b).drop_first() =~= a.drop_first() + b);
        assert((a + b)[0] == a[0]);
        assert(enc_field(a[0].0, a[0].1) + (enc_fields(a.drop_first()) + enc_fields(b))
            =~= (enc_field(a[0].0, a[0].1) + enc_fields(a.drop_first())) + enc_fields(b));
    }
}

pub proof fn lemma_enc_body_append(
    a: Seq<(int, Seq<char>)>,
    b: Seq<(int, Seq<char>)>,
    groups: Map<int, GroupModel>,
)
    ensures
        enc_body(a + b, groups) == enc_body(a, groups) + enc_body(b, groups),
    decreases a.len(),
{
    if a.len() == 0 {
        assert(a + b =~= b);
        assert(enc_body(a, groups) + enc_body(b, groups) =~= enc_body(b, groups));
    } else {
        lemma_enc_body_append(a.drop_first(), b, groups);
        assert((a + b)[0] == a[0]);
        assert((a + b).drop_first() =~= a.drop_first() + b);
        let head = enc_field(a[0].0, a[0].1) + (if groups.contains_key(a[0].0) {
            enc_entries(groups[a[0].0].delim, groups[a[0].0].entries)
        } else {
            Seq::<char>::empty()
        });
        assert(head + (enc_body(a.drop_first(), groups) + enc_body(b, groups)) =~= (head
            + enc_body(a.drop_first(), groups)) + enc_body(b, groups));
        assert(enc_body(a + b, groups) =~= enc_body(a, groups) + enc_body(b, groups));
    }
}

pub proof fn lemma_enc_body_singleton(p: (int, Seq<char>), groups: Map<int, GroupModel>)
    ensures
        enc_body(seq![p], groups) == enc_field(p.0, p.1) + (if groups.contains_key(p.0) {
            enc_entries(groups[p.0].delim, groups[p.0].entries)
        } else {
            Seq::<char>::empty()
        }),
{
    assert(seq![p][0] == p);
    assert(seq![p].drop_first() =~= Seq::<(int, Seq<char>)>::empty());
    assert(enc_body(Seq::<(int, Seq<char>)>::empty(), groups) == Seq::<char>::empty());
    let head = enc_field(p.0, p.1) + (if groups.contains_key(p.0) {
        enc_entries(groups[p.0].delim, groups[p.0].entries)
    } else {
        Seq::<char>::empty()
    });
    assert(enc_body(seq![p], groups) == head + Seq::<char>::empty());
    assert(head + Seq::<char>::empty() =~= head);
}

/// With no groups keyed by any tag, the body encoding is the plain field
/// encoding.
pub proof fn lemma_enc_body_no_groups(ps: Seq<(int, Seq<char>)>, groups: Map<int, GroupModel>)
    requires
        forall|i: int| 0 <= i < ps.len() ==> !groups.contains_key(#[trigger] ps[i].0),
    ensures
        enc_body(ps, groups) == enc_fields(ps),
    decreases ps.len(),
{
    if ps.len() > 0 {
        assert(forall|i: int|
            0 <= i < ps.drop_first().len() ==> #[trigger] ps.drop_first()[i] == ps[i + 1]);
        lemma_enc_body_no_groups(ps.drop_first(), groups);
        assert(enc_field(ps[0].0, ps[0].1) + Seq::<char>::empty() + enc_fields(ps.drop_first())
            =~= enc_field(ps[0].0, ps[0].1) + enc_fields(ps.drop_first()));
    }
}

/// Splitting a delimiter-free piece followed by a delimiter peels off that
/// piece.
pub proof fn lemma_split_prepend_piece(p: Seq<char>, rest: Seq<char>)
    requires
        forall|i: int| 0 <= i < p.len() ==> p[i] != soh(),
    ensures
        split_soh(p + seq![soh()] + rest) == seq![p] + split_soh(rest),
    decreases p.len(),
{
    let s = p + seq![soh()] + rest;
    if p.len() == 0 {
        assert(s[0] == soh());
        assert(s.drop_first() =~= rest);
        assert(split_soh(s) == seq![Seq::<char>::empty()] + split_soh(rest));
        assert(p =~= Seq::<char>::empty());
        assert(seq![Seq::<char>::empty()] + split_soh(rest) == seq![p] + split_soh(rest));
    } else {
        assert(s[0] == p[0]);
        assert(s[0] != soh());
        assert(forall|i: int|
            0 <= i < p.len() - 1 ==> #[trigger] p.drop_first()[i] == p[i + 1]);
        lemma_split_prepend_piece(p.drop_first(), rest);
        assert(s.drop_first() =~= p.drop_first() + seq![soh()] + rest);
        let r = split_soh(s.drop_first());
        assert(r == seq![p.drop_first()] + split_soh(rest));
        assert(r[0] == p.drop_first());
        assert(seq![s[0]] + r[0] =~= p);
        assert(r.drop_first() =~= split_soh(rest));
        assert(split_soh(s) == seq![seq![s[0]] + r[0]] + r.drop_first());
        assert(seq![seq![s[0]] + r[0]] + r.drop_first() =~= seq![p] + split_soh(rest));
    }
}

/// A well-formed piece holds no delimiter character.
pub proof fn lemma_piece_no_soh(t: int, v: Seq<char>)
    requires
        wf_tag(t),
        wf_value(v),
    ensures
        forall|i: int| 0 <= i < piece_of(t, v).len() ==> #[trigger] piece_of(t, v)[i] != soh(),
{
    crate::text::lemma_dec_digits_wf(t as nat);
    let d = dec_digits_of(t as nat);
    let p = piece_of(t, v);
    assert forall|i: int| 0 <= i < p.len() implies #[trigger] p[i] != soh() by {
        if i < d.len() {
            assert(p[i] == d[i]);
            assert(is_digit(d[i]));
        } else if i == d.len() {
            assert(p[i] == '=');
        } else {
            assert(p[i] == v[i - d.len() - 1]);
            assert(is_value_char(v[i - d.len() - 1]));
        }
    }
}

/// Splitting the encoding of a field list yields its pieces and one final
/// empty piece.
pub proof fn lemma_split_enc_fields(ps: Seq<(int, Seq<char>)>)
    requires
        forall|i: int| 0 <= i < ps.len() ==> wf_pair(#[trigger] ps[i]),
    ensures
        split_soh(enc_fields(ps)) == pieces_of_pairs(ps) + seq![Seq::<char>::empty()],
    decreases ps.len(),
{
    if ps.len() == 0 {
        assert(enc_fields(ps) =~= Seq::<char>::empty());
        assert(split_soh(Seq::<char>::empty()) == seq![Seq::<char>::empty()]);
        assert(pieces_of_pairs(ps) + seq![Seq::<char>::empty()] =~= seq![Seq::<char>::empty()]);
    } else {
        let t = ps[0].0;
        let v = ps[0].1;
        assert(wf_pair(ps[0]));
        assert(forall|i: int|
            0 <= i < ps.drop_first().len() ==> #[trigger] ps.drop_first()[i] == ps[i + 1]);
        lemma_split_enc_fields(ps.drop_first());
        lemma_piece_no_soh(t, v);
        assert(enc_fields(ps) =~= piece_of(t, v) + seq![soh()] + enc_fields(ps.drop_first()));
        lemma_split_prepend_piece(piece_of(t, v), enc_fields(ps.drop_first()));
        assert(split_soh(enc_fields(ps)) == seq![piece_of(t, v)] + (pieces_of_pairs(
            ps.drop_first(),
        ) + seq![Seq::<char>::empty()]));
        assert(seq![piece_of(t, v)] + (pieces_of_pairs(ps.drop_first()) + seq![
            Seq::<char>::empty(),
        ]) =~= pieces_of_pairs(ps) + seq![Seq::<char>::empty()]);
    }
}

/// A well-formed piece reads back as exactly its tag and value.
pub proof fn lemma_parse_piece_of(t: int, v: Seq<char>)
    requires
        wf_tag(t),
        wf_value(v),
    ensures
        parse_piece(piece_of(t, v)) == Some((t, v)),
        piece_of(t, v).len() > 0,
{
    crate::text::lemma_dec_digits_wf(t as nat);
    crate::text::lemma_val_of_dec_digits(t as nat);
    let d = dec_digits_of(t as nat);
    let p = piece_of(t, v);
    assert(p[d.len() as int] == '=');
    assert forall|j: int| 0 <= j < d.len() implies p[j] != '=' by {
        assert(p[j] == d[j]);
        assert(is_digit(d[j]));
    }
    crate::text::lemma_spec_find_is_first(p, '=', d.len() as int);
    assert(p.take(d.len() as int) =~= d);
    assert(p.skip(d.len() as int + 1) =~= v);
}

pub proof fn lemma_fold_pieces_append(acc: ParseAcc, a: Seq<Seq<char>>, b: Seq<Seq<char>>)
    ensures
        fold_pieces(acc, a + b) == match fold_pieces(acc, a) {
            None => None::<ParseAcc>,
            Some(acc2) => fold_pieces(acc2, b),
        },
    decreases a.len(),
{
    if a.len() == 0 {
        assert(a + b =~= b);
    } else {
        assert((a + b)[0] == a[0]);
        assert((a + b).drop_first() =~= a.drop_first() + b);
        if a[0].len() == 0 {
            lemma_fold_pieces_append(acc, a.drop_first(), b);
        } else {
            match parse_piece(a[0]) {
                None => {},
                Some((t, v)) => {
                    lemma_fold_pieces_append(acc_step(acc, t, v), a.drop_first(), b);
                },
            }
        }
    }
}

/// Folding the pieces of a well-formed field list performs exactly the
/// corresponding `acc_step`s.
pub proof fn lemma_fold_pieces_of_pairs(acc: ParseAcc, ps: Seq<(int, Seq<char>)>)
    requires
        forall|i: int| 0 <= i < ps.len() ==> wf_pair(#[trigger] ps[i]),
    ensures
        fold_pieces(acc, pieces_of_pairs(ps)) == Some(fold_pairs(acc, ps)),
    decreases ps.len(),
{
    if ps.len() > 0 {
        let t = ps[0].0;
        let v = ps[0].1;
        lemma_parse_piece_of(t, v);
        assert(pieces_of_pairs(ps)[0] == piece_of(t, v));
        assert(pieces_of_pairs(ps).drop_first() =~= pieces_of_pairs(ps.drop_first()));
        assert(forall|i: int|
            0 <= i < ps.drop_first().len() ==> #[trigger] ps.drop_first()[i] == ps[i + 1]);
        lemma_fold_pieces_of_pairs(acc_step(acc, t, v), ps.drop_first());
    }
}

/// Folding pairs whose tags avoid the header- and group-count tags only
/// inserts fields.
pub proof fn lemma_fold_pairs_plain(acc: ParseAcc, ps: Seq<(int, Seq<char>)>)
    requires
        forall|i: int| 0 <= i < ps.len() ==> {
            let t = (#[trigger] ps[i]).0;
            t != 8 && t != 9 && t != 10 && t != 35 && t != 268 && t != 269 && t != 270 && t != 271
        },
    ensures
        fold_pairs(acc, ps).fields == insert_pairs(acc.fields, ps),
        fold_pairs(acc, ps).msg_type == acc.msg_type,
        fold_pairs(acc, ps).has_begin == acc.has_begin,
        fold_pairs(acc, ps).md_expected == acc.md_expected,
        fold_pairs(acc, ps).has_checksum == acc.has_checksum,
        fold_pairs(acc, ps).md_entries == acc.md_entries,
    decreases ps.len(),
{
    if ps.len() > 0 {
        assert(forall|i: int|
            0 <= i < ps.drop_first().len() ==> #[trigger] ps.drop_first()[i] == ps[i + 1]);
        lemma_fold_pairs_plain(acc_step(acc, ps[0].0, ps[0].1), ps.drop_first());
    }
}

/// The full round trip at the wire level: a frame serialized from a
/// well-formed begin-string, message type and body-field list — with no
/// groups and no entry-count field — parses back to exactly that message
/// type and the field map holding the begin-string, the message type and the
/// body fields.
pub proof fn lemma_parse_of_serialize(
    begin: Seq<char>,
    mt: Seq<char>,
    body: Seq<(int, Seq<char>)>,
)
    requires
        wf_value(begin),
        wf_value(mt),
        forall|i: int| 0 <= i < body.len() ==> wf_pair(#[trigger] body[i]),
        forall|i: int| 0 <= i < body.len() ==> {
            let t = (#[trigger] body[i]).0;
            t != 8 && t != 9 && t != 10 && t != 35 && t != 268 && t != 269 && t != 270 && t != 271
        },
    ensures
        spec_parse(spec_serialize(begin, mt, body, Map::empty())) == Some(
            (
                mt,
                insert_pairs(Map::empty().insert(8, begin).insert(35, mt), body),
                Map::<int, GroupModel>::empty(),
            ),
        ),
{
    let groups = Map::<int, GroupModel>::empty();
    let body_enc = enc_field(35, mt) + enc_body(body, groups);
    let blen_digits = padded_digits_of(body_enc.len(), 4);
    let pre = enc_field(8, begin) + enc_field(9, blen_digits) + body_enc;
    let cs_digits = padded_digits_of(checksum_of(pre) as nat, 3);
    let frame = spec_serialize(begin, mt, body, groups);

    lemma_enc_body_no_groups(body, groups);

    // The whole frame is the encoding of one combined pair list.
    let all_pairs = seq![(8int, begin), (9int, blen_digits), (35int, mt)] + body + seq![
        (10int, cs_digits),
    ];
    assert(enc_fields(seq![(10int, cs_digits)]) =~= enc_field(10, cs_digits)) by {
        assert(seq![(10int, cs_digits)][0] == (10int, cs_digits));
        assert(seq![(10int, cs_digits)].drop_first() =~= Seq::<(int, Seq<char>)>::empty());
        assert(enc_fields(seq![(10int, cs_digits)]) == enc_field(10, cs_digits) + enc_fields(
            Seq::<(int, Seq<char>)>::empty(),
        ));
        assert(enc_field(10, cs_digits) + Seq::<char>::empty() =~= enc_field(10, cs_digits));
    }
    let head3 = seq![(8int, begin), (9int, blen_digits), (35int, mt)];
    assert(enc_fields(head3) =~= enc_field(8, begin) + enc_field(9, blen_digits) + enc_field(
        35,
        mt,
    )) by {
        let h1 = head3.drop_first();
        let h2 = h1.drop_first();
        assert(head3[0] == (8int, begin));
        assert(h1[0] == (9int, blen_digits));
        assert(h2[0] == (35int, mt));
        assert(h2.drop_first() =~= Seq::<(int, Seq<char>)>::empty());
        assert(enc_fields(h2) == enc_field(35, mt) + enc_fields(Seq::<(int, Seq<char>)>::empty()));
        assert(enc_fields(h2) =~= enc_field(35, mt));
        assert(enc_fields(h1) == enc_field(9, blen_digits) + enc_fields(h2));
        assert(enc_fields(head3) == enc_field(8, begin) + enc_fields(h1));
    }
    lemma_enc_fields_append(head3 + body, seq![(10int, cs_digits)]);
    lemma_enc_fields_append(head3, body);
    assert((head3 + body) + seq![(10int, cs_digits)] =~= all_pairs);
    assert(enc_fields(all_pairs) =~= frame);

    // Well-formedness of every pair in the combined list.
    crate::text::lemma_val_of_padded_digits(body_enc.len(), 4);
    crate::text::lemma_val_of_padded_digits(checksum_of(pre) as nat, 3);
    assert(wf_value(blen_digits)) by {
        assert(forall|i: int| 0 <= i < blen_digits.len() ==> is_digit(#[trigger] blen_digits[i]));
    }
    assert(wf_value(cs_digits)) by {
        assert(forall|i: int| 0 <= i < cs_digits.len() ==> is_digit(#[trigger] cs_digits[i]));
    }
    assert(forall|i: int| 0 <= i < all_pairs.len() ==> wf_pair(#[trigger] all_pairs[i])) by {
        assert(all_pairs[0] == (8int, begin));
        assert(all_pairs[1] == (9int, blen_digits));
        assert(all_pairs[2] == (35int, mt));
        assert(all_pairs[all_pairs.len() - 1] == (10int, cs_digits));
        assert(forall|i: int|
            3 <= i < all_pairs.len() - 1 ==> #[trigger] all_pairs[i] == body[i - 3]);
    }

    // Split and fold the frame's pieces.
    lemma_split_enc_fields(all_pairs);
    lemma_fold_pieces_append(
        acc_init(),
        pieces_of_pairs(all_pairs),
        seq![Seq::<char>::empty()],
    );
    lemma_fold_pieces_of_pairs(acc_init(), all_pairs);
    assert(pieces_of_pairs(all_pairs) + seq![Seq::<char>::empty()] == split_soh(frame));
    let folded = fold_pairs(acc_init(), all_pairs);
    assert(fold_pieces(acc_init(), split_soh(frame)) == Some(folded)) by {
        assert(fold_pieces(folded, seq![Seq::<char>::empty()]) == Some(folded)) by {
            let one = seq![Seq::<char>::empty()];
            assert(one[0].len() == 0);
            assert(one.drop_first() =~= Seq::<Seq<char>>::empty());
            assert(fold_pieces(folded, one) == fold_pieces(folded, one.drop_first()));
        }
    }

    // Walk the fold: the three header pairs, the body, the trailer.
    let acc1 = acc_step(acc_init(), 8, begin);
    let acc2 = acc_step(acc1, 9, blen_digits);
    let acc3 = acc_step(acc2, 35, mt);
    assert(fold_pairs(acc_init(), all_pairs) == fold_pairs(acc3, body + seq![(10int, cs_digits)]))
        by {
        let a1 = all_pairs.drop_first();
        let a2 = a1.drop_first();
        let a3 = a2.drop_first();
        assert(all_pairs[0] == (8int, begin));
        assert(a1[0] == all_pairs[1]);
        assert(a2[0] == a1[1]);
        assert(a1[1] == all_pairs[2]);
        assert(all_pairs[1] == (9int, blen_digits));
        assert(all_pairs[2] == (35int, mt));
        assert(a3 =~= body + seq![(10int, cs_digits)]);
        assert(fold_pairs(acc_init(), all_pairs) == fold_pairs(acc1, a1));
        assert(fold_pairs(acc1, a1) == fold_pairs(acc2, a2));
        assert(fold_pairs(acc2, a2) == fold_pairs(acc3, a3));
    }
    let accb = fold_pairs(acc3, body);
    assert(fold_pairs(acc3, body + seq![(10int, cs_digits)]) == acc_step(accb, 10, cs_digits)) by {
        lemma_fold_pairs_split_last(acc3, body, (10int, cs_digits));
    }
    lemma_fold_pairs_plain(acc3, body);
    let final_acc = acc_step(accb, 10, cs_digits);
    assert(final_acc.fields == insert_pairs(Map::empty().insert(8, begin).insert(35, mt), body))
        by {
        assert(acc3.fields =~= Map::empty().insert(8, begin).insert(35, mt));
        assert(accb.fields == insert_pairs(acc3.fields, body));
    }
    assert(final_acc.msg_type == Some(mt));
    assert(final_acc.has_begin);
    assert(final_acc.md_expected is None);
    assert(md_ok(final_acc));
    assert(final_acc.has_checksum);
    // The trailer is the last seven characters and carries the true
    // checksum, so the trailer condition of the parse model holds.
    assert(dec_digits_of(10) =~= seq!['1', '0']) by {
        assert(dec_digits_of(10nat) == dec_digits_of(1nat).push(digit_char(10int % 10)));
        assert(dec_digits_of(1nat) == seq![digit_char(1)]);
    }
    lemma_dec_digits_len_bounded(checksum_of(pre) as nat);
    assert(cs_digits.len() == 3);
    let trail = enc_field(10, cs_digits);
    assert(trail.len() == 7);
    assert(frame =~= pre + trail);
    assert(spec_trailer_ok(frame)) by {
        assert(frame.len() == pre.len() + 7);
        assert(frame.take(frame.len() - 7) =~= pre);
        assert(trail =~= seq!['1', '0', '='] + cs_digits + seq![soh()]);
        assert(frame[frame.len() - 7] == trail[0]);
        assert(frame[frame.len() - 6] == trail[1]);
        assert(frame[frame.len() - 5] == trail[2]);
        assert(frame[frame.len() - 4] == cs_digits[0]);
        assert(frame[frame.len() - 3] == cs_digits[1]);
        assert(frame[frame.len() - 2] == cs_digits[2]);
        assert(frame[frame.len() - 1] == trail[6]);
        assert(frame.subrange(frame.len() - 4, frame.len() - 1) =~= cs_digits);
        assert(is_digit_seq(cs_digits));
        assert(val_of_digits(cs_digits) == checksum_of(pre));
    }
}

/// A serialized frame ends in a checksum trailer whose three digits read
/// back as the character sum, mod 256, of everything before the trailer.
pub proof fn lemma_serialized_checksum(
    begin: Seq<char>,
    mt: Seq<char>,
    body_fields: Seq<(int, Seq<char>)>,
    groups: Map<int, GroupModel>,
)
    ensures
        ({
            let frame = spec_serialize(begin, mt, body_fields, groups);
            let pre = spec_serialize_pre(begin, mt, body_fields, groups);
            &&& frame == pre + enc_field(10, padded_digits_of(checksum_of(pre) as nat, 3))
            &&& padded_digits_of(checksum_of(pre) as nat, 3).len() == 3
            &&& val_of_digits(padded_digits_of(checksum_of(pre) as nat, 3)) == checksum_of(pre)
            &&& 0 <= checksum_of(pre) < 256
        }),
{
    let pre = spec_serialize_pre(begin, mt, body_fields, groups);
    let cs = checksum_of(pre);
    crate::text::lemma_val_of_padded_digits(cs as nat, 3);
    lemma_dec_digits_len_bounded(cs as nat);
}

/// The checksum lies in `0 ..= 255`, so its rendering padded to three
/// characters is exactly three characters.
proof fn lemma_dec_digits_len_bounded(n: nat)
    requires
        n < 1000,
    ensures
        padded_digits_of(n, 3).len() == 3,
{
    crate::text::lemma_dec_digits_wf(n);
    let d = dec_digits_of(n);
    assert(d.len() <= 3) by {
        if n < 10 {
        } else if n < 100 {
            assert(dec_digits_of(n) == dec_digits_of(n / 10).push(digit_char((n % 10) as int)));
            assert(n / 10 < 10);
        } else {
            assert(dec_digits_of(n) == dec_digits_of(n / 10).push(digit_char((n % 10) as int)));
            assert(n / 10 < 100);
            assert(n / 10 >= 10);
            assert(dec_digits_of(n / 10) == dec_digits_of(n / 10 / 10).push(
                digit_char((n / 10 % 10) as int),
            ));
            assert(n / 10 / 10 < 10);
        }
    }
}

/// A serialized frame carries, right after its version field, a length field
/// whose digits read back as the byte count of the body: everything from
/// the character after that field's delimiter up to the checksum trailer.
pub proof fn lemma_serialized_body_length(
    begin: Seq<char>,
    mt: Seq<char>,
    body_fields: Seq<(int, Seq<char>)>,
    groups: Map<int, GroupModel>,
)
    ensures
        ({
            let body = enc_field(35, mt) + enc_body(body_fields, groups);
            let blen_digits = padded_digits_of(body.len(), 4);
            let frame = spec_serialize(begin, mt, body_fields, groups);
            &&& frame == enc_field(8, begin) + enc_field(9, blen_digits) + body + enc_field(
                10,
                padded_digits_of(checksum_of(spec_serialize_pre(begin, mt, body_fields, groups)) as nat, 3),
            )
            &&& val_of_digits(blen_digits) == body.len()
        }),
{
    let body = enc_field(35, mt) + enc_body(body_fields, groups);
    crate::text::lemma_val_of_padded_digits(body.len(), 4);
}

/// Folding a list with one pair appended folds the list, then steps once.
pub proof fn lemma_fold_pairs_split_last(
    acc: ParseAcc,
    ps: Seq<(int, Seq<char>)>,
    last: (int, Seq<char>),
)
    ensures
        fold_pairs(acc, ps + seq![last]) == acc_step(fold_pairs(acc, ps), last.0, last.1),
    decreases ps.len(),
{
    if ps.len() == 0 {
        assert(ps + seq![last] =~= seq![last]);
        assert(seq![last][0] == last);
        assert(seq![last].drop_first() =~= Seq::<(int, Seq<char>)>::empty());
        assert(fold_pairs(acc, seq![last]) == fold_pairs(
            acc_step(acc, last.0, last.1),
            seq![last].drop_first(),
        ));
        assert(fold_pairs(acc, ps) == acc);
    } else {
        assert((ps + seq![last])[0] == ps[0]);
        assert((ps + seq![last]).drop_first() =~= ps.drop_first() + seq![last]);
        lemma_fold_pairs_split_last(acc_step(acc, ps[0].0, ps[0].1), ps.drop_first(), last);
    }
}

} // verus!
