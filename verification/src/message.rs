//! Messages of the tag-value protocol: an ordered field set, a message type,
//! optional per-tag formatters and repeating groups, and serialization to
//! the wire.

pub mod field;
pub mod fieldlist;
pub mod formatter;
pub mod group;
pub mod parser;
pub mod pool;
pub mod validator;
pub mod values;
pub mod wire;

pub use self::field::Field;
pub use self::group::RepeatingGroup;
pub use self::wire::calculate_checksum;

use vstd::prelude::*;

use crate::error::FixError;
use crate::message::field::Field as FieldT;
use crate::message::fieldlist::FieldList;
use crate::message::formatter::{FieldFormatter, ValueFormat};
use crate::message::group::RepeatingGroup as GroupT;
use crate::message::wire::{
    enc_body, enc_field, map_of_pairs, sorted_insert, spec_serialize, wf_pair, GroupModel,
};
use crate::text::u64_to_padded_string;
use crate::timestamp::now_wire_timestamp;

verus! {

/// A tag selected for the frame body: everything but the begin-string, the
/// body length, the message type and the checksum, which the codec owns.
pub open spec fn is_body_pair(p: (int, Seq<char>)) -> bool {
    p.0 != 8 && p.0 != 9 && p.0 != 35 && p.0 != 10
}

/// One protocol message.
pub struct Message {
    fields: FieldList,
    msg_type: String,
    formatters: Vec<(i32, ValueFormat)>,
    groups: Vec<(i32, GroupT)>,
}

impl Message {
    /// The fields, in ascending tag order.
    pub closed spec fn spec_fields(&self) -> Seq<(int, Seq<char>)> {
        self.fields.pairs()
    }

    /// The fields as a map from tag to value.
    pub open spec fn field_map(&self) -> Map<int, Seq<char>> {
        map_of_pairs(self.spec_fields())
    }

    pub closed spec fn spec_msg_type(&self) -> Seq<char> {
        self.msg_type@
    }

    pub closed spec fn spec_formats_seq(&self) -> Seq<(int, ValueFormat)> {
        self.formatters@.map_values(|p: (i32, ValueFormat)| (p.0 as int, p.1))
    }

    /// The formatter attached to each tag.
    pub open spec fn format_map(&self) -> Map<int, ValueFormat> {
        map_of_pairs(self.spec_formats_seq())
    }

    pub closed spec fn spec_groups_seq(&self) -> Seq<(int, GroupModel)> {
        self.groups@.map_values(|p: (i32, GroupT)| (p.0 as int, p.1@))
    }

    /// The repeating groups by counter tag.
    pub open spec fn spec_groups(&self) -> Map<int, GroupModel> {
        map_of_pairs(self.spec_groups_seq())
    }

    /// The body fields: the fields without the codec-owned tags.
    pub open spec fn body_pairs(&self) -> Seq<(int, Seq<char>)> {
        self.spec_fields().filter(|p: (int, Seq<char>)| is_body_pair(p))
    }

    /// Two messages carry the same fields, type, groups and formatters.
    pub open spec fn view_eq(self, other: Message) -> bool {
        &&& self.spec_fields() == other.spec_fields()
        &&& self.spec_msg_type() == other.spec_msg_type()
        &&& self.spec_groups_seq() == other.spec_groups_seq()
        &&& self.spec_formats_seq() == other.spec_formats_seq()
    }

    /// Ordered well-formed fields; formatter and group tags distinct; every
    /// group well-formed.
    pub closed spec fn wf(&self) -> bool {
        &&& self.fields.wf()
        &&& forall|i: int, j: int|
            0 <= i < j < self.formatters@.len() ==> (#[trigger] self.formatters@[i]).0 != (
            #[trigger] self.formatters@[j]).0
        &&& forall|i: int, j: int|
            0 <= i < j < self.groups@.len() ==> (#[trigger] self.groups@[i]).0 != (
            #[trigger] self.groups@[j]).0
        &&& forall|i: int| 0 <= i < self.groups@.len() ==> (#[trigger] self.groups@[i]).1.wf()
    }

    /// A fresh message of the given type, carrying the default header
    /// fields: the protocol version, sequence number one, placeholder
    /// sender and target, and the clock's sending time.
    pub fn new(msg_type: &str) -> (r: Message)
        ensures
            r.wf(),
            r.spec_msg_type() == msg_type@,
            r.spec_formats_seq() == Seq::<(int, ValueFormat)>::empty(),
            r.spec_groups_seq() == Seq::<(int, GroupModel)>::empty(),
            r.field_map().contains_key(8) && r.field_map()[8] == "FIX.4.2"@,
            r.field_map().contains_key(34) && r.field_map()[34] == "1"@,
            r.field_map().contains_key(49) && r.field_map()[49] == "SENDER"@,
            r.field_map().contains_key(56) && r.field_map()[56] == "TARGET"@,
            r.field_map().contains_key(52) && wire::wf_value(r.field_map()[52]),
            wire::wf_value(msg_type@) ==> r.field_map().contains_key(35) && r.field_map()[35]
                == msg_type@,
            !wire::wf_value(msg_type@) ==> !r.field_map().contains_key(35),
            forall|t: int|
                #[trigger] r.field_map().contains_key(t) ==> t == 8 || t == 34 || t == 35 || t
                    == 49 || t == 52 || t == 56,
    {
        let mut fields = FieldList::new();
        proof {
            reveal_strlit("FIX.4.2");
            reveal_strlit("1");
            reveal_strlit("SENDER");
            reveal_strlit("TARGET");
            assert(wire::wf_value("FIX.4.2"@));
            assert(wire::wf_value("1"@));
            assert(wire::wf_value("SENDER"@));
            assert(wire::wf_value("TARGET"@));
        }
        fields.upsert(FieldT::new(field::BEGIN_STRING, String::from_str("FIX.4.2")));
        fields.upsert(FieldT::new(field::MSG_SEQ_NUM, String::from_str("1")));
        fields.upsert(FieldT::new(field::SENDER_COMP_ID, String::from_str("SENDER")));
        fields.upsert(FieldT::new(field::SENDING_TIME, now_wire_timestamp()));
        fields.upsert(FieldT::new(field::TARGET_COMP_ID, String::from_str("TARGET")));
        let mut r = Message {
            fields,
            msg_type: String::from_str(msg_type),
            formatters: Vec::new(),
            groups: Vec::new(),
        };
        proof {
            assert(r.spec_formats_seq() =~= Seq::<(int, ValueFormat)>::empty());
            assert(r.spec_groups_seq() =~= Seq::<(int, GroupModel)>::empty());
        }
        let mt_field = FieldT::new(field::MSG_TYPE, String::from_str(msg_type));
        if mt_field.check_wf() {
            r.fields.upsert(mt_field);
        }
        r
    }

    /// Parses a frame into a message.
    pub fn from_string(msg_str: &str) -> (r: Result<Message, FixError>)
        ensures
            match r {
                Ok(m) => {
                    &&& vstd::utf8::is_ascii_chars(msg_str@)
                    &&& wire::spec_parse(msg_str@) matches Some((mt, fm, gm)) && m.spec_msg_type()
                        == mt && m.field_map() == fm && m.spec_groups() == gm
                    &&& m.wf()
                    &&& m.spec_formats_seq() == Seq::<(int, ValueFormat)>::empty()
                },
                Err(e) => (!vstd::utf8::is_ascii_chars(msg_str@) || wire::spec_parse(msg_str@) is None)
                    && e is ParseError,
            },
    {
        parser::MessageParser::parse(msg_str)
    }

    /// Builds a message from already-checked parts; the codec's constructor.
    pub(crate) fn from_parts(
        fields: FieldList,
        msg_type: String,
        group: Option<(i32, GroupT)>,
    ) -> (r: Message)
        requires
            fields.wf(),
            group matches Some(g) ==> g.1.wf(),
        ensures
            r.wf(),
            r.spec_fields() == fields.pairs(),
            r.spec_msg_type() == msg_type@,
            r.spec_formats_seq() == Seq::<(int, ValueFormat)>::empty(),
            match group {
                Some(g) => r.spec_groups() == Map::<int, GroupModel>::empty().insert(
                    g.0 as int,
                    g.1@,
                ),
                None => r.spec_groups() == Map::<int, GroupModel>::empty(),
            },
    {
        let ghost group0 = group;
        let mut groups: Vec<(i32, GroupT)> = Vec::new();
        match group {
            Some(g) => {
                groups.push(g);
            },
            None => {},
        }
        let r = Message { fields, msg_type, formatters: Vec::new(), groups };
        proof {
            assert(r.spec_formats_seq() =~= Seq::<(int, ValueFormat)>::empty());
            match group0 {
                Some(g) => {
                    assert(r.spec_groups_seq() =~= seq![(g.0 as int, g.1@)]);
                    wire::lemma_insert_pairs_props(
                        Map::<int, GroupModel>::empty(),
                        r.spec_groups_seq(),
                    );
                    assert(r.spec_groups_seq()[0] == (g.0 as int, g.1@));
                    assert(r.spec_groups() =~= Map::<int, GroupModel>::empty().insert(
                        g.0 as int,
                        g.1@,
                    ));
                },
                None => {
                    assert(r.spec_groups_seq() =~= Seq::<(int, GroupModel)>::empty());
                    assert(r.spec_groups() =~= Map::<int, GroupModel>::empty());
                },
            }
        }
        r
    }

    /// Attaches a formatter to a tag, replacing any previous one.
    pub fn set_formatter(&mut self, tag: i32, formatter: ValueFormat)
        requires
            old(self).wf(),
        ensures
            final(self).wf(),
            final(self).format_map() == old(self).format_map().insert(tag as int, formatter),
            final(self).spec_fields() == old(self).spec_fields(),
            final(self).spec_msg_type() == old(self).spec_msg_type(),
            final(self).spec_groups_seq() == old(self).spec_groups_seq(),
    {
        proof {
            wire::lemma_insert_pairs_props(Map::empty(), old(self).spec_formats_seq());
        }
        let n = self.formatters.len();
        let mut i: usize = 0;
        while i < n
            invariant
                0 <= i <= n,
                n == self.formatters@.len(),
                *self == *old(self),
                old(self).wf(),
                forall|j: int| 0 <= j < i ==> (#[trigger] self.formatters@[j]).0 != tag,
            decreases n - i,
        {
            if self.formatters[i].0 == tag {
                self.formatters[i] = (tag, formatter);
                proof {
                    assert(self.spec_formats_seq() =~= old(self).spec_formats_seq().update(
                        i as int,
                        (tag as int, formatter),
                    ));
                    lemma_replace_format(old(self).spec_formats_seq(), self.spec_formats_seq(),
                        i as int, tag as int, formatter);
                }
                return ;
            }
            i = i + 1;
        }
        self.formatters.push((tag, formatter));
        proof {
            let ops = old(self).spec_formats_seq();
            let nps = self.spec_formats_seq();
            assert(nps =~= ops.push((tag as int, formatter)));
            assert forall|a: int, b: int| 0 <= a < b < ops.len() implies (#[trigger] ops[a]).0
                != (#[trigger] ops[b]).0 by {
                assert(ops[a].0 == old(self).formatters@[a].0);
                assert(ops[b].0 == old(self).formatters@[b].0);
                assert(old(self).formatters@[a].0 != old(self).formatters@[b].0);
            }
            assert forall|k: int| 0 <= k < ops.len() implies (#[trigger] ops[k]).0 != tag as int by {
                assert(ops[k].0 == old(self).formatters@[k].0);
                assert(old(self).formatters@[k].0 != tag);
            }
            wire::lemma_map_of_pairs_push(ops, tag as int, formatter);
            assert forall|i2: int, j2: int| 0 <= i2 < j2 < self.formatters@.len() implies (
            #[trigger] self.formatters@[i2]).0 != (#[trigger] self.formatters@[j2]).0 by {
                assert(nps[i2].0 == self.formatters@[i2].0);
                assert(nps[j2].0 == self.formatters@[j2].0);
                assert(nps[i2].0 != nps[j2].0);
            }
        }
    }

    /// Sets a field. With a formatter attached to the tag the rendered value
    /// is stored; the stored pair must be admissible on the wire.
    pub fn set_field(&mut self, f: FieldT) -> (r: Result<(), FixError>)
        requires
            old(self).wf(),
        ensures
            final(self).wf(),
            final(self).spec_msg_type() == old(self).spec_msg_type(),
            final(self).spec_groups_seq() == old(self).spec_groups_seq(),
            final(self).spec_formats_seq() == old(self).spec_formats_seq(),
            match r {
                Ok(()) => exists|fv: Seq<char>|
                    {
                        &&& #[trigger] wf_pair((f@.0, fv))
                        &&& (match old(self).format_map().contains_key(f@.0) {
                            true => old(self).format_map()[f@.0].spec_format(f@.1) == Some(fv),
                            false => fv == f@.1,
                        })
                        &&& final(self).spec_fields() == sorted_insert(
                            old(self).spec_fields(),
                            f@.0,
                            fv,
                        )
                        &&& final(self).field_map() == old(self).field_map().insert(f@.0, fv)
                    },
                Err(e) => {
                    &&& final(self).spec_fields() == old(self).spec_fields()
                    &&& e is ParseError
                    &&& !old(self).format_map().contains_key(f@.0) ==> !wf_pair(f@)
                    &&& old(self).format_map().contains_key(f@.0) ==> (match old(
                        self,
                    ).format_map()[f@.0].spec_format(f@.1) {
                        Some(fv) => !wf_pair((f@.0, fv)),
                        None => true,
                    })
                },
            },
    {
        let tag = f.tag();
        let fmt = self.find_formatter(tag);
        let stored: FieldT = match fmt {
            Some(vf) => {
                match vf.format(f.value()) {
                    Ok(s) => FieldT::new(tag, s),
                    Err(e) => {
                        return Err(e);
                    },
                }
            },
            None => f,
        };
        if !stored.check_wf() {
            return Err(
                FixError::ParseError(String::from_str("Field value not admissible on the wire")),
            );
        }
        self.fields.upsert(stored);
        proof {
            assert(wf_pair((f@.0, stored@.1)));
        }
        Ok(())
    }

    /// The formatter attached to `tag`, where one is.
    fn find_formatter(&self, tag: i32) -> (r: Option<&ValueFormat>)
        requires
            self.wf(),
        ensures
            match r {
                Some(vf) => self.format_map().contains_key(tag as int) && *vf
                    == self.format_map()[tag as int],
                None => !self.format_map().contains_key(tag as int),
            },
    {
        proof {
            wire::lemma_insert_pairs_props(Map::empty(), self.spec_formats_seq());
        }
        let n = self.formatters.len();
        let mut i: usize = 0;
        while i < n
            invariant
                0 <= i <= n,
                self.wf(),
                n == self.formatters@.len(),
                forall|j: int| 0 <= j < i ==> (#[trigger] self.formatters@[j]).0 != tag,
                forall|j: int|
                    0 <= j < self.spec_formats_seq().len()
                        ==> self.format_map()[(#[trigger] self.spec_formats_seq()[j]).0]
                        == self.spec_formats_seq()[j].1,
                forall|t: int|
                    #[trigger] self.format_map().contains_key(t) == exists|j: int|
                        0 <= j < self.spec_formats_seq().len() && (
                        #[trigger] self.spec_formats_seq()[j]).0 == t,
            decreases n - i,
        {
            if self.formatters[i].0 == tag {
                proof {
                    assert(self.spec_formats_seq()[i as int] == (
                        tag as int,
                        self.formatters@[i as int].1,
                    ));
                }
                return Some(&self.formatters[i].1);
            }
            proof {
                assert(self.spec_formats_seq()[i as int] == (
                    self.formatters@[i as int].0 as int,
                    self.formatters@[i as int].1,
                ));
            }
            i = i + 1;
        }
        proof {
            if self.format_map().contains_key(tag as int) {
                let j = choose|j: int|
                    0 <= j < self.spec_formats_seq().len() && (
                    #[trigger] self.spec_formats_seq()[j]).0 == tag as int;
                assert(self.spec_formats_seq()[j] == (
                    self.formatters@[j].0 as int,
                    self.formatters@[j].1,
                ));
                assert(false);
            }
        }
        None
    }

    /// The field carrying `tag`, where one is present.
    pub fn get_field(&self, tag: i32) -> (r: Option<&FieldT>)
        requires
            self.wf(),
        ensures
            match r {
                Some(f) => self.field_map().contains_key(tag as int) && f@ == (
                    tag as int,
                    self.field_map()[tag as int],
                ),
                None => !self.field_map().contains_key(tag as int),
            },
    {
        self.fields.get(tag)
    }

    /// The message type.
    pub fn msg_type(&self) -> (r: &str)
        ensures
            r@ == self.spec_msg_type(),
    {
        self.msg_type.as_str()
    }

    /// The ordered field set.
    pub fn fields(&self) -> (r: &FieldList)
        ensures
            r.pairs() == self.spec_fields(),
    {
        &self.fields
    }

    /// Serializes the message: version first, zero-padded body length
    /// second, the message type opening the body, the body fields with their
    /// group entries in ascending tag order, and the checksum trailer.
    pub fn to_string(&self) -> (r: Result<String, FixError>)
        requires
            self.wf(),
        ensures
            match r {
                Ok(s) => self.field_map().contains_key(8) && s@ == spec_serialize(
                    self.field_map()[8],
                    self.spec_msg_type(),
                    self.body_pairs(),
                    self.spec_groups(),
                ),
                Err(e) => !self.field_map().contains_key(8) && e is ParseError,
            },
    {
        let begin = match self.fields.get(field::BEGIN_STRING) {
            Some(f) => f,
            None => {
                return Err(FixError::ParseError(String::from_str("Missing BeginString")));
            },
        };
        let ghost groups_map = self.spec_groups();
        // The body: the message type, then each body field with its group.
        let mut body = String::new();
        wire::append_field(&mut body, field::MSG_TYPE, self.msg_type.as_str());
        let ghost mt_enc = enc_field(35, self.spec_msg_type());
        let n = self.fields.len();
        let mut i: usize = 0;
        proof {
            reveal(Seq::filter);
            assert(self.spec_fields().take(0).filter(|p: (int, Seq<char>)| is_body_pair(p)) =~= Seq::<
                (int, Seq<char>),
            >::empty());
            assert(body@ =~= mt_enc + enc_body(
                self.spec_fields().take(0).filter(|p: (int, Seq<char>)| is_body_pair(p)),
                groups_map,
            ));
        }
        while i < n
            invariant
                0 <= i <= n,
                self.wf(),
                n == self.spec_fields().len(),
                groups_map == self.spec_groups(),
                mt_enc == enc_field(35, self.spec_msg_type()),
                body@ == mt_enc + enc_body(
                    self.spec_fields().take(i as int).filter(
                        |p: (int, Seq<char>)| is_body_pair(p),
                    ),
                    groups_map,
                ),
            decreases n - i,
        {
            let f = self.fields.item(i);
            proof {
                assert(self.spec_fields()[i as int] == f@);
            }
            let tag = f.tag();
            proof {
                reveal(Seq::filter);
                let pre = self.spec_fields().take(i as int);
                let nxt = self.spec_fields().take(i + 1);
                assert(nxt.drop_last() =~= pre);
                assert(nxt.last() == f@);
            }
            if tag != field::BEGIN_STRING && tag != field::BODY_LENGTH && tag != field::MSG_TYPE
                && tag != field::CHECKSUM {
                wire::append_field(&mut body, tag, f.value());
                let grp = self.find_group(tag);
                match grp {
                    Some(g) => {
                        g.append_wire(&mut body);
                    },
                    None => {},
                }
                proof {
                    let pred = |p: (int, Seq<char>)| is_body_pair(p);
                    let pre = self.spec_fields().take(i as int).filter(pred);
                    let nxt = self.spec_fields().take(i + 1).filter(pred);
                    assert(nxt == pre.push(f@));
                    assert(pre.push(f@) =~= pre + seq![f@]);
                    wire::lemma_enc_body_append(pre, seq![f@], groups_map);
                    wire::lemma_enc_body_singleton(f@, groups_map);
                    assert(body@ =~= mt_enc + enc_body(nxt, groups_map));
                }
            } else {
                proof {
                    let pred = |p: (int, Seq<char>)| is_body_pair(p);
                    assert(!is_body_pair(f@));
                    assert(self.spec_fields().take(i + 1).filter(pred) == self.spec_fields().take(
                        i as int,
                    ).filter(pred));
                }
            }
            i = i + 1;
        }
        proof {
            assert(self.spec_fields().take(n as int) =~= self.spec_fields());
        }
        // The frame up to the trailer: version, body length, body.
        let blen: usize = body.as_str().unicode_len();
        let mut out = String::new();
        wire::append_field(&mut out, field::BEGIN_STRING, begin.value());
        let blen_str = u64_to_padded_string(blen as u64, 4);
        wire::append_field(&mut out, field::BODY_LENGTH, blen_str.as_str());
        out.append(body.as_str());
        proof {
            assert(out@ =~= wire::spec_serialize_pre(
                self.field_map()[8],
                self.spec_msg_type(),
                self.body_pairs(),
                groups_map,
            ));
        }
        // The trailer.
        let cs = wire::calculate_checksum(out.as_str());
        let cs_str = u64_to_padded_string(cs as u64, 3);
        wire::append_field(&mut out, field::CHECKSUM, cs_str.as_str());
        proof {
            assert(out@ =~= spec_serialize(
                self.field_map()[8],
                self.spec_msg_type(),
                self.body_pairs(),
                groups_map,
            ));
        }
        Ok(out)
    }

    /// The group keyed by `tag`, where one is.
    fn find_group(&self, tag: i32) -> (r: Option<&GroupT>)
        requires
            self.wf(),
        ensures
            match r {
                Some(g) => self.spec_groups().contains_key(tag as int) && g@
                    == self.spec_groups()[tag as int] && g.wf(),
                None => !self.spec_groups().contains_key(tag as int),
            },
    {
        proof {
            wire::lemma_insert_pairs_props(Map::empty(), self.spec_groups_seq());
        }
        let n = self.groups.len();
        let mut i: usize = 0;
        while i < n
            invariant
                0 <= i <= n,
                self.wf(),
                n == self.groups@.len(),
                forall|j: int| 0 <= j < i ==> (#[trigger] self.groups@[j]).0 != tag,
                forall|j: int|
                    0 <= j < self.spec_groups_seq().len()
                        ==> self.spec_groups()[(#[trigger] self.spec_groups_seq()[j]).0]
                        == self.spec_groups_seq()[j].1,
                forall|t: int|
                    #[trigger] self.spec_groups().contains_key(t) == exists|j: int|
                        0 <= j < self.spec_groups_seq().len() && (
                        #[trigger] self.spec_groups_seq()[j]).0 == t,
            decreases n - i,
        {
            if self.groups[i].0 == tag {
                proof {
                    assert(self.spec_groups_seq()[i as int] == (
                        tag as int,
                        self.groups@[i as int].1@,
                    ));
                }
                return Some(&self.groups[i].1);
            }
            proof {
                assert(self.spec_groups_seq()[i as int] == (
                    self.groups@[i as int].0 as int,
                    self.groups@[i as int].1@,
                ));
            }
            i = i + 1;
        }
        proof {
            if self.spec_groups().contains_key(tag as int) {
                let j = choose|j: int|
                    0 <= j < self.spec_groups_seq().len() && (
                    #[trigger] self.spec_groups_seq()[j]).0 == tag as int;
                assert(self.spec_groups_seq()[j] == (
                    self.groups@[j].0 as int,
                    self.groups@[j].1@,
                ));
                assert(false);
            }
        }
        None
    }

    /// Declares a repeating group under a counter tag.
    pub fn add_group(&mut self, tag: i32, delimiter_tag: i32, required_tags: Vec<i32>) -> (r:
        Result<(), FixError>)
        requires
            old(self).wf(),
        ensures
            final(self).wf(),
            r is Ok,
            final(self).spec_groups() == old(self).spec_groups().insert(
                tag as int,
                GroupModel { delim: delimiter_tag as int, entries: Seq::empty() },
            ),
            final(self).spec_fields() == old(self).spec_fields(),
            final(self).spec_msg_type() == old(self).spec_msg_type(),
            final(self).spec_formats_seq() == old(self).spec_formats_seq(),
    {
        let g = GroupT::new(delimiter_tag, required_tags);
        proof {
            wire::lemma_insert_pairs_props(Map::empty(), old(self).spec_groups_seq());
        }
        let n = self.groups.len();
        let mut i: usize = 0;
        while i < n
            invariant
                0 <= i <= n,
                n == self.groups@.len(),
                *self == *old(self),
                old(self).wf(),
                g@ == (GroupModel { delim: delimiter_tag as int, entries: Seq::empty() }),
                g.wf(),
                forall|j: int| 0 <= j < i ==> (#[trigger] self.groups@[j]).0 != tag,
            decreases n - i,
        {
            if self.groups[i].0 == tag {
                self.groups[i] = (tag, g);
                proof {
                    assert(self.spec_groups_seq() =~= old(self).spec_groups_seq().update(
                        i as int,
                        (tag as int, GroupModel { delim: delimiter_tag as int, entries: Seq::empty() }),
                    ));
                    lemma_replace_group(old(self).spec_groups_seq(), self.spec_groups_seq(),
                        i as int, tag as int, GroupModel { delim: delimiter_tag as int, entries: Seq::empty() });
                    assert forall|k: int| 0 <= k < self.groups@.len() implies (
                    #[trigger] self.groups@[k]).1.wf() by {
                        if k != i {
                            assert(self.groups@[k] == old(self).groups@[k]);
                        }
                    }
                    assert forall|a: int, b: int| 0 <= a < b < self.groups@.len() implies (
                    #[trigger] self.groups@[a]).0 != (#[trigger] self.groups@[b]).0 by {
                        assert(self.groups@[a].0 == old(self).groups@[a].0);
                        assert(self.groups@[b].0 == old(self).groups@[b].0);
                        assert(old(self).groups@[a].0 != old(self).groups@[b].0);
                    }
                }
                return Ok(());
            }
            i = i + 1;
        }
        self.groups.push((tag, g));
        proof {
            let ops = old(self).spec_groups_seq();
            let nps = self.spec_groups_seq();
            assert(nps =~= ops.push((
                tag as int,
                GroupModel { delim: delimiter_tag as int, entries: Seq::empty() },
            )));
            assert forall|a: int, b: int| 0 <= a < b < ops.len() implies (#[trigger] ops[a]).0
                != (#[trigger] ops[b]).0 by {
                assert(ops[a].0 == old(self).groups@[a].0);
                assert(ops[b].0 == old(self).groups@[b].0);
                assert(old(self).groups@[a].0 != old(self).groups@[b].0);
            }
            assert forall|k: int| 0 <= k < ops.len() implies (#[trigger] ops[k]).0 != tag as int by {
                assert(ops[k].0 == old(self).groups@[k].0);
                assert(old(self).groups@[k].0 != tag);
            }
            wire::lemma_map_of_pairs_push(
                ops,
                tag as int,
                GroupModel { delim: delimiter_tag as int, entries: Seq::empty() },
            );
            assert forall|a: int, b: int| 0 <= a < b < self.groups@.len() implies (
            #[trigger] self.groups@[a]).0 != (#[trigger] self.groups@[b]).0 by {
                assert(nps[a].0 == self.groups@[a].0);
                assert(nps[b].0 == self.groups@[b].0);
                assert(nps[a].0 != nps[b].0);
            }
            assert forall|k: int| 0 <= k < self.groups@.len() implies (
            #[trigger] self.groups@[k]).1.wf() by {
                if k < self.groups@.len() - 1 {
                    assert(self.groups@[k] == old(self).groups@[k]);
                }
            }
        }
        Ok(())
    }

    /// The group keyed by `tag`.
    pub fn get_group(&self, tag: i32) -> (r: Option<&GroupT>)
        requires
            self.wf(),
        ensures
            match r {
                Some(g) => self.spec_groups().contains_key(tag as int) && g@
                    == self.spec_groups()[tag as int] && g.wf(),
                None => !self.spec_groups().contains_key(tag as int),
            },
    {
        self.find_group(tag)
    }

    /// Opens a new entry in the group keyed by `tag`; false when no group
    /// carries that tag or it is full.
    pub fn add_group_entry(&mut self, tag: i32) -> (r: bool)
        requires
            old(self).wf(),
        ensures
            final(self).wf(),
            final(self).spec_fields() == old(self).spec_fields(),
            final(self).spec_msg_type() == old(self).spec_msg_type(),
            final(self).spec_formats_seq() == old(self).spec_formats_seq(),
            r ==> old(self).spec_groups().contains_key(tag as int) && final(self).spec_groups()
                == old(self).spec_groups().insert(
                tag as int,
                GroupModel {
                    delim: old(self).spec_groups()[tag as int].delim,
                    entries: old(self).spec_groups()[tag as int].entries.push(
                        Seq::<(int, Seq<char>)>::empty(),
                    ),
                },
            ),
            !r ==> final(self).spec_groups() == old(self).spec_groups(),
    {
        proof {
            wire::lemma_insert_pairs_props(Map::empty(), old(self).spec_groups_seq());
        }
        let n = self.groups.len();
        let mut i: usize = 0;
        while i < n
            invariant
                0 <= i <= n,
                n == self.groups@.len(),
                *self == *old(self),
                old(self).wf(),
                forall|j: int| 0 <= j < i ==> (#[trigger] self.groups@[j]).0 != tag,
            decreases n - i,
        {
            if self.groups[i].0 == tag {
                proof {
                    assert(self.groups@[i as int].1.wf());
                }
                let gi = &mut self.groups[i];
                if gi.1.entry_count() >= usize::MAX - 1 {
                    proof {
                        assert(self.spec_groups_seq() =~= old(self).spec_groups_seq());
                    }
                    return false;
                }
                gi.1.add_entry();
                proof {
                    assert(old(self).spec_groups_seq()[i as int].0 == tag as int) by {
                        assert(old(self).spec_groups_seq()[i as int] == (
                            old(self).groups@[i as int].0 as int,
                            old(self).groups@[i as int].1@,
                        ));
                    }
                    assert(old(self).spec_groups().contains_key(tag as int)) by {
                        wire::lemma_insert_pairs_props(Map::empty(), old(self).spec_groups_seq());
                    }
                    let ng = GroupModel {
                        delim: old(self).spec_groups_seq()[i as int].1.delim,
                        entries: old(self).spec_groups_seq()[i as int].1.entries.push(
                            Seq::<(int, Seq<char>)>::empty(),
                        ),
                    };
                    assert(self.spec_groups_seq() =~= old(self).spec_groups_seq().update(
                        i as int,
                        (tag as int, ng),
                    ));
                    lemma_replace_group(old(self).spec_groups_seq(), self.spec_groups_seq(),
                        i as int, tag as int, ng);
                    assert(old(self).spec_groups_seq()[i as int] == (
                        tag as int,
                        old(self).groups@[i as int].1@,
                    ));
                    assert(old(self).spec_groups()[tag as int] == old(
                        self,
                    ).spec_groups_seq()[i as int].1) by {
                        wire::lemma_insert_pairs_props(Map::empty(), old(self).spec_groups_seq());
                    }
                    assert forall|k: int| 0 <= k < self.groups@.len() implies (
                    #[trigger] self.groups@[k]).1.wf() by {
                        if k != i {
                            assert(self.groups@[k] == old(self).groups@[k]);
                        }
                    }
                    assert forall|a: int, b: int| 0 <= a < b < self.groups@.len() implies (
                    #[trigger] self.groups@[a]).0 != (#[trigger] self.groups@[b]).0 by {
                        assert(self.groups@[a].0 == old(self).groups@[a].0);
                        assert(self.groups@[b].0 == old(self).groups@[b].0);
                        assert(old(self).groups@[a].0 != old(self).groups@[b].0);
                    }
                }
                return true;
            }
            i = i + 1;
        }
        proof {
            if old(self).spec_groups().contains_key(tag as int) {
                let j = choose|j: int|
                    0 <= j < old(self).spec_groups_seq().len() && (#[trigger] old(
                        self,
                    ).spec_groups_seq()[j]).0 == tag as int;
                assert(old(self).spec_groups_seq()[j] == (
                    old(self).groups@[j].0 as int,
                    old(self).groups@[j].1@,
                ));
                assert(false);
            }
        }
        false
    }

    /// Sets a field in the group entry that owns its tag, or among the
    /// message's own fields when no group owns it.
    pub fn set_field_at(&mut self, position: usize, f: FieldT) -> (r: Result<(), FixError>)
        requires
            old(self).wf(),
        ensures
            final(self).wf(),
            final(self).spec_msg_type() == old(self).spec_msg_type(),
            final(self).spec_formats_seq() == old(self).spec_formats_seq(),
    {
        let tag = f.tag();
        let n = self.groups.len();
        let mut i: usize = 0;
        while i < n
            invariant
                0 <= i <= n,
                n == self.groups@.len(),
                *self == *old(self),
                old(self).wf(),
            decreases n - i,
        {
            let owns = self.groups[i].1.has_field(tag);
            if owns {
                proof {
                    assert(self.groups@[i as int].1.wf());
                }
                let gi = &mut self.groups[i];
                let r = gi.1.set_field_at(position, f);
                proof {
                    assert forall|k: int| 0 <= k < self.groups@.len() implies (
                    #[trigger] self.groups@[k]).1.wf() by {
                        if k != i {
                            assert(self.groups@[k] == old(self).groups@[k]);
                        }
                    }
                    assert forall|a: int, b: int| 0 <= a < b < self.groups@.len() implies (
                    #[trigger] self.groups@[a]).0 != (#[trigger] self.groups@[b]).0 by {
                        assert(self.groups@[a].0 == old(self).groups@[a].0);
                        assert(self.groups@[b].0 == old(self).groups@[b].0);
                        assert(old(self).groups@[a].0 != old(self).groups@[b].0);
                    }
                    assert(self.spec_formats_seq() =~= old(self).spec_formats_seq());
                }
                return r;
            }
            i = i + 1;
        }
        if !f.check_wf() {
            return Err(
                FixError::ParseError(String::from_str("Field value not admissible on the wire")),
            );
        }
        self.fields.upsert(f);
        Ok(())
    }

    /// Whether a group owns a tag: its delimiter or one of its member tags.
    pub open spec fn spec_group_owns(g: GroupT, t: int) -> bool {
        t == g.spec_delim() || g.spec_required().contains(t)
    }

    spec fn spec_owning_in(gs: Seq<(i32, GroupT)>, t: int) -> Option<GroupT>
        decreases gs.len(),
    {
        if gs.len() == 0 {
            None
        } else if Self::spec_group_owns(gs[0].1, t) {
            Some(gs[0].1)
        } else {
            Self::spec_owning_in(gs.drop_first(), t)
        }
    }

    /// The first declared group that owns `t`, if any.
    pub closed spec fn spec_owning_group(&self, t: int) -> Option<GroupT> {
        Self::spec_owning_in(self.groups@, t)
    }

    proof fn lemma_owning_at(gs: Seq<(i32, GroupT)>, t: int, i: int)
        requires
            0 <= i < gs.len(),
            Self::spec_group_owns(gs[i].1, t),
            forall|j: int| 0 <= j < i ==> !Self::spec_group_owns((#[trigger] gs[j]).1, t),
        ensures
            Self::spec_owning_in(gs, t) == Some(gs[i].1),
        decreases gs.len(),
    {
        if i > 0 {
            let rest = gs.drop_first();
            assert(forall|j: int| 0 <= j < rest.len() ==> #[trigger] rest[j] == gs[j + 1]);
            Self::lemma_owning_at(rest, t, i - 1);
        }
    }

    proof fn lemma_owning_none(gs: Seq<(i32, GroupT)>, t: int)
        requires
            forall|j: int| 0 <= j < gs.len() ==> !Self::spec_group_owns((#[trigger] gs[j]).1, t),
        ensures
            Self::spec_owning_in(gs, t) is None,
        decreases gs.len(),
    {
        if gs.len() > 0 {
            let rest = gs.drop_first();
            assert(forall|j: int| 0 <= j < rest.len() ==> #[trigger] rest[j] == gs[j + 1]);
            Self::lemma_owning_none(rest, t);
        }
    }

    /// Reads a field from the entry at `position` of the first group that
    /// owns its tag, or among the message's own fields when no group owns
    /// it.
    pub fn get_field_at(&self, tag: i32, position: usize) -> (r: Option<&FieldT>)
        requires
            self.wf(),
        ensures
            match self.spec_owning_group(tag as int) {
                Some(g) => match r {
                    Some(f) => {
                        &&& position < g@.entries.len()
                        &&& map_of_pairs(g@.entries[position as int]).contains_key(tag as int)
                        &&& f@ == (
                            tag as int,
                            map_of_pairs(g@.entries[position as int])[tag as int],
                        )
                    },
                    None => position >= g@.entries.len() || !map_of_pairs(
                        g@.entries[position as int],
                    ).contains_key(tag as int),
                },
                None => match r {
                    Some(f) => self.field_map().contains_key(tag as int) && f@ == (
                        tag as int,
                        self.field_map()[tag as int],
                    ),
                    None => !self.field_map().contains_key(tag as int),
                },
            },
    {
        let n = self.groups.len();
        let mut i: usize = 0;
        while i < n
            invariant
                0 <= i <= n,
                self.wf(),
                n == self.groups@.len(),
                forall|j: int|
                    0 <= j < i ==> !Self::spec_group_owns((#[trigger] self.groups@[j]).1, tag as int),
            decreases n - i,
        {
            let owns = self.groups[i].1.has_field(tag);
            if owns {
                proof {
                    assert(self.groups@[i as int].1.wf());
                    Self::lemma_owning_at(self.groups@, tag as int, i as int);
                }
                return self.groups[i].1.get_field_at(tag, position);
            }
            i = i + 1;
        }
        proof {
            Self::lemma_owning_none(self.groups@, tag as int);
        }
        self.fields.get(tag)
    }
}

impl Clone for Message {
    fn clone(&self) -> (r: Self)
        ensures
            r.spec_fields() == self.spec_fields(),
            r.spec_msg_type() == self.spec_msg_type(),
            r.spec_groups_seq() == self.spec_groups_seq(),
            r.spec_formats_seq() == self.spec_formats_seq(),
            self.wf() ==> r.wf(),
    {
        let mut groups: Vec<(i32, GroupT)> = Vec::new();
        let n = self.groups.len();
        let mut i: usize = 0;
        while i < n
            invariant
                0 <= i <= n,
                n == self.groups@.len(),
                groups@.len() == i,
                forall|j: int|
                    0 <= j < i ==> (#[trigger] groups@[j]).0 == self.groups@[j].0
                        && groups@[j].1@ == self.groups@[j].1@ && (self.groups@[j].1.wf()
                        ==> groups@[j].1.wf()),
            decreases n - i,
        {
            let pg = &self.groups[i];
            groups.push((pg.0, pg.1.clone()));
            i = i + 1;
        }
        let mut formatters: Vec<(i32, ValueFormat)> = Vec::new();
        let fn_ = self.formatters.len();
        let mut k: usize = 0;
        while k < fn_
            invariant
                0 <= k <= fn_,
                fn_ == self.formatters@.len(),
                formatters@.len() == k,
                forall|j: int| 0 <= j < k ==> #[trigger] formatters@[j] == self.formatters@[j],
            decreases fn_ - k,
        {
            let pf = &self.formatters[k];
            formatters.push((pf.0, clone_format(&pf.1)));
            k = k + 1;
        }
        let r = Message {
            fields: self.fields.clone(),
            msg_type: self.msg_type.clone(),
            formatters,
            groups,
        };
        proof {
            assert(r.spec_groups_seq() =~= self.spec_groups_seq());
            assert(r.spec_formats_seq() =~= self.spec_formats_seq());
        }
        r
    }
}

/// The body selection of a sorted pair list is itself sorted, and each of
/// its pairs is one of the original pairs.
proof fn lemma_filter_body_props(ps: Seq<(int, Seq<char>)>, out: Seq<(int, Seq<char>)>)
    requires
        wire::pairs_sorted(ps),
        out == ps.filter(|p: (int, Seq<char>)| is_body_pair(p)),
    ensures
        wire::pairs_sorted(out),
        forall|i: int| 0 <= i < out.len() ==> ps.contains(#[trigger] out[i]),
    decreases ps.len(),
{
    reveal(Seq::filter);
    let pred = |p: (int, Seq<char>)| is_body_pair(p);
    if ps.len() > 0 {
        let dl = ps.drop_last();
        assert(forall|j: int| 0 <= j < dl.len() ==> #[trigger] dl[j] == ps[j]);
        assert(wire::pairs_sorted(dl)) by {
            assert(forall|a: int, b: int|
                0 <= a < b < dl.len() ==> (#[trigger] dl[a]).0 < (#[trigger] dl[b]).0);
        }
        lemma_filter_body_props(dl, dl.filter(pred));
        let sub = dl.filter(pred);
        assert forall|i: int| 0 <= i < out.len() implies ps.contains(#[trigger] out[i]) by {
            if i < sub.len() {
                assert(out[i] == sub[i]);
                assert(dl.contains(sub[i]));
                let j = choose|j: int| 0 <= j < dl.len() && dl[j] == sub[i];
                assert(ps[j] == sub[i]);
            } else {
                assert(pred(ps.last()));
                assert(out[i] == ps.last());
                assert(ps[ps.len() - 1] == ps.last());
            }
        }
        assert forall|a: int, b: int| 0 <= a < b < out.len() implies (#[trigger] out[a]).0 < (
        #[trigger] out[b]).0 by {
            if b < sub.len() {
                assert(out[a] == sub[a]);
                assert(out[b] == sub[b]);
            } else {
                assert(out[a] == sub[a]);
                assert(out[b] == ps.last());
                assert(dl.contains(sub[a]));
                let j = choose|j: int| 0 <= j < dl.len() && dl[j] == sub[a];
                assert(ps[j] == sub[a]);
                assert(ps[j].0 < ps[ps.len() - 1].0);
            }
        }
    }
}

/// The codec round trip: a well-formed message without repeating groups and
/// without the codec-owned or entry-count tags serializes to a frame that
/// parses back to the same message type and the same fields, with the
/// message-type field itself restored from the frame.
pub proof fn lemma_parse_serialize_round_trip(m: Message)
    requires
        m.wf(),
        m.field_map().contains_key(8),
        wire::wf_value(m.spec_msg_type()),
        m.spec_groups_seq() == Seq::<(int, GroupModel)>::empty(),
        !m.field_map().contains_key(9),
        !m.field_map().contains_key(10),
        !m.field_map().contains_key(268),
        !m.field_map().contains_key(269),
        !m.field_map().contains_key(270),
        !m.field_map().contains_key(271),
    ensures
        wire::spec_parse(
            spec_serialize(
                m.field_map()[8],
                m.spec_msg_type(),
                m.body_pairs(),
                m.spec_groups(),
            ),
        ) == Some(
            (
                m.spec_msg_type(),
                m.field_map().insert(35, m.spec_msg_type()),
                Map::<int, GroupModel>::empty(),
            ),
        ),
        m.field_map().contains_key(35) && m.field_map()[35] == m.spec_msg_type()
            ==> m.field_map().insert(35, m.spec_msg_type()) == m.field_map(),
{
    let pred = |p: (int, Seq<char>)| is_body_pair(p);
    let ps = m.spec_fields();
    let body = m.body_pairs();
    let begin = m.field_map()[8];
    let mt = m.spec_msg_type();
    m.lemma_fields_map_props();
    lemma_filter_body_props(ps, body);
    assert(m.spec_groups() =~= Map::<int, GroupModel>::empty());
    // Body pairs are well-formed and avoid the reserved tags.
    assert forall|i: int| 0 <= i < body.len() implies wire::wf_pair(#[trigger] body[i]) by {
        assert(ps.contains(body[i]));
        let j = choose|j: int| 0 <= j < ps.len() && ps[j] == body[i];
        assert(wire::wf_pair(ps[j]));
    }
    assert forall|i: int| 0 <= i < body.len() implies {
        let t = (#[trigger] body[i]).0;
        t != 8 && t != 9 && t != 10 && t != 35 && t != 268 && t != 269 && t != 270 && t != 271
    } by {
        Seq::lemma_filter_pred(ps, pred, i);
        assert(is_body_pair(body[i]));
        if body[i].0 == 268 || body[i].0 == 269 || body[i].0 == 270 || body[i].0 == 271 {
            assert(ps.contains(body[i]));
            let j = choose|j: int| 0 <= j < ps.len() && ps[j] == body[i];
            assert(m.field_map().contains_key(body[i].0));
        }
    }
    // Begin-string value is admissible.
    assert(wire::wf_value(begin)) by {
        let j = choose|j: int| 0 <= j < ps.len() && (#[trigger] ps[j]).0 == 8;
        assert(m.field_map()[ps[j].0] == ps[j].1);
        assert(wire::wf_pair(ps[j]));
    }
    wire::lemma_parse_of_serialize(begin, mt, body);
    // The parsed field map is the message's own, with tag 35 restored.
    let base = Map::<int, Seq<char>>::empty().insert(8, begin).insert(35, mt);
    wire::lemma_sorted_distinct_generic(body);
    wire::lemma_insert_pairs_props(base, body);
    let parsed = wire::insert_pairs(base, body);
    let target = m.field_map().insert(35, mt);
    assert forall|x: int| true implies #[trigger] parsed.contains_key(x) == target.contains_key(
        x,
    ) by {
        if parsed.contains_key(x) {
            if !base.contains_key(x) || (x != 8 && x != 35) {
                let i = choose|i: int| 0 <= i < body.len() && (#[trigger] body[i]).0 == x;
                assert(ps.contains(body[i]));
                let j = choose|j: int| 0 <= j < ps.len() && ps[j] == body[i];
                assert(m.field_map().contains_key(ps[j].0));
            }
        }
        if target.contains_key(x) && x != 35 && x != 8 {
            assert(m.field_map().contains_key(x));
            let j = choose|j: int| 0 <= j < ps.len() && (#[trigger] ps[j]).0 == x;
            assert(x != 9 && x != 10) by {
                if x == 9 || x == 10 {
                    assert(m.field_map().contains_key(x));
                }
            }
            assert(pred(ps[j]));
            Seq::lemma_filter_contains(ps, pred, j);
            assert(body.contains(ps[j]));
            let i = choose|i: int| 0 <= i < body.len() && body[i] == ps[j];
            assert(body[i].0 == x);
        }
    }
    assert forall|x: int| #[trigger] parsed.contains_key(x) implies parsed[x] == target[x] by {
        if x == 35 {
            assert(!(exists|i: int| 0 <= i < body.len() && (#[trigger] body[i]).0 == 35));
            assert(parsed[35] == base[35]);
        } else if x == 8 {
            assert(!(exists|i: int| 0 <= i < body.len() && (#[trigger] body[i]).0 == 8));
            assert(parsed[8] == base[8]);
            assert(target[8] == m.field_map()[8]);
        } else {
            let i = choose|i: int| 0 <= i < body.len() && (#[trigger] body[i]).0 == x;
            assert(parsed[body[i].0] == body[i].1);
            assert(ps.contains(body[i]));
            let j = choose|j: int| 0 <= j < ps.len() && ps[j] == body[i];
            assert(m.field_map()[ps[j].0] == ps[j].1);
        }
    }
    assert(parsed =~= target);
    if m.field_map().contains_key(35) && m.field_map()[35] == mt {
        assert(m.field_map().insert(35, mt) =~= m.field_map());
    }
}

impl Message {
    /// Membership and lookups of `field_map()` in terms of `spec_fields()`.
    pub proof fn lemma_fields_map_props(&self)
        requires
            self.wf(),
        ensures
            forall|t: int|
                #[trigger] self.field_map().contains_key(t) == exists|j: int|
                    0 <= j < self.spec_fields().len() && (#[trigger] self.spec_fields()[j]).0
                        == t,
            forall|j: int|
                0 <= j < self.spec_fields().len()
                    ==> self.field_map()[(#[trigger] self.spec_fields()[j]).0]
                    == self.spec_fields()[j].1,
            wire::pairs_sorted(self.spec_fields()),
            wire::pairs_wf(self.spec_fields()),
    {
        let ps = self.spec_fields();
        wire::lemma_sorted_distinct_generic(ps);
        wire::lemma_insert_pairs_props(Map::empty(), ps);
    }
}

/// A copy of a formatter value.
fn clone_format(v: &ValueFormat) -> (r: ValueFormat)
    ensures
        r == *v,
{
    match v {
        ValueFormat::DateTime(_) => ValueFormat::DateTime(
            crate::message::formatter::DateTimeFormatter,
        ),
        ValueFormat::Integer(_) => ValueFormat::Integer(crate::message::formatter::IntegerFormatter),
        ValueFormat::Decimal(d) => {
            let p = crate::message::formatter::DecimalFormatter::clone_of(d);
            ValueFormat::Decimal(p)
        },
        ValueFormat::Char(_) => ValueFormat::Char(crate::message::formatter::CharFormatter),
        ValueFormat::Plain(_) => ValueFormat::Plain(crate::message::formatter::StringFormatter),
    }
}

/// Replacing the element at `i` with a same-tag pair updates the denoted map
/// at that tag alone.
proof fn lemma_replace_format(
    ops: Seq<(int, ValueFormat)>,
    nps: Seq<(int, ValueFormat)>,
    i: int,
    t: int,
    v: ValueFormat,
)
    requires
        0 <= i < ops.len(),
        nps == ops.update(i, (t, v)),
        ops[i].0 == t,
        forall|a: int, b: int| 0 <= a < b < ops.len() ==> (#[trigger] ops[a]).0 != (
        #[trigger] ops[b]).0,
    ensures
        forall|a: int, b: int| 0 <= a < b < nps.len() ==> (#[trigger] nps[a]).0 != (
        #[trigger] nps[b]).0,
        map_of_pairs(nps) == map_of_pairs(ops).insert(t, v),
{
    assert forall|a: int, b: int| 0 <= a < b < nps.len() implies (#[trigger] nps[a]).0 != (
    #[trigger] nps[b]).0 by {
        assert(nps[a].0 == ops[a].0);
        assert(nps[b].0 == ops[b].0);
        assert(ops[a].0 != ops[b].0);
    }
    wire::lemma_insert_pairs_props(Map::empty(), ops);
    wire::lemma_insert_pairs_props(Map::empty(), nps);
    assert forall|x: int| true implies #[trigger] map_of_pairs(nps).contains_key(x)
        == map_of_pairs(ops).insert(t, v).contains_key(x) by {
        if map_of_pairs(nps).contains_key(x) {
            let k = choose|k: int| 0 <= k < nps.len() && (#[trigger] nps[k]).0 == x;
            if k != i {
                assert(nps[k] == ops[k]);
            }
        }
        if map_of_pairs(ops).insert(t, v).contains_key(x) {
            if x == t {
                assert(nps[i].0 == t);
            } else {
                let k = choose|k: int| 0 <= k < ops.len() && (#[trigger] ops[k]).0 == x;
                assert(k != i);
                assert(nps[k] == ops[k]);
            }
        }
    }
    assert forall|x: int| #[trigger] map_of_pairs(nps).contains_key(x) implies map_of_pairs(
        nps,
    )[x] == map_of_pairs(ops).insert(t, v)[x] by {
        let k = choose|k: int| 0 <= k < nps.len() && (#[trigger] nps[k]).0 == x;
        assert(map_of_pairs(nps)[nps[k].0] == nps[k].1);
        if k == i {
            assert(x == t);
        } else {
            assert(nps[k] == ops[k]);
            assert(x != t) by {
                if x == t {
                    assert(ops[k].0 == ops[i].0);
                    assert(k != i);
                    if k < i {
                        assert(ops[k].0 != ops[i].0);
                    } else {
                        assert(ops[i].0 != ops[k].0);
                    }
                }
            }
            assert(map_of_pairs(ops)[ops[k].0] == ops[k].1);
        }
    }
    assert(map_of_pairs(nps) =~= map_of_pairs(ops).insert(t, v));
}

/// The same, for group pairs.
proof fn lemma_replace_group(
    ops: Seq<(int, GroupModel)>,
    nps: Seq<(int, GroupModel)>,
    i: int,
    t: int,
    v: GroupModel,
)
    requires
        0 <= i < ops.len(),
        nps == ops.update(i, (t, v)),
        ops[i].0 == t,
        forall|a: int, b: int| 0 <= a < b < ops.len() ==> (#[trigger] ops[a]).0 != (
        #[trigger] ops[b]).0,
    ensures
        forall|a: int, b: int| 0 <= a < b < nps.len() ==> (#[trigger] nps[a]).0 != (
        #[trigger] nps[b]).0,
        map_of_pairs(nps) == map_of_pairs(ops).insert(t, v),
{
    assert forall|a: int, b: int| 0 <= a < b < nps.len() implies (#[trigger] nps[a]).0 != (
    #[trigger] nps[b]).0 by {
        assert(nps[a].0 == ops[a].0);
        assert(nps[b].0 == ops[b].0);
        assert(ops[a].0 != ops[b].0);
    }
    wire::lemma_insert_pairs_props(Map::empty(), ops);
    wire::lemma_insert_pairs_props(Map::empty(), nps);
    assert forall|x: int| true implies #[trigger] map_of_pairs(nps).contains_key(x)
        == map_of_pairs(ops).insert(t, v).contains_key(x) by {
        if map_of_pairs(nps).contains_key(x) {
            let k = choose|k: int| 0 <= k < nps.len() && (#[trigger] nps[k]).0 == x;
            if k != i {
                assert(nps[k] == ops[k]);
            }
        }
        if map_of_pairs(ops).insert(t, v).contains_key(x) {
            if x == t {
                assert(nps[i].0 == t);
            } else {
                let k = choose|k: int| 0 <= k < ops.len() && (#[trigger] ops[k]).0 == x;
                assert(k != i);
                assert(nps[k] == ops[k]);
            }
        }
    }
    assert forall|x: int| #[trigger] map_of_pairs(nps).contains_key(x) implies map_of_pairs(
        nps,
    )[x] == map_of_pairs(ops).insert(t, v)[x] by {
        let k = choose|k: int| 0 <= k < nps.len() && (#[trigger] nps[k]).0 == x;
        assert(map_of_pairs(nps)[nps[k].0] == nps[k].1);
        if k == i {
            assert(x == t);
        } else {
            assert(nps[k] == ops[k]);
            assert(x != t) by {
                if x == t {
                    if k < i {
                        assert(ops[k].0 != ops[i].0);
                    } else {
                        assert(ops[i].0 != ops[k].0);
                    }
                }
            }
            assert(map_of_pairs(ops)[ops[k].0] == ops[k].1);
        }
    }
    assert(map_of_pairs(nps) =~= map_of_pairs(ops).insert(t, v));
}

} // verus!
