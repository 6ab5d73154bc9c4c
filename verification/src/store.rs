//! The sequenced message store: a per-session append log of sent and
//! received messages, versioned transactions, and the sequence-number
//! authority.

use vstd::prelude::*;

use crate::error::FixError;
use crate::message::Message;
use crate::text::str_eq;

verus! {

/// One stored record: a sequence number, the version of the write that
/// persisted it, and the message.
pub struct StoredEntry {
    pub seq: i32,
    pub version: u64,
    pub msg: Message,
}

/// A pending transaction: the version it will commit under and the records
/// buffered so far.
pub struct Transaction {
    pub version: u64,
    pub pending: Vec<(i32, Message)>,
}

struct SessionBucket {
    id: String,
    entries: Vec<StoredEntry>,
    next_seq: i32,
    tx: Option<Transaction>,
}

/// The store: one append log per session and a process-wide version
/// counter.
pub struct MessageStore {
    buckets: Vec<SessionBucket>,
    version_counter: u64,
}

/// Writes one log line: the sequence number, the version and the serialized
/// frame, separated by bars.
pub fn encode_stored_line(seq: i32, version: u64, msg: &Message) -> (r: Result<String, FixError>)
    requires
        msg.wf(),
        seq >= 0,
    ensures
        match r {
            Ok(s) => msg.field_map().contains_key(8) && s@ == crate::text::dec_digits_of(
                seq as nat,
            ) + "|"@ + crate::text::dec_digits_of(version as nat) + "|"@
                + crate::message::wire::spec_serialize(
                msg.field_map()[8],
                msg.spec_msg_type(),
                msg.body_pairs(),
                msg.spec_groups(),
            ),
            Err(e) => !msg.field_map().contains_key(8) && e is ParseError,
        },
{
    let frame = match msg.to_string() {
        Ok(f) => f,
        Err(e) => {
            return Err(e);
        },
    };
    let mut out = crate::text::u64_to_string(seq as u64);
    proof {
        reveal_strlit("|");
    }
    out.append("|");
    out.append(crate::text::u64_to_string(version).as_str());
    out.append("|");
    out.append(frame.as_str());
    Ok(out)
}

/// What a log line denotes: the sequence number before the first bar, the
/// version between the bars, and the parse outcome of the frame after the
/// second bar; nothing when any part is malformed.
pub open spec fn spec_stored_line(s: Seq<char>) -> Option<
    (int, int, (Seq<char>, Map<int, Seq<char>>)),
> {
    let b1 = crate::text::spec_find(s, '|');
    if b1 <= 0 {
        None
    } else {
        let rest = s.skip(b1 + 1);
        let b2r = crate::text::spec_find(rest, '|');
        if b2r < 0 {
            None
        } else {
            let b2 = b1 + 1 + b2r;
            let d1 = s.subrange(0, b1);
            let d2 = s.subrange(b1 + 1, b2);
            if crate::text::is_digit_seq(d1) && crate::text::val_of_digits(d1) <= i32::MAX as int
                && d2.len() > 0 && crate::text::is_digit_seq(d2) && crate::text::val_of_digits(d2)
                <= u64::MAX as int && vstd::utf8::is_ascii_chars(s) {
                match crate::message::wire::spec_parse(s.subrange(b2 + 1, s.len() as int)) {
                    Some(p) => Some(
                        (crate::text::val_of_digits(d1), crate::text::val_of_digits(d2), (
                            p.0,
                            p.1,
                        )),
                    ),
                    None => None,
                }
            } else {
                None
            }
        }
    }
}

/// The records a list of log lines denotes, in order, unreadable lines
/// contributing nothing.
pub open spec fn spec_loaded_records(lines: Seq<Seq<char>>) -> Seq<
    (int, int, (Seq<char>, Map<int, Seq<char>>)),
>
    decreases lines.len(),
{
    if lines.len() == 0 {
        Seq::empty()
    } else {
        (match spec_stored_line(lines[0]) {
            Some(rec) => seq![rec],
            None => Seq::<(int, int, (Seq<char>, Map<int, Seq<char>>))>::empty(),
        }) + spec_loaded_records(lines.drop_first())
    }
}

/// The greatest sequence number among the records, zero for none.
pub open spec fn spec_max_seq(recs: Seq<(int, int, (Seq<char>, Map<int, Seq<char>>))>) -> int
    decreases recs.len(),
{
    if recs.len() == 0 {
        0
    } else {
        let rest = spec_max_seq(recs.drop_first());
        if recs[0].0 > rest {
            recs[0].0
        } else {
            rest
        }
    }
}

/// The greatest version among the records, zero for none.
pub open spec fn spec_max_version(recs: Seq<(int, int, (Seq<char>, Map<int, Seq<char>>))>) -> int
    decreases recs.len(),
{
    if recs.len() == 0 {
        0
    } else {
        let rest = spec_max_version(recs.drop_first());
        if recs[0].1 > rest {
            recs[0].1
        } else {
            rest
        }
    }
}

proof fn lemma_loaded_records_snoc(lines: Seq<Seq<char>>, x: Seq<char>)
    ensures
        spec_loaded_records(lines.push(x)) == spec_loaded_records(lines) + (match spec_stored_line(
            x,
        ) {
            Some(rec) => seq![rec],
            None => Seq::<(int, int, (Seq<char>, Map<int, Seq<char>>))>::empty(),
        }),
    decreases lines.len(),
{
    let tail = (match spec_stored_line(x) {
        Some(rec) => seq![rec],
        None => Seq::<(int, int, (Seq<char>, Map<int, Seq<char>>))>::empty(),
    });
    if lines.len() == 0 {
        assert(lines.push(x) =~= seq![x]);
        assert(seq![x][0] == x);
        assert(seq![x].drop_first() =~= Seq::<Seq<char>>::empty());
        assert(spec_loaded_records(seq![x]) == (match spec_stored_line(seq![x][0]) {
            Some(rec) => seq![rec],
            None => Seq::<(int, int, (Seq<char>, Map<int, Seq<char>>))>::empty(),
        }) + spec_loaded_records(seq![x].drop_first()));
        assert(spec_loaded_records(Seq::<Seq<char>>::empty()) == Seq::<
            (int, int, (Seq<char>, Map<int, Seq<char>>)),
        >::empty());
        assert(tail + Seq::<(int, int, (Seq<char>, Map<int, Seq<char>>))>::empty() =~= tail);
        assert(spec_loaded_records(lines) + tail =~= tail);
    } else {
        assert(lines.push(x)[0] == lines[0]);
        assert(lines.push(x).drop_first() =~= lines.drop_first().push(x));
        lemma_loaded_records_snoc(lines.drop_first(), x);
        let head = (match spec_stored_line(lines[0]) {
            Some(rec) => seq![rec],
            None => Seq::<(int, int, (Seq<char>, Map<int, Seq<char>>))>::empty(),
        });
        assert(head + (spec_loaded_records(lines.drop_first()) + tail) =~= (head
            + spec_loaded_records(lines.drop_first())) + tail);
    }
}

proof fn lemma_max_snoc(recs: Seq<(int, int, (Seq<char>, Map<int, Seq<char>>))>, rec: (
    int,
    int,
    (Seq<char>, Map<int, Seq<char>>),
))
    ensures
        spec_max_seq(recs.push(rec)) == if rec.0 > spec_max_seq(recs) {
            rec.0
        } else {
            spec_max_seq(recs)
        },
        spec_max_version(recs.push(rec)) == if rec.1 > spec_max_version(recs) {
            rec.1
        } else {
            spec_max_version(recs)
        },
    decreases recs.len(),
{
    if recs.len() == 0 {
        assert(recs.push(rec) =~= seq![rec]);
        assert(seq![rec][0] == rec);
        assert(seq![rec].drop_first() =~= Seq::<
            (int, int, (Seq<char>, Map<int, Seq<char>>)),
        >::empty());
        assert(spec_max_seq(seq![rec].drop_first()) == 0);
        assert(spec_max_version(seq![rec].drop_first()) == 0);
        assert(spec_max_seq(seq![rec]) == if rec.0 > 0 {
            rec.0
        } else {
            0int
        });
        assert(spec_max_version(seq![rec]) == if rec.1 > 0 {
            rec.1
        } else {
            0int
        });
    } else {
        assert(recs.push(rec)[0] == recs[0]);
        assert(recs.push(rec).drop_first() =~= recs.drop_first().push(rec));
        lemma_max_snoc(recs.drop_first(), rec);
    }
}

/// Reads one log line back: the two bar-separated numbers and the parsed
/// frame, exactly as `spec_stored_line` states; a malformed line reads as
/// nothing.
pub fn parse_stored_line(line: &str) -> (r: Option<(i32, u64, Message)>)
    ensures
        match r {
            Some((seq, version, m)) => {
                &&& (spec_stored_line(line@) matches Some(rec) && seq as int == rec.0
                    && version as int == rec.1 && m.spec_msg_type() == rec.2.0 && m.field_map()
                    == rec.2.1)
                &&& m.wf()
                &&& seq >= 0
            },
            None => spec_stored_line(line@) is None,
        },
{
    let len = line.unicode_len();
    let b1 = match crate::text::find_char_from(line, '|', 0) {
        Some(i) => i,
        None => {
            proof {
                crate::text::lemma_spec_find_none(line@, '|');
            }
            return None;
        },
    };
    proof {
        crate::text::lemma_spec_find_is_first(line@, '|', b1 as int);
    }
    if b1 == 0 {
        return None;
    }
    let ghost rest = line@.skip(b1 + 1);
    proof {
        assert(forall|j: int| 0 <= j < rest.len() ==> #[trigger] rest[j] == line@[j + b1 + 1]);
    }
    if b1 + 1 >= len {
        proof {
            assert(rest.len() == 0);
            crate::text::lemma_spec_find_none(rest, '|');
        }
        return None;
    }
    let b2 = match crate::text::find_char_from(line, '|', b1 + 1) {
        Some(i) => i,
        None => {
            proof {
                crate::text::lemma_spec_find_none(rest, '|');
            }
            return None;
        },
    };
    proof {
        crate::text::lemma_spec_find_is_first(rest, '|', b2 - b1 - 1);
        assert(crate::text::spec_find(rest, '|') == b2 - b1 - 1);
    }
    let seq = match crate::text::parse_u32_range(line, 0, b1) {
        Some(v) => {
            if v <= i32::MAX as u32 {
                v as i32
            } else {
                return None;
            }
        },
        None => {
            return None;
        },
    };
    let version = match crate::text::parse_u64_range(line, b1 + 1, b2) {
        Some(v) => v,
        None => {
            return None;
        },
    };
    if !line.is_ascii() {
        return None;
    }
    let frame = line.substring_ascii(b2 + 1, len);
    proof {
        assert(frame@ == line@.subrange(b2 + 1 as int, len as int));
        assert(vstd::utf8::is_ascii_chars(frame@)) by {
            assert(forall|j: int|
                0 <= j < frame@.len() ==> #[trigger] frame@[j] == line@[j + b2 + 1]);
        }
    }
    match crate::message::parser::MessageParser::parse(frame) {
        Ok(m) => {
            proof {
                let p = crate::message::wire::spec_parse(frame@)->0;
                assert(spec_stored_line(line@) == Some(
                    (seq as int, version as int, (p.0, p.1)),
                ));
            }
            Some((seq, version, m))
        },
        Err(_) => None,
    }
}

/// The persistence round trip: an encoded log line splits at its two bars
/// back into the sequence number, the version, and a frame that parses to
/// the original message's type and fields. Together with the codec round
/// trip this makes a reload reproduce exactly the (seq, version, message)
/// records that were persisted.
pub proof fn lemma_stored_line_round_trip(seq: i32, version: u64, m: &Message)
    requires
        m.wf(),
        seq >= 0,
        m.field_map().contains_key(8),
        crate::message::wire::wf_value(m.spec_msg_type()),
        m.spec_groups_seq() == Seq::<(int, crate::message::wire::GroupModel)>::empty(),
        !m.field_map().contains_key(9),
        !m.field_map().contains_key(10),
        !m.field_map().contains_key(268),
        !m.field_map().contains_key(269),
        !m.field_map().contains_key(270),
        !m.field_map().contains_key(271),
    ensures
        ({
            let d1 = crate::text::dec_digits_of(seq as nat);
            let d2 = crate::text::dec_digits_of(version as nat);
            let frame = crate::message::wire::spec_serialize(
                m.field_map()[8],
                m.spec_msg_type(),
                m.body_pairs(),
                m.spec_groups(),
            );
            let line = d1 + "|"@ + d2 + "|"@ + frame;
            let b1 = d1.len() as int;
            let b2 = d1.len() + 1 + d2.len();
            &&& line[b1] == '|' && line[b2 as int] == '|'
            &&& crate::text::val_of_digits(line.subrange(0, b1)) == seq as int
            &&& crate::text::val_of_digits(line.subrange(b1 + 1, b2 as int)) == version as int
            &&& crate::message::wire::spec_parse(line.subrange(b2 as int + 1, line.len() as int))
                == Some(
                (
                    m.spec_msg_type(),
                    m.field_map().insert(35, m.spec_msg_type()),
                    Map::<int, crate::message::wire::GroupModel>::empty(),
                ),
            )
        }),
{
    let d1 = crate::text::dec_digits_of(seq as nat);
    let d2 = crate::text::dec_digits_of(version as nat);
    let frame = crate::message::wire::spec_serialize(
        m.field_map()[8],
        m.spec_msg_type(),
        m.body_pairs(),
        m.spec_groups(),
    );
    reveal_strlit("|");
    let line = d1 + "|"@ + d2 + "|"@ + frame;
    let b1 = d1.len() as int;
    let b2 = d1.len() + 1 + d2.len();
    crate::text::lemma_dec_digits_wf(seq as nat);
    crate::text::lemma_dec_digits_wf(version as nat);
    crate::text::lemma_val_of_dec_digits(seq as nat);
    crate::text::lemma_val_of_dec_digits(version as nat);
    assert(line[b1] == '|');
    assert(line[b2 as int] == '|');
    assert(line.subrange(0, b1) =~= d1);
    assert(line.subrange(b1 + 1, b2 as int) =~= d2);
    assert(line.subrange(b2 as int + 1, line.len() as int) =~= frame);
    crate::message::lemma_parse_serialize_round_trip(*m);
}

/// The records present in `[start, end]`, each read by `spec_lookup`, in
/// ascending sequence order; absent numbers contribute nothing.
pub open spec fn spec_range(es: Seq<StoredEntry>, start: int, end: int) -> Seq<StoredEntry>
    decreases end - start + 1,
{
    if start > end {
        Seq::empty()
    } else {
        (match spec_lookup(es, start) {
            Some(e) => seq![e],
            None => Seq::<StoredEntry>::empty(),
        }) + spec_range(es, start + 1, end)
    }
}

/// Extending a range by its upper end appends that number's record.
pub proof fn lemma_spec_range_snoc(es: Seq<StoredEntry>, start: int, end: int)
    requires
        start <= end,
    ensures
        spec_range(es, start, end) == spec_range(es, start, end - 1) + (match spec_lookup(
            es,
            end,
        ) {
            Some(e) => seq![e],
            None => Seq::<StoredEntry>::empty(),
        }),
    decreases end - start,
{
    let tailcase = (match spec_lookup(es, end) {
        Some(e) => seq![e],
        None => Seq::<StoredEntry>::empty(),
    });
    let headcase = (match spec_lookup(es, start) {
        Some(e) => seq![e],
        None => Seq::<StoredEntry>::empty(),
    });
    if start == end {
        assert(spec_range(es, start, end - 1) == Seq::<StoredEntry>::empty());
        assert(spec_range(es, start + 1, end) == Seq::<StoredEntry>::empty());
        assert(spec_range(es, start, end) == headcase + Seq::<StoredEntry>::empty());
        assert(headcase + Seq::<StoredEntry>::empty() =~= Seq::<StoredEntry>::empty()
            + tailcase);
    } else {
        lemma_spec_range_snoc(es, start + 1, end);
        assert(spec_range(es, start, end) == headcase + spec_range(es, start + 1, end));
        assert(spec_range(es, start, end - 1) == headcase + spec_range(es, start + 1, end - 1));
        assert(headcase + (spec_range(es, start + 1, end - 1) + tailcase) =~= (headcase
            + spec_range(es, start + 1, end - 1)) + tailcase);
    }
}

/// The record a sequence number denotes: the latest write under it.
pub open spec fn spec_lookup(es: Seq<StoredEntry>, seq: int) -> Option<StoredEntry>
    decreases es.len(),
{
    if es.len() == 0 {
        None
    } else if es.last().seq == seq {
        Some(es.last())
    } else {
        spec_lookup(es.drop_last(), seq)
    }
}

/// Every record a lookup can return is one of the log's records.
pub proof fn lemma_lookup_member(es: Seq<StoredEntry>, s: int)
    requires
        spec_lookup(es, s) is Some,
    ensures
        exists|j: int| 0 <= j < es.len() && es[j] == spec_lookup(es, s)->0,
    decreases es.len(),
{
    if es.last().seq == s {
        assert(es[es.len() - 1] == es.last());
    } else {
        lemma_lookup_member(es.drop_last(), s);
        let j = choose|j: int|
            0 <= j < es.drop_last().len() && es.drop_last()[j] == spec_lookup(es.drop_last(), s)->0;
        assert(es[j] == es.drop_last()[j]);
    }
}

/// A record appended to a log is found under its sequence number, as long
/// as no later appended record shadows it.
pub proof fn lemma_lookup_after_append(es: Seq<StoredEntry>, extra: Seq<StoredEntry>, k: int)
    requires
        0 <= k < extra.len(),
        forall|j: int| k < j < extra.len() ==> (#[trigger] extra[j]).seq != extra[k].seq,
    ensures
        spec_lookup(es + extra, extra[k].seq as int) == Some(extra[k]),
    decreases extra.len(),
{
    let all = es + extra;
    if k == extra.len() - 1 {
        assert(all.last() == extra[k]);
    } else {
        assert(all.last() == extra[extra.len() - 1]);
        assert(extra[extra.len() - 1].seq != extra[k].seq);
        assert(all.drop_last() =~= es + extra.drop_last());
        assert(forall|j: int|
            0 <= j < extra.len() - 1 ==> #[trigger] extra.drop_last()[j] == extra[j]);
        lemma_lookup_after_append(es, extra.drop_last(), k);
        assert(extra.drop_last()[k] == extra[k]);
    }
}

/// After a commit, every record the transaction buffered — under a number
/// no later buffered record reuses — is observable under that number with
/// the transaction's version, and that version is newer than the version
/// of anything the session's log returned before the commit.
pub proof fn lemma_commit_visibility(
    pre: &MessageStore,
    post: &MessageStore,
    id: Seq<char>,
    tx: Transaction,
    k: int,
)
    requires
        pre.spec_tx(id) == Some(tx),
        post.spec_entries(id) == pre.spec_entries(id) + tx.pending@.map_values(
            |p: (i32, Message)| StoredEntry { seq: p.0, version: tx.version, msg: p.1 },
        ),
        0 <= k < tx.pending@.len(),
        forall|j: int|
            k < j < tx.pending@.len() ==> (#[trigger] tx.pending@[j]).0 != tx.pending@[k].0,
        forall|j: int|
            0 <= j < pre.spec_entries(id).len() ==> (#[trigger] pre.spec_entries(id)[j]).version
                < tx.version,
    ensures
        spec_lookup(post.spec_entries(id), tx.pending@[k].0 as int) == Some(
            StoredEntry { seq: tx.pending@[k].0, version: tx.version, msg: tx.pending@[k].1 },
        ),
        forall|s: int|
            (#[trigger] spec_lookup(pre.spec_entries(id), s)) is Some ==> spec_lookup(
                pre.spec_entries(id),
                s,
            )->0.version < tx.version,
{
    let extra = tx.pending@.map_values(
        |p: (i32, Message)| StoredEntry { seq: p.0, version: tx.version, msg: p.1 },
    );
    assert(extra[k] == StoredEntry {
        seq: tx.pending@[k].0,
        version: tx.version,
        msg: tx.pending@[k].1,
    });
    assert forall|j: int| k < j < extra.len() implies (#[trigger] extra[j]).seq != extra[k].seq by {
        assert(extra[j] == StoredEntry {
            seq: tx.pending@[j].0,
            version: tx.version,
            msg: tx.pending@[j].1,
        });
        assert(tx.pending@[j].0 != tx.pending@[k].0);
    }
    lemma_lookup_after_append(pre.spec_entries(id), extra, k);
    assert forall|s: int| (#[trigger] spec_lookup(pre.spec_entries(id), s)) is Some implies
        spec_lookup(pre.spec_entries(id), s)->0.version < tx.version by {
        lemma_lookup_member(pre.spec_entries(id), s);
        let j = choose|j: int|
            0 <= j < pre.spec_entries(id).len() && pre.spec_entries(id)[j] == spec_lookup(
                pre.spec_entries(id),
                s,
            )->0;
        assert(pre.spec_entries(id)[j].version < tx.version);
    }
}

impl MessageStore {
    spec fn spec_bucket_index_of(buckets: Seq<SessionBucket>, id: Seq<char>) -> int
        decreases buckets.len(),
    {
        if buckets.len() == 0 {
            -1
        } else if buckets[0].id@ == id {
            0
        } else {
            let r = Self::spec_bucket_index_of(buckets.drop_first(), id);
            if r < 0 {
                -1
            } else {
                r + 1
            }
        }
    }

    pub closed spec fn spec_has_session(&self, id: Seq<char>) -> bool {
        Self::spec_bucket_index_of(self.buckets@, id) >= 0
    }

    /// The records stored for a session, in write order.
    pub closed spec fn spec_entries(&self, id: Seq<char>) -> Seq<StoredEntry> {
        let i = Self::spec_bucket_index_of(self.buckets@, id);
        if i < 0 {
            Seq::empty()
        } else {
            self.buckets@[i].entries@
        }
    }

    /// The open transaction for a session, if any.
    pub closed spec fn spec_tx(&self, id: Seq<char>) -> Option<Transaction> {
        let i = Self::spec_bucket_index_of(self.buckets@, id);
        if i < 0 {
            None
        } else {
            self.buckets@[i].tx
        }
    }

    /// The next outbound sequence number the store would hand out.
    pub closed spec fn spec_next_seq(&self, id: Seq<char>) -> int {
        let i = Self::spec_bucket_index_of(self.buckets@, id);
        if i < 0 {
            1
        } else {
            self.buckets@[i].next_seq as int
        }
    }

    /// The process-wide version counter.
    pub closed spec fn spec_version_counter(&self) -> int {
        self.version_counter as int
    }

    pub closed spec fn wf(&self) -> bool {
        forall|i: int, j: int|
            0 <= i < j < self.buckets@.len() ==> (#[trigger] self.buckets@[i]).id@ != (
            #[trigger] self.buckets@[j]).id@
    }

    /// Every stored or buffered message is well-formed.
    pub closed spec fn msgs_wf(&self) -> bool {
        &&& forall|i: int, j: int|
            0 <= i < self.buckets@.len() && 0 <= j < (#[trigger] self.buckets@[i]).entries@.len()
                ==> (#[trigger] self.buckets@[i].entries@[j]).msg.wf()
        &&& forall|i: int, j: int|
            0 <= i < self.buckets@.len() && self.buckets@[i].tx is Some && 0 <= j
                < self.buckets@[i].tx->0.pending@.len() ==> (#[trigger] self.buckets@[i].tx->0.pending@[j]).1.wf()
    }

    pub fn new() -> (r: MessageStore)
        ensures
            r.wf(),
            r.msgs_wf(),
            r.spec_version_counter() == 0,
            forall|id: Seq<char>| !#[trigger] r.spec_has_session(id),
            forall|id: Seq<char>| #[trigger] r.spec_entries(id) == Seq::<StoredEntry>::empty(),
            forall|id: Seq<char>| #[trigger] r.spec_tx(id) is None,
            forall|id: Seq<char>| #[trigger] r.spec_next_seq(id) == 1,
    {
        MessageStore { buckets: Vec::new(), version_counter: 0 }
    }

    /// The process-wide version counter's current value.
    pub fn version_counter(&self) -> (r: u64)
        ensures
            r as int == self.spec_version_counter(),
    {
        self.version_counter
    }

    /// The position of a session's bucket.
    fn bucket_index(&self, session_id: &str) -> (r: Option<usize>)
        ensures
            match r {
                Some(i) => i < self.buckets@.len() && Self::spec_bucket_index_of(
                    self.buckets@,
                    session_id@,
                ) == i as int && self.buckets@[i as int].id@ == session_id@,
                None => Self::spec_bucket_index_of(self.buckets@, session_id@) < 0,
            },
    {
        let n = self.buckets.len();
        let mut i: usize = 0;
        while i < n
            invariant
                0 <= i <= n,
                n == self.buckets@.len(),
                forall|j: int| 0 <= j < i ==> (#[trigger] self.buckets@[j]).id@ != session_id@,
            decreases n - i,
        {
            if str_eq(self.buckets[i].id.as_str(), session_id) {
                proof {
                    Self::lemma_bucket_index_is(self.buckets@, session_id@, i as int);
                }
                return Some(i);
            }
            i = i + 1;
        }
        proof {
            Self::lemma_bucket_index_none(self.buckets@, session_id@);
        }
        None
    }

    proof fn lemma_bucket_index_is(buckets: Seq<SessionBucket>, id: Seq<char>, i: int)
        requires
            0 <= i < buckets.len(),
            buckets[i].id@ == id,
            forall|j: int| 0 <= j < i ==> (#[trigger] buckets[j]).id@ != id,
        ensures
            Self::spec_bucket_index_of(buckets, id) == i,
        decreases buckets.len(),
    {
        if i > 0 {
            let rest = buckets.drop_first();
            assert(forall|j: int| 0 <= j < rest.len() ==> #[trigger] rest[j] == buckets[j + 1]);
            Self::lemma_bucket_index_is(rest, id, i - 1);
        }
    }

    proof fn lemma_bucket_index_none(buckets: Seq<SessionBucket>, id: Seq<char>)
        requires
            forall|j: int| 0 <= j < buckets.len() ==> (#[trigger] buckets[j]).id@ != id,
        ensures
            Self::spec_bucket_index_of(buckets, id) < 0,
        decreases buckets.len(),
    {
        if buckets.len() > 0 {
            let rest = buckets.drop_first();
            assert(forall|j: int| 0 <= j < rest.len() ==> #[trigger] rest[j] == buckets[j + 1]);
            Self::lemma_bucket_index_none(rest, id);
        }
    }

    /// Entries, transaction and counter of every other session are untouched
    /// when one bucket changes in place.
    proof fn lemma_update_frame(&self, other: &Self, i: int, id: Seq<char>)
        requires
            self.wf(),
            0 <= i < self.buckets@.len(),
            self.buckets@[i].id@ == id,
            other.buckets@.len() == self.buckets@.len(),
            other.buckets@[i].id@ == id,
            forall|j: int|
                0 <= j < self.buckets@.len() && j != i ==> #[trigger] other.buckets@[j]
                    == self.buckets@[j],
        ensures
            other.wf(),
            forall|x: Seq<char>|
                x != id ==> #[trigger] other.spec_entries(x) == self.spec_entries(x),
            forall|x: Seq<char>| x != id ==> #[trigger] other.spec_tx(x) == self.spec_tx(x),
            forall|x: Seq<char>|
                x != id ==> #[trigger] other.spec_next_seq(x) == self.spec_next_seq(x),
            Self::spec_bucket_index_of(other.buckets@, id) == i,
            forall|x: Seq<char>|
                #[trigger] other.spec_has_session(x) == self.spec_has_session(x) || x == id,
    {
        assert forall|a: int, b: int| 0 <= a < b < other.buckets@.len() implies (
        #[trigger] other.buckets@[a]).id@ != (#[trigger] other.buckets@[b]).id@ by {
            if a != i && b != i {
                assert(other.buckets@[a] == self.buckets@[a]);
                assert(other.buckets@[b] == self.buckets@[b]);
            } else if a == i {
                assert(other.buckets@[b] == self.buckets@[b]);
                assert(self.buckets@[i].id@ != self.buckets@[b].id@);
            } else {
                assert(other.buckets@[a] == self.buckets@[a]);
                assert(self.buckets@[a].id@ != self.buckets@[i].id@);
            }
        }
        assert(forall|j: int| 0 <= j < i ==> (#[trigger] self.buckets@[j]).id@ != id);
        assert forall|j: int| 0 <= j < i implies (#[trigger] other.buckets@[j]).id@ != id by {
            assert(other.buckets@[j] == self.buckets@[j]);
        }
        Self::lemma_bucket_index_is(other.buckets@, id, i);
        assert forall|x: Seq<char>| x != id implies Self::spec_bucket_index_of(
            other.buckets@,
            x,
        ) == Self::spec_bucket_index_of(self.buckets@, x) by {
            self.lemma_frame_one(other, i, id, x);
        }
        assert forall|x: Seq<char>| x != id implies #[trigger] other.spec_entries(x)
            == self.spec_entries(x) by {
            self.lemma_frame_one(other, i, id, x);
            Self::lemma_bucket_index_props(self.buckets@, x);
            let oi = Self::spec_bucket_index_of(self.buckets@, x);
            if oi >= 0 {
                assert(self.buckets@[oi].id@ == x);
                assert(oi != i);
                assert(other.buckets@[oi] == self.buckets@[oi]);
            }
        }
        assert forall|x: Seq<char>| x != id implies #[trigger] other.spec_tx(x) == self.spec_tx(
            x,
        ) by {
            self.lemma_frame_one(other, i, id, x);
            Self::lemma_bucket_index_props(self.buckets@, x);
            let oi = Self::spec_bucket_index_of(self.buckets@, x);
            if oi >= 0 {
                assert(self.buckets@[oi].id@ == x);
                assert(oi != i);
                assert(other.buckets@[oi] == self.buckets@[oi]);
            }
        }
        assert forall|x: Seq<char>| x != id implies #[trigger] other.spec_next_seq(x)
            == self.spec_next_seq(x) by {
            self.lemma_frame_one(other, i, id, x);
            Self::lemma_bucket_index_props(self.buckets@, x);
            let oi = Self::spec_bucket_index_of(self.buckets@, x);
            if oi >= 0 {
                assert(self.buckets@[oi].id@ == x);
                assert(oi != i);
                assert(other.buckets@[oi] == self.buckets@[oi]);
            }
        }
        assert forall|x: Seq<char>| true implies #[trigger] other.spec_has_session(x)
            == self.spec_has_session(x) || x == id by {
            if x != id {
                self.lemma_frame_one(other, i, id, x);
            }
        }
    }

    /// The bucket position of any other session is unchanged by an
    /// in-place update of one bucket.
    proof fn lemma_frame_one(&self, other: &Self, i: int, id: Seq<char>, x: Seq<char>)
        requires
            self.wf(),
            0 <= i < self.buckets@.len(),
            self.buckets@[i].id@ == id,
            other.buckets@.len() == self.buckets@.len(),
            other.buckets@[i].id@ == id,
            forall|j: int|
                0 <= j < self.buckets@.len() && j != i ==> #[trigger] other.buckets@[j]
                    == self.buckets@[j],
            x != id,
        ensures
            Self::spec_bucket_index_of(other.buckets@, x) == Self::spec_bucket_index_of(
                self.buckets@,
                x,
            ),
    {
        let oi = Self::spec_bucket_index_of(self.buckets@, x);
        Self::lemma_bucket_index_props(self.buckets@, x);
        if oi >= 0 {
            assert(self.buckets@[oi].id@ == x);
            assert(oi != i);
            assert(other.buckets@[oi] == self.buckets@[oi]);
            assert forall|j: int| 0 <= j < oi implies (#[trigger] other.buckets@[j]).id@ != x by {
                if j != i {
                    assert(other.buckets@[j] == self.buckets@[j]);
                }
            }
            Self::lemma_bucket_index_is(other.buckets@, x, oi);
        } else {
            assert forall|j: int| 0 <= j < other.buckets@.len() implies (
            #[trigger] other.buckets@[j]).id@ != x by {
                if j != i {
                    assert(other.buckets@[j] == self.buckets@[j]);
                }
            }
            Self::lemma_bucket_index_none(other.buckets@, x);
        }
    }

    proof fn lemma_bucket_index_props(buckets: Seq<SessionBucket>, id: Seq<char>)
        ensures
            Self::spec_bucket_index_of(buckets, id) >= 0 ==> {
                &&& Self::spec_bucket_index_of(buckets, id) < buckets.len()
                &&& buckets[Self::spec_bucket_index_of(buckets, id)].id@ == id
                &&& forall|j: int|
                    0 <= j < Self::spec_bucket_index_of(buckets, id) ==> (
                    #[trigger] buckets[j]).id@ != id
            },
            Self::spec_bucket_index_of(buckets, id) < 0 ==> forall|j: int|
                0 <= j < buckets.len() ==> (#[trigger] buckets[j]).id@ != id,
        decreases buckets.len(),
    {
        if buckets.len() > 0 && buckets[0].id@ != id {
            let rest = buckets.drop_first();
            assert(forall|j: int| 0 <= j < rest.len() ==> #[trigger] rest[j] == buckets[j + 1]);
            Self::lemma_bucket_index_props(rest, id);
            let r = Self::spec_bucket_index_of(rest, id);
            if r >= 0 {
                assert(Self::spec_bucket_index_of(buckets, id) == r + 1);
                assert(buckets[r + 1] == rest[r]);
                assert forall|j: int| 0 <= j < r + 1 implies (#[trigger] buckets[j]).id@ != id by {
                    if j > 0 {
                        assert(buckets[j] == rest[j - 1]);
                    }
                }
            } else {
                assert forall|j: int| 0 <= j < buckets.len() implies (#[trigger] buckets[j]).id@
                    != id by {
                    if j > 0 {
                        assert(buckets[j] == rest[j - 1]);
                    }
                }
            }
        }
    }

    /// Opens a transaction for a session; fails when one is already open or
    /// the version space is exhausted.
    #[verifier::rlimit(100)]
    #[verifier::spinoff_prover]
    pub fn begin_transaction(&mut self, session_id: &str) -> (r: Result<(), FixError>)
        requires
            old(self).wf(),
            old(self).msgs_wf(),
        ensures
            final(self).wf(),
            final(self).msgs_wf(),
            r is Ok ==> old(self).spec_tx(session_id@) is None,
            r is Ok ==> old(self).spec_version_counter() < u64::MAX,
            r is Ok ==> final(self).spec_version_counter() == old(self).spec_version_counter()
                + 1,
            r is Ok ==> (final(self).spec_tx(session_id@) matches Some(tx) && tx.version as int
                == final(self).spec_version_counter() && tx.pending@.len() == 0),
            r is Ok ==> final(self).spec_entries(session_id@) == old(self).spec_entries(
                session_id@,
            ),
            r is Ok ==> final(self).spec_next_seq(session_id@) == old(self).spec_next_seq(
                session_id@,
            ),
            r is Ok ==> forall|x: Seq<char>|
                x != session_id@ ==> #[trigger] final(self).spec_entries(x) == old(
                    self,
                ).spec_entries(x),
            r is Ok ==> forall|x: Seq<char>|
                x != session_id@ ==> #[trigger] final(self).spec_tx(x) == old(self).spec_tx(x),
            r is Err ==> (old(self).spec_tx(session_id@) is Some || old(
                self,
            ).spec_version_counter() == u64::MAX),
            r is Err ==> *final(self) == *old(self),
            r matches Err(e) ==> e is StoreError,
    {
        if self.version_counter == u64::MAX {
            return Err(FixError::StoreError(String::from_str("Version space exhausted")));
        }
        let idx = self.bucket_index(session_id);
        match idx {
            Some(i) => {
                if self.buckets[i].tx.is_some() {
                    return Err(
                        FixError::StoreError(String::from_str("Transaction already in progress")),
                    );
                }
                self.version_counter = self.version_counter + 1;
                let b = &mut self.buckets[i];
                b.tx = Some(Transaction { version: self.version_counter, pending: Vec::new() });
                proof {
                    old(self).lemma_update_frame(self, i as int, session_id@);
                    assert(self.spec_entries(session_id@) == old(self).spec_entries(session_id@));
                    assert(self.spec_next_seq(session_id@) == old(self).spec_next_seq(
                        session_id@,
                    ));
                    assert(self.spec_tx(session_id@) matches Some(tx2) && tx2.version as int
                        == self.spec_version_counter() && tx2.pending@.len() == 0);
                    assert forall|x: Seq<char>| x != session_id@ implies #[trigger] self.spec_entries(
                        x,
                    ) == old(self).spec_entries(x) by {
                        assert(self.spec_entries(x) == old(self).spec_entries(x));
                    }
                    assert forall|x: Seq<char>| x != session_id@ implies #[trigger] self.spec_tx(
                        x,
                    ) == old(self).spec_tx(x) by {
                        assert(self.spec_entries(x) == old(self).spec_entries(x));
                        assert(self.spec_tx(x) == old(self).spec_tx(x));
                    }
                }
                Ok(())
            },
            None => {
                self.version_counter = self.version_counter + 1;
                let b = SessionBucket {
                    id: session_id.to_owned(),
                    entries: Vec::new(),
                    next_seq: 1,
                    tx: Some(
                        Transaction { version: self.version_counter, pending: Vec::new() },
                    ),
                };
                proof {
                    Self::lemma_bucket_index_props(old(self).buckets@, session_id@);
                }
                self.buckets.push(b);
                proof {
                    self.lemma_push_frame(old(self), session_id@);
                    assert forall|x: Seq<char>| x != session_id@ implies #[trigger] self.spec_entries(
                        x,
                    ) == old(self).spec_entries(x) by {
                        assert(self.spec_entries(x) == old(self).spec_entries(x));
                    }
                    assert forall|x: Seq<char>| x != session_id@ implies #[trigger] self.spec_tx(
                        x,
                    ) == old(self).spec_tx(x) by {
                        assert(self.spec_entries(x) == old(self).spec_entries(x));
                        assert(self.spec_tx(x) == old(self).spec_tx(x));
                    }
                }
                Ok(())
            },
        }
    }

    /// A fresh bucket pushed at the end leaves every other session's view
    /// unchanged.
    proof fn lemma_push_frame(&self, older: &Self, id: Seq<char>)
        requires
            older.wf(),
            self.buckets@.len() == older.buckets@.len() + 1,
            forall|j: int|
                0 <= j < older.buckets@.len() ==> #[trigger] self.buckets@[j]
                    == older.buckets@[j],
            self.buckets@.last().id@ == id,
            forall|j: int| 0 <= j < older.buckets@.len() ==> (#[trigger] older.buckets@[j]).id@
                != id,
        ensures
            self.wf(),
            Self::spec_bucket_index_of(self.buckets@, id) == older.buckets@.len(),
            forall|x: Seq<char>|
                x != id ==> #[trigger] self.spec_entries(x) == older.spec_entries(x)
                    && self.spec_tx(x) == older.spec_tx(x) && self.spec_next_seq(x)
                    == older.spec_next_seq(x),
    {
        assert forall|a: int, b: int| 0 <= a < b < self.buckets@.len() implies (
        #[trigger] self.buckets@[a]).id@ != (#[trigger] self.buckets@[b]).id@ by {
            if b == self.buckets@.len() - 1 {
                assert(self.buckets@[a] == older.buckets@[a]);
            } else {
                assert(self.buckets@[a] == older.buckets@[a]);
                assert(self.buckets@[b] == older.buckets@[b]);
            }
        }
        assert forall|j: int| 0 <= j < self.buckets@.len() - 1 implies (
        #[trigger] self.buckets@[j]).id@ != id by {
            assert(self.buckets@[j] == older.buckets@[j]);
        }
        Self::lemma_bucket_index_is(self.buckets@, id, self.buckets@.len() - 1);
        assert forall|x: Seq<char>| x != id implies #[trigger] self.spec_entries(x)
            == older.spec_entries(x) && self.spec_tx(x) == older.spec_tx(x) && self.spec_next_seq(
            x,
        ) == older.spec_next_seq(x) by {
            let oi = Self::spec_bucket_index_of(older.buckets@, x);
            Self::lemma_bucket_index_props(older.buckets@, x);
            if oi >= 0 {
                assert forall|j: int| 0 <= j < oi implies (#[trigger] self.buckets@[j]).id@
                    != x by {
                    assert(self.buckets@[j] == older.buckets@[j]);
                }
                assert(self.buckets@[oi] == older.buckets@[oi]);
                Self::lemma_bucket_index_is(self.buckets@, x, oi);
            } else {
                assert forall|j: int| 0 <= j < self.buckets@.len() implies (
                #[trigger] self.buckets@[j]).id@ != x by {
                    if j < self.buckets@.len() - 1 {
                        assert(self.buckets@[j] == older.buckets@[j]);
                    }
                }
                Self::lemma_bucket_index_none(self.buckets@, x);
            }
        }
    }

    /// Buffers a record in the open transaction, or appends it to the log
    /// at once, advancing the next-sequence mark and the version counter.
    pub fn store_message(&mut self, session_id: &str, seq_num: i32, message: Message) -> (r:
        Result<(), FixError>)
        requires
            old(self).wf(),
            old(self).msgs_wf(),
            message.wf(),
        ensures
            final(self).wf(),
            final(self).msgs_wf(),
            match r {
                Ok(()) => {
                    &&& (match old(self).spec_tx(session_id@) {
                        Some(tx) => {
                            &&& final(self).spec_tx(session_id@) matches Some(tx2) && tx2.version
                                == tx.version && tx2.pending@ == tx.pending@.push(
                                (seq_num, message),
                            )
                            &&& final(self).spec_entries(session_id@) == old(self).spec_entries(
                                session_id@,
                            )
                            &&& final(self).spec_next_seq(session_id@) == old(
                                self,
                            ).spec_next_seq(session_id@)
                            &&& final(self).spec_version_counter() == old(
                                self,
                            ).spec_version_counter()
                        },
                        None => {
                            &&& old(self).spec_version_counter() < u64::MAX
                            &&& final(self).spec_version_counter() == old(
                                self,
                            ).spec_version_counter() + 1
                            &&& final(self).spec_entries(session_id@) == old(self).spec_entries(
                                session_id@,
                            ).push(
                                StoredEntry {
                                    seq: seq_num,
                                    version: (old(self).spec_version_counter() + 1) as u64,
                                    msg: message,
                                },
                            )
                            &&& seq_num < i32::MAX ==> final(self).spec_next_seq(session_id@)
                                == seq_num + 1
                            &&& final(self).spec_tx(session_id@) is None
                        },
                    })
                    &&& forall|x: Seq<char>|
                        x != session_id@ ==> #[trigger] final(self).spec_entries(x) == old(
                            self,
                        ).spec_entries(x) && final(self).spec_tx(x) == old(self).spec_tx(x)
                },
                Err(e) => {
                    &&& e is StoreError
                    &&& *final(self) == *old(self)
                    &&& old(self).spec_tx(session_id@) is None
                    &&& old(self).spec_version_counter() == u64::MAX as int
                },
            },
    {
        let idx = self.bucket_index(session_id);
        match idx {
            Some(i) => {
                let has_tx = self.buckets[i].tx.is_some();
                if has_tx {
                    let b = &mut self.buckets[i];
                    match &mut b.tx {
                        Some(tx) => {
                            tx.pending.push((seq_num, message));
                        },
                        None => {
                            proof {
                                assert(false);
                            }
                        },
                    }
                    proof {
                        old(self).lemma_update_frame(self, i as int, session_id@);
                    }
                    Ok(())
                } else {
                    if self.version_counter == u64::MAX {
                        return Err(
                            FixError::StoreError(String::from_str("Version space exhausted")),
                        );
                    }
                    self.version_counter = self.version_counter + 1;
                    let version = self.version_counter;
                    let b = &mut self.buckets[i];
                    b.entries.push(StoredEntry { seq: seq_num, version, msg: message });
                    b.next_seq = if seq_num < i32::MAX {
                        seq_num + 1
                    } else {
                        i32::MAX
                    };
                    proof {
                        old(self).lemma_update_frame(self, i as int, session_id@);
                    }
                    Ok(())
                }
            },
            None => {
                if self.version_counter == u64::MAX {
                    return Err(
                        FixError::StoreError(String::from_str("Version space exhausted")),
                    );
                }
                self.version_counter = self.version_counter + 1;
                let version = self.version_counter;
                let mut entries: Vec<StoredEntry> = Vec::new();
                entries.push(StoredEntry { seq: seq_num, version, msg: message });
                let b = SessionBucket {
                    id: session_id.to_owned(),
                    entries,
                    next_seq: if seq_num < i32::MAX {
                        seq_num + 1
                    } else {
                        i32::MAX
                    },
                    tx: None,
                };
                proof {
                    Self::lemma_bucket_index_props(old(self).buckets@, session_id@);
                }
                self.buckets.push(b);
                proof {
                    self.lemma_push_frame(old(self), session_id@);
                    assert(self.spec_entries(session_id@) =~= old(self).spec_entries(
                        session_id@,
                    ).push(StoredEntry { seq: seq_num, version, msg: message }));
                }
                Ok(())
            },
        }
    }

    /// Commits the open transaction: every buffered record enters the log,
    /// in order, under the transaction's version.
    pub fn commit_transaction(&mut self, session_id: &str) -> (r: Result<(), FixError>)
        requires
            old(self).wf(),
            old(self).msgs_wf(),
        ensures
            final(self).wf(),
            final(self).msgs_wf(),
            match r {
                Ok(()) => {
                    &&& old(self).spec_tx(session_id@) matches Some(tx)
                        && final(self).spec_entries(session_id@) == old(self).spec_entries(session_id@)
                        + tx.pending@.map_values(
                        |p: (i32, Message)|
                            StoredEntry { seq: p.0, version: tx.version, msg: p.1 },
                    )
                    &&& final(self).spec_tx(session_id@) is None
                    &&& final(self).spec_next_seq(session_id@) == old(self).spec_next_seq(
                        session_id@,
                    )
                    &&& final(self).spec_version_counter() == old(self).spec_version_counter()
                    &&& forall|x: Seq<char>|
                        x != session_id@ ==> #[trigger] final(self).spec_entries(x) == old(
                            self,
                        ).spec_entries(x) && final(self).spec_tx(x) == old(self).spec_tx(x)
                },
                Err(e) => {
                    &&& old(self).spec_tx(session_id@) is None
                    &&& *final(self) == *old(self)
                    &&& e is StoreError
                },
            },
    {
        let idx = self.bucket_index(session_id);
        let i = match idx {
            Some(i) => i,
            None => {
                return Err(
                    FixError::StoreError(String::from_str("No transaction in progress")),
                );
            },
        };
        if self.buckets[i].tx.is_none() {
            return Err(FixError::StoreError(String::from_str("No transaction in progress")));
        }
        let b = &mut self.buckets[i];
        let mut tx_opt: Option<Transaction> = None;
        core::mem::swap(&mut tx_opt, &mut b.tx);
        let tx = match tx_opt {
            Some(tx) => tx,
            None => {
                proof {
                    assert(false);
                }
                return Err(FixError::StoreError(String::from_str("No transaction in progress")));
            },
        };
        let ghost tx0 = tx;
        let version = tx.version;
        let mut pending = tx.pending;
        let ghost n = pending@.len();
        while pending.len() > 0
            invariant
                pending@.len() <= n,
                n == tx0.pending@.len(),
                version == tx0.version,
                pending@ == tx0.pending@.skip(n - pending@.len()),
                b.entries@ == old(self).buckets@[i as int].entries@ + tx0.pending@.take(
                    n - pending@.len(),
                ).map_values(
                    |p: (i32, Message)| StoredEntry { seq: p.0, version: tx0.version, msg: p.1 },
                ),
                b.id@ == old(self).buckets@[i as int].id@,
                b.next_seq == old(self).buckets@[i as int].next_seq,
                b.tx is None,
            decreases pending@.len(),
        {
            let ghost k = n - pending@.len();
            let p = pending.remove(0);
            proof {
                assert(tx0.pending@[k as int] == p);
                assert(pending@ =~= tx0.pending@.skip(k + 1));
            }
            b.entries.push(StoredEntry { seq: p.0, version, msg: p.1 });
            proof {
                assert(b.entries@ =~= old(self).buckets@[i as int].entries@ + tx0.pending@.take(
                    k + 1,
                ).map_values(
                    |p: (i32, Message)| StoredEntry { seq: p.0, version: tx0.version, msg: p.1 },
                ));
            }
        }
        proof {
            assert(tx0.pending@.take(n as int) =~= tx0.pending@);
            old(self).lemma_update_frame(self, i as int, session_id@);
        }
        Ok(())
    }

    /// Discards the open transaction.
    pub fn rollback_transaction(&mut self, session_id: &str) -> (r: Result<(), FixError>)
        requires
            old(self).wf(),
            old(self).msgs_wf(),
        ensures
            final(self).wf(),
            final(self).msgs_wf(),
            match r {
                Ok(()) => {
                    &&& old(self).spec_tx(session_id@) is Some
                    &&& final(self).spec_tx(session_id@) is None
                    &&& final(self).spec_entries(session_id@) == old(self).spec_entries(
                        session_id@,
                    )
                    &&& forall|x: Seq<char>|
                        x != session_id@ ==> #[trigger] final(self).spec_entries(x) == old(
                            self,
                        ).spec_entries(x) && final(self).spec_tx(x) == old(self).spec_tx(x)
                },
                Err(e) => {
                    &&& old(self).spec_tx(session_id@) is None
                    &&& *final(self) == *old(self)
                    &&& e is StoreError
                },
            },
    {
        let idx = self.bucket_index(session_id);
        let i = match idx {
            Some(i) => i,
            None => {
                return Err(
                    FixError::StoreError(String::from_str("No transaction in progress")),
                );
            },
        };
        if self.buckets[i].tx.is_none() {
            return Err(FixError::StoreError(String::from_str("No transaction in progress")));
        }
        let b = &mut self.buckets[i];
        b.tx = None;
        proof {
            old(self).lemma_update_frame(self, i as int, session_id@);
        }
        Ok(())
    }

    /// The message stored under a sequence number, if any.
    pub fn get_message(&self, session_id: &str, seq_num: i32) -> (r: Result<
        Option<Message>,
        FixError,
    >)
        requires
            self.msgs_wf(),
        ensures
            (r matches Ok(Some(m)) ==> m.wf()),
            match r {
                Ok(opt) => match opt {
                    Some(m) => spec_lookup(self.spec_entries(session_id@), seq_num as int)
                        matches Some(e) && m.view_eq(e.msg),
                    None => spec_lookup(self.spec_entries(session_id@), seq_num as int) is None,
                },
                Err(_) => false,
            },
    {
        match self.get_message_with_version(session_id, seq_num) {
            Ok(Some((m, _))) => Ok(Some(m)),
            Ok(None) => Ok(None),
            Err(e) => Err(e),
        }
    }

    /// The message and the version of the write that stored it.
    pub fn get_message_with_version(&self, session_id: &str, seq_num: i32) -> (r: Result<
        Option<(Message, u64)>,
        FixError,
    >)
        requires
            self.msgs_wf(),
        ensures
            (r matches Ok(Some(p)) ==> p.0.wf()),
            match r {
                Ok(opt) => match opt {
                    Some((m, v)) => spec_lookup(self.spec_entries(session_id@), seq_num as int)
                        matches Some(e) && m.view_eq(e.msg) && v == e.version,
                    None => spec_lookup(self.spec_entries(session_id@), seq_num as int) is None,
                },
                Err(_) => false,
            },
    {
        let idx = self.bucket_index(session_id);
        let i = match idx {
            Some(i) => i,
            None => {
                proof {
                    assert(self.spec_entries(session_id@) =~= Seq::<StoredEntry>::empty());
                }
                return Ok(None);
            },
        };
        let b = &self.buckets[i];
        let n = b.entries.len();
        let mut k: usize = n;
        proof {
            assert(b.entries@.take(n as int) =~= b.entries@);
        }
        while k > 0
            invariant
                0 <= k <= n,
                n == b.entries@.len(),
                self.msgs_wf(),
                i < self.buckets@.len(),
                self.buckets@[i as int].entries@ == b.entries@,
                b.entries@ == self.spec_entries(session_id@),
                spec_lookup(b.entries@, seq_num as int) == spec_lookup(
                    b.entries@.take(k as int),
                    seq_num as int,
                ),
            decreases k,
        {
            let e = &b.entries[k - 1];
            proof {
                assert(b.entries@.take(k as int).last() == b.entries@[k - 1]);
                assert(b.entries@.take(k as int).drop_last() =~= b.entries@.take(k - 1));
                assert(self.buckets@[i as int].entries@[k - 1].msg.wf());
            }
            if e.seq == seq_num {
                return Ok(Some((e.msg.clone(), e.version)));
            }
            k = k - 1;
        }
        proof {
            assert(b.entries@.take(0) =~= Seq::<StoredEntry>::empty());
        }
        Ok(None)
    }

    /// The records present in `[start, end]`, in ascending sequence order;
    /// gaps are omitted.
    pub fn get_messages_range(&self, session_id: &str, start: i32, end: i32) -> (r: Result<
        Vec<Message>,
        FixError,
    >)
        requires
            self.msgs_wf(),
        ensures
            match r {
                Ok(v) => {
                    let expect = spec_range(
                        self.spec_entries(session_id@),
                        start as int,
                        end as int,
                    );
                    &&& v@.len() == expect.len()
                    &&& forall|k: int|
                        0 <= k < v@.len() ==> (#[trigger] v@[k]).view_eq(expect[k].msg)
                },
                Err(_) => false,
            },
    {
        let ghost es = self.spec_entries(session_id@);
        let mut out: Vec<Message> = Vec::new();
        if start > end {
            return Ok(out);
        }
        let mut s: i32 = start;
        loop
            invariant_except_break
                start <= s <= end,
                self.msgs_wf(),
                es == self.spec_entries(session_id@),
                out@.len() == spec_range(es, start as int, s - 1).len(),
                forall|k: int|
                    0 <= k < out@.len() ==> (#[trigger] out@[k]).view_eq(
                        spec_range(es, start as int, s - 1)[k].msg,
                    ),
            ensures
                out@.len() == spec_range(es, start as int, end as int).len(),
                forall|k: int|
                    0 <= k < out@.len() ==> (#[trigger] out@[k]).view_eq(
                        spec_range(es, start as int, end as int)[k].msg,
                    ),
            decreases end - s,
        {
            match self.get_message(session_id, s) {
                Ok(Some(m)) => {
                    out.push(m);
                },
                _ => {},
            }
            proof {
                lemma_spec_range_snoc(es, start as int, s as int);
            }
            if s == end {
                break ;
            }
            s = s + 1;
        }
        Ok(out)
    }

    /// The next outbound sequence number: one past the last stored write,
    /// or one for a fresh session.
    pub fn get_next_seq_num(&self, session_id: &str) -> (r: Result<i32, FixError>)
        ensures
            match r {
                Ok(n) => n as int == self.spec_next_seq(session_id@),
                Err(_) => false,
            },
    {
        let idx = self.bucket_index(session_id);
        match idx {
            Some(i) => Ok(self.buckets[i].next_seq),
            None => Ok(1),
        }
    }

    /// Appends one replayed record under its recorded version, leaving the
    /// version counter alone.
    fn restore_message(&mut self, session_id: &str, seq_num: i32, version: u64, message: Message)
        requires
            old(self).wf(),
            old(self).msgs_wf(),
            message.wf(),
        ensures
            final(self).wf(),
            final(self).msgs_wf(),
            final(self).spec_entries(session_id@) == old(self).spec_entries(session_id@).push(
                StoredEntry { seq: seq_num, version, msg: message },
            ),
            final(self).spec_next_seq(session_id@) == if seq_num < i32::MAX {
                seq_num + 1
            } else {
                i32::MAX as int
            },
            final(self).spec_tx(session_id@) == old(self).spec_tx(session_id@),
            final(self).spec_version_counter() == old(self).spec_version_counter(),
            forall|x: Seq<char>|
                x != session_id@ ==> #[trigger] final(self).spec_entries(x) == old(
                    self,
                ).spec_entries(x),
            forall|x: Seq<char>|
                x != session_id@ ==> #[trigger] final(self).spec_tx(x) == old(self).spec_tx(x),
    {
        let idx = self.bucket_index(session_id);
        match idx {
            Some(i) => {
                let b = &mut self.buckets[i];
                b.entries.push(StoredEntry { seq: seq_num, version, msg: message });
                b.next_seq = if seq_num < i32::MAX {
                    seq_num + 1
                } else {
                    i32::MAX
                };
                proof {
                    old(self).lemma_update_frame(self, i as int, session_id@);
                    assert forall|x: Seq<char>| x != session_id@ implies #[trigger] self.spec_entries(
                        x,
                    ) == old(self).spec_entries(x) by {
                        assert(self.spec_entries(x) == old(self).spec_entries(x));
                    }
                    assert forall|x: Seq<char>| x != session_id@ implies #[trigger] self.spec_tx(
                        x,
                    ) == old(self).spec_tx(x) by {
                        assert(self.spec_entries(x) == old(self).spec_entries(x));
                        assert(self.spec_tx(x) == old(self).spec_tx(x));
                    }
                }
            },
            None => {
                let mut entries: Vec<StoredEntry> = Vec::new();
                entries.push(StoredEntry { seq: seq_num, version, msg: message });
                let b = SessionBucket {
                    id: session_id.to_owned(),
                    entries,
                    next_seq: if seq_num < i32::MAX {
                        seq_num + 1
                    } else {
                        i32::MAX
                    },
                    tx: None,
                };
                proof {
                    Self::lemma_bucket_index_props(old(self).buckets@, session_id@);
                }
                self.buckets.push(b);
                proof {
                    self.lemma_push_frame(old(self), session_id@);
                    assert forall|x: Seq<char>| x != session_id@ implies #[trigger] self.spec_entries(
                        x,
                    ) == old(self).spec_entries(x) by {
                        assert(self.spec_entries(x) == old(self).spec_entries(x));
                    }
                    assert forall|x: Seq<char>| x != session_id@ implies #[trigger] self.spec_tx(
                        x,
                    ) == old(self).spec_tx(x) by {
                        assert(self.spec_entries(x) == old(self).spec_entries(x));
                        assert(self.spec_tx(x) == old(self).spec_tx(x));
                    }
                }
            },
        }
    }

    /// Replays persisted log lines into a session's log: each line that
    /// reads as `seq|version|frame` with a parseable frame is appended; the
    /// next sequence number becomes one past the highest replayed, and the
    /// version counter catches up to the highest replayed version.
    pub fn load_messages(&mut self, session_id: &str, lines: &Vec<String>) -> (r: Result<
        (),
        FixError,
    >)
        requires
            old(self).wf(),
            old(self).msgs_wf(),
        ensures
            final(self).wf(),
            final(self).msgs_wf(),
            r is Ok,
            forall|x: Seq<char>|
                x != session_id@ ==> #[trigger] final(self).spec_entries(x) == old(
                    self,
                ).spec_entries(x),
            forall|x: Seq<char>|
                x != session_id@ ==> #[trigger] final(self).spec_tx(x) == old(self).spec_tx(x),
            // Each readable line's (seq, version, message) record is
            // appended, in line order, after whatever the session held.
            ({
                let recs = spec_loaded_records(lines@.map_values(|l: String| l@));
                let n0 = old(self).spec_entries(session_id@).len() as int;
                &&& final(self).spec_entries(session_id@).len() == n0 + recs.len()
                &&& (forall|j: int|
                    0 <= j < n0 ==> #[trigger] final(self).spec_entries(session_id@)[j] == old(
                        self,
                    ).spec_entries(session_id@)[j])
                &&& (forall|j: int|
                    0 <= j < recs.len() ==> {
                        let e = #[trigger] final(self).spec_entries(session_id@)[n0 + j];
                        &&& e.seq as int == recs[j].0
                        &&& e.version as int == recs[j].1
                        &&& e.msg.spec_msg_type() == recs[j].2.0
                        &&& e.msg.field_map() == recs[j].2.1
                    })
                &&& (recs.len() > 0 ==> final(self).spec_next_seq(session_id@)
                    == if spec_max_seq(recs) < i32::MAX as int {
                    spec_max_seq(recs) + 1
                } else {
                    i32::MAX as int
                })
                &&& (recs.len() == 0 ==> final(self).spec_next_seq(session_id@) == old(
                    self,
                ).spec_next_seq(session_id@))
                &&& final(self).spec_version_counter() == if spec_max_version(recs) > old(
                    self,
                ).spec_version_counter() {
                    spec_max_version(recs)
                } else {
                    old(self).spec_version_counter()
                }
            }),
    {
        let ghost line_views = lines@.map_values(|l: String| l@);
        let n = lines.len();
        let mut k: usize = 0;
        let mut max_seq: i32 = 0;
        let mut max_version: u64 = 0;
        let mut any: bool = false;
        proof {
            assert(line_views.take(0) =~= Seq::<Seq<char>>::empty());
        }
        while k < n
            invariant
                0 <= k <= n,
                n == lines@.len(),
                line_views == lines@.map_values(|l: String| l@),
                self.wf(),
                self.msgs_wf(),
                forall|x: Seq<char>|
                    x != session_id@ ==> #[trigger] self.spec_entries(x) == old(
                        self,
                    ).spec_entries(x),
                forall|x: Seq<char>|
                    x != session_id@ ==> #[trigger] self.spec_tx(x) == old(self).spec_tx(x),
                ({
                    let sofar = spec_loaded_records(line_views.take(k as int));
                    let n0 = old(self).spec_entries(session_id@).len() as int;
                    &&& self.spec_entries(session_id@).len() == n0 + sofar.len()
                    &&& (forall|j: int|
                        0 <= j < n0 ==> #[trigger] self.spec_entries(session_id@)[j] == old(
                            self,
                        ).spec_entries(session_id@)[j])
                    &&& (forall|j: int|
                        0 <= j < sofar.len() ==> {
                            let e = #[trigger] self.spec_entries(session_id@)[n0 + j];
                            &&& e.seq as int == sofar[j].0
                            &&& e.version as int == sofar[j].1
                            &&& e.msg.spec_msg_type() == sofar[j].2.0
                            &&& e.msg.field_map() == sofar[j].2.1
                        })
                    &&& max_seq as int == spec_max_seq(sofar)
                    &&& max_version as int == spec_max_version(sofar)
                    &&& any == (sofar.len() > 0)
                    &&& max_seq >= 0
                    &&& self.spec_tx(session_id@) == old(self).spec_tx(session_id@)
                    &&& (!any ==> self.spec_next_seq(session_id@) == old(self).spec_next_seq(
                        session_id@,
                    ))
                    &&& self.spec_version_counter() == old(self).spec_version_counter()
                }),
            decreases n - k,
        {
            let ghost pre_iter = *self;
            let ghost sofar = spec_loaded_records(line_views.take(k as int));
            proof {
                assert(line_views[k as int] == lines@[k as int]@);
                assert(line_views.take(k + 1) =~= line_views.take(k as int).push(
                    line_views[k as int],
                ));
                lemma_loaded_records_snoc(line_views.take(k as int), line_views[k as int]);
            }
            match parse_stored_line(lines[k].as_str()) {
                Some((seq, version, msg)) => {
                    proof {
                        let rec = spec_stored_line(line_views[k as int])->0;
                        lemma_max_snoc(sofar, rec);
                        assert(spec_loaded_records(line_views.take(k + 1)) =~= sofar.push(rec));
                    }
                    self.restore_message(session_id, seq, version, msg);
                    proof {
                        assert forall|x: Seq<char>| x != session_id@ implies
                            #[trigger] self.spec_entries(x) == old(self).spec_entries(x) by {
                            assert(self.spec_entries(x) == pre_iter.spec_entries(x));
                        }
                        assert forall|x: Seq<char>| x != session_id@ implies #[trigger] self.spec_tx(
                            x,
                        ) == old(self).spec_tx(x) by {
                            assert(self.spec_entries(x) == pre_iter.spec_entries(x));
                            assert(self.spec_tx(x) == pre_iter.spec_tx(x));
                        }
                    }
                    // The direct write set the bucket's next number; the
                    // true maximum is applied after the loop.
                    if seq > max_seq {
                        max_seq = seq;
                    }
                    if version > max_version {
                        max_version = version;
                    }
                    any = true;
                },
                None => {
                    proof {
                        assert(spec_loaded_records(line_views.take(k + 1)) =~= sofar + Seq::<
                            (int, int, (Seq<char>, Map<int, Seq<char>>)),
                        >::empty());
                        assert(sofar + Seq::<
                            (int, int, (Seq<char>, Map<int, Seq<char>>)),
                        >::empty() =~= sofar);
                    }
                },
            }
            k = k + 1;
        }
        proof {
            assert(line_views.take(n as int) =~= line_views);
        }
        if any {
            let idx = self.bucket_index(session_id);
            proof {
                if idx is None {
                    assert(self.spec_entries(session_id@) =~= Seq::<StoredEntry>::empty());
                    assert(false);
                }
            }
            match idx {
                Some(i) => {
                    let ghost pre = *self;
                    let b = &mut self.buckets[i];
                    b.next_seq = if max_seq < i32::MAX {
                        max_seq + 1
                    } else {
                        i32::MAX
                    };
                    proof {
                        pre.lemma_update_frame(self, i as int, session_id@);
                        assert(self.spec_entries(session_id@) == pre.spec_entries(session_id@));
                        assert(self.spec_tx(session_id@) == pre.spec_tx(session_id@));
                        assert(self.spec_next_seq(session_id@) == if max_seq < i32::MAX {
                            max_seq + 1
                        } else {
                            i32::MAX as int
                        });
                        assert forall|x: Seq<char>| x != session_id@ implies
                            #[trigger] self.spec_entries(x) == old(self).spec_entries(x) by {
                            assert(self.spec_entries(x) == pre.spec_entries(x));
                        }
                        assert forall|x: Seq<char>| x != session_id@ implies #[trigger] self.spec_tx(
                            x,
                        ) == old(self).spec_tx(x) by {
                            assert(self.spec_entries(x) == pre.spec_entries(x));
                            assert(self.spec_tx(x) == pre.spec_tx(x));
                        }
                        assert(self.msgs_wf()) by {
                            assert forall|a: int, j: int|
                                0 <= a < self.buckets@.len() && 0 <= j
                                    < self.buckets@[a].entries@.len() implies (
                            #[trigger] self.buckets@[a].entries@[j]).msg.wf() by {
                                if a != i {
                                    assert(self.buckets@[a] == pre.buckets@[a]);
                                } else {
                                    assert(self.buckets@[a].entries@ == pre.buckets@[a].entries@);
                                }
                            }
                            assert forall|a: int, j: int|
                                0 <= a < self.buckets@.len() && self.buckets@[a].tx is Some && 0
                                    <= j < self.buckets@[a].tx->0.pending@.len() implies (
                            #[trigger] self.buckets@[a].tx->0.pending@[j]).1.wf() by {
                                if a != i {
                                    assert(self.buckets@[a] == pre.buckets@[a]);
                                } else {
                                    assert(self.buckets@[a].tx == pre.buckets@[a].tx);
                                }
                            }
                        }
                    }
                },
                None => {},
            }
            let ghost pre3 = *self;
            if max_version > self.version_counter {
                self.version_counter = max_version;
            }
            proof {
                assert(self.buckets == pre3.buckets);
                assert(self.wf());
                assert(self.msgs_wf()) by {
                    assert(pre3.msgs_wf());
                }
                assert(self.spec_entries(session_id@) == pre3.spec_entries(session_id@));
                assert(self.spec_tx(session_id@) == pre3.spec_tx(session_id@));
                assert(self.spec_next_seq(session_id@) == pre3.spec_next_seq(session_id@));
                assert forall|x: Seq<char>| x != session_id@ implies #[trigger] self.spec_entries(
                    x,
                ) == old(self).spec_entries(x) by {
                    assert(self.spec_entries(x) == pre3.spec_entries(x));
                    assert(pre3.spec_entries(x) == old(self).spec_entries(x));
                }
                assert forall|x: Seq<char>| x != session_id@ implies #[trigger] self.spec_tx(x)
                    == old(self).spec_tx(x) by {
                    assert(self.spec_tx(x) == pre3.spec_tx(x));
                    assert(pre3.spec_entries(x) == old(self).spec_entries(x));
                    assert(pre3.spec_tx(x) == old(self).spec_tx(x));
                }
            }
        }
        Ok(())
    }

    /// Clears a session's log and resets its next sequence number to one.
    pub fn reset_sequence_numbers(&mut self, session_id: &str) -> (r: Result<(), FixError>)
        requires
            old(self).wf(),
            old(self).msgs_wf(),
        ensures
            final(self).wf(),
            final(self).msgs_wf(),
            r is Ok,
            final(self).spec_entries(session_id@) == Seq::<StoredEntry>::empty(),
            final(self).spec_next_seq(session_id@) == 1,
            forall|x: Seq<char>|
                x != session_id@ ==> #[trigger] final(self).spec_entries(x) == old(
                    self,
                ).spec_entries(x) && final(self).spec_tx(x) == old(self).spec_tx(x),
    {
        let idx = self.bucket_index(session_id);
        match idx {
            Some(i) => {
                let b = &mut self.buckets[i];
                b.entries = Vec::new();
                b.next_seq = 1;
                proof {
                    old(self).lemma_update_frame(self, i as int, session_id@);
                }
                Ok(())
            },
            None => {
                proof {
                    assert(self.spec_entries(session_id@) =~= Seq::<StoredEntry>::empty());
                }
                Ok(())
            },
        }
    }
}

} // verus!
