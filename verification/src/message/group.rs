//! Repeating groups: a counter tag's entries, each a set of fields opened by
//! a delimiter tag.

use vstd::prelude::*;

use crate::error::FixError;
use crate::message::field::Field;
use crate::message::fieldlist::FieldList;
use crate::message::wire::{
    self, delim_first, enc_entries, enc_fields, find_tag, GroupModel,
};

verus! {

/// A repeating group: its delimiter tag, the member tags each entry must
/// carry, and the entries themselves.
pub struct RepeatingGroup {
    count: usize,
    entries: Vec<FieldList>,
    delimiter_tag: i32,
    required_tags: Vec<i32>,
}

impl RepeatingGroup {
    /// The entries as the wire model sees them.
    pub closed spec fn spec_entries(&self) -> Seq<Seq<(int, Seq<char>)>> {
        self.entries@.map_values(|e: FieldList| e.pairs())
    }

    pub closed spec fn spec_delim(&self) -> int {
        self.delimiter_tag as int
    }

    pub closed spec fn spec_required(&self) -> Seq<int> {
        self.required_tags@.map_values(|t: i32| t as int)
    }

    /// The group as the wire model sees it.
    pub open spec fn view(&self) -> GroupModel {
        GroupModel { delim: self.spec_delim(), entries: self.spec_entries() }
    }

    /// Every entry is an ordered well-formed field set, and the recorded
    /// count matches.
    pub open spec fn wf(&self) -> bool {
        &&& forall|i: int|
            0 <= i < self.spec_entries().len() ==> wire::pairs_sorted(
                #[trigger] self.spec_entries()[i],
            ) && wire::pairs_wf(self.spec_entries()[i])
        &&& self.spec_count() == self.spec_entries().len()
    }

    pub closed spec fn spec_count(&self) -> int {
        self.count as int
    }

    pub fn new(delimiter_tag: i32, required_tags: Vec<i32>) -> (r: RepeatingGroup)
        ensures
            r.wf(),
            r.spec_delim() == delimiter_tag as int,
            r.spec_required() == required_tags@.map_values(|t: i32| t as int),
            r.spec_entries() == Seq::<Seq<(int, Seq<char>)>>::empty(),
    {
        let r = RepeatingGroup { count: 0, entries: Vec::new(), delimiter_tag, required_tags };
        proof {
            assert(r.spec_entries() =~= Seq::<Seq<(int, Seq<char>)>>::empty());
        }
        r
    }

    /// A group assembled from already-built entries; the codec's
    /// constructor for a folded group.
    pub(crate) fn from_entries(
        delimiter_tag: i32,
        required_tags: Vec<i32>,
        entries: Vec<FieldList>,
    ) -> (r: RepeatingGroup)
        requires
            forall|i: int| 0 <= i < entries@.len() ==> (#[trigger] entries@[i]).wf(),
        ensures
            r.wf(),
            r.spec_delim() == delimiter_tag as int,
            r.spec_required() == required_tags@.map_values(|t: i32| t as int),
            r.spec_entries() == entries@.map_values(|e: FieldList| e.pairs()),
    {
        let count = entries.len();
        let r = RepeatingGroup { count, entries, delimiter_tag, required_tags };
        proof {
            assert forall|i: int| 0 <= i < r.spec_entries().len() implies wire::pairs_sorted(
                #[trigger] r.spec_entries()[i],
            ) && wire::pairs_wf(r.spec_entries()[i]) by {
                assert(r.spec_entries()[i] == r.entries@[i].pairs());
            }
        }
        r
    }

    /// Opens a new, empty entry.
    pub fn add_entry(&mut self)
        requires
            old(self).wf(),
            old(self).spec_entries().len() < usize::MAX,
        ensures
            final(self).wf(),
            final(self).spec_entries() == old(self).spec_entries().push(
                Seq::<(int, Seq<char>)>::empty(),
            ),
            final(self).spec_delim() == old(self).spec_delim(),
            final(self).spec_required() == old(self).spec_required(),
    {
        let e = FieldList::new();
        self.entries.push(e);
        self.count = self.count + 1;
        proof {
            assert(self.spec_entries() =~= old(self).spec_entries().push(
                Seq::<(int, Seq<char>)>::empty(),
            ));
        }
    }

    /// The field carrying `tag` in the entry at `position`.
    pub fn get_field_at(&self, tag: i32, position: usize) -> (r: Option<&Field>)
        requires
            self.wf(),
        ensures
            match r {
                Some(f) => {
                    &&& position < self.spec_entries().len()
                    &&& wire::map_of_pairs(self.spec_entries()[position as int]).contains_key(
                        tag as int,
                    )
                    &&& f@ == (
                        tag as int,
                        wire::map_of_pairs(self.spec_entries()[position as int])[tag as int],
                    )
                },
                None => position >= self.spec_entries().len() || !wire::map_of_pairs(
                    self.spec_entries()[position as int],
                ).contains_key(tag as int),
            },
    {
        if position >= self.entries.len() {
            return None;
        }
        let e = &self.entries[position];
        proof {
            assert(self.spec_entries()[position as int] == e.pairs());
        }
        e.get(tag)
    }

    /// Sets a field in the entry at `position`; the position must name an
    /// existing entry and the field must be admissible.
    pub fn set_field_at(&mut self, position: usize, field: Field) -> (r: Result<(), FixError>)
        requires
            old(self).wf(),
        ensures
            final(self).wf(),
            final(self).spec_delim() == old(self).spec_delim(),
            final(self).spec_required() == old(self).spec_required(),
            match r {
                Ok(()) => {
                    &&& position < old(self).spec_entries().len()
                    &&& field.wf()
                    &&& final(self).spec_entries() == old(self).spec_entries().update(
                        position as int,
                        wire::sorted_insert(
                            old(self).spec_entries()[position as int],
                            field@.0,
                            field@.1,
                        ),
                    )
                },
                Err(e) => {
                    &&& (position >= old(self).spec_entries().len() || !field.wf())
                    &&& *final(self) == *old(self)
                    &&& e is ParseError
                },
            },
    {
        if position >= self.count {
            return Err(
                FixError::ParseError(String::from_str("Invalid group entry position")),
            );
        }
        if !field.check_wf() {
            return Err(
                FixError::ParseError(String::from_str("Field value not admissible in a group")),
            );
        }
        proof {
            assert(old(self).spec_entries()[position as int] == old(
                self,
            ).entries@[position as int].pairs());
            assert(wire::pairs_sorted(old(self).spec_entries()[position as int]));
            assert(wire::pairs_wf(old(self).spec_entries()[position as int]));
        }
        let e = &mut self.entries[position];
        e.upsert(field);
        proof {
            assert(self.spec_entries() =~= old(self).spec_entries().update(
                position as int,
                wire::sorted_insert(old(self).spec_entries()[position as int], field@.0, field@.1),
            ));
        }
        Ok(())
    }

    /// Whether this group owns `tag`: its delimiter or a member tag.
    pub fn has_field(&self, tag: i32) -> (r: bool)
        ensures
            r == (tag as int == self.spec_delim() || self.spec_required().contains(tag as int)),
    {
        if tag == self.delimiter_tag {
            return true;
        }
        let n = self.required_tags.len();
        let mut i: usize = 0;
        while i < n
            invariant
                0 <= i <= n,
                n == self.spec_required().len(),
                tag as int != self.spec_delim(),
                forall|j: int| 0 <= j < i ==> #[trigger] self.spec_required()[j] != tag as int,
            decreases n - i,
        {
            let t = self.required_tags[i];
            proof {
                assert(self.spec_required()[i as int] == t as int);
            }
            if t == tag {
                return true;
            }
            i = i + 1;
        }
        proof {
            if self.spec_required().contains(tag as int) {
                let j = choose|j: int|
                    0 <= j < self.spec_required().len() && #[trigger] self.spec_required()[j]
                        == tag as int;
                assert(false);
            }
        }
        false
    }

    /// Whether every entry carries the delimiter tag and all member tags.
    pub open spec fn spec_entries_complete(&self) -> bool {
        forall|i: int|
            0 <= i < self.spec_entries().len() ==> {
                let m = wire::map_of_pairs(#[trigger] self.spec_entries()[i]);
                m.contains_key(self.spec_delim()) && forall|k: int|
                    0 <= k < self.spec_required().len() ==> m.contains_key(
                        #[trigger] self.spec_required()[k],
                    )
            }
    }

    /// Checks the group: every entry must carry the delimiter tag and each
    /// member tag.
    pub fn validate(&self) -> (r: Result<(), FixError>)
        requires
            self.wf(),
        ensures
            match r {
                Ok(()) => self.spec_entries_complete(),
                Err(e) => !self.spec_entries_complete() && e is ParseError,
            },
    {
        let n = self.entries.len();
        let mut i: usize = 0;
        while i < n
            invariant
                0 <= i <= n,
                self.wf(),
                n == self.spec_entries().len(),
                forall|j: int|
                    0 <= j < i ==> {
                        let m = wire::map_of_pairs(#[trigger] self.spec_entries()[j]);
                        m.contains_key(self.spec_delim()) && forall|k: int|
                            0 <= k < self.spec_required().len() ==> m.contains_key(
                                #[trigger] self.spec_required()[k],
                            )
                    },
            decreases n - i,
        {
            let e = &self.entries[i];
            proof {
                assert(self.spec_entries()[i as int] == e.pairs());
            }
            if e.get(self.delimiter_tag).is_none() {
                return Err(
                    FixError::ParseError(String::from_str("Missing delimiter tag in group entry")),
                );
            }
            let rn = self.required_tags.len();
            let mut k: usize = 0;
            while k < rn
                invariant
                    0 <= k <= rn,
                    i < n,
                    self.wf(),
                    n == self.spec_entries().len(),
                    rn == self.spec_required().len(),
                    e.pairs() == self.spec_entries()[i as int],
                    e.wf(),
                    forall|j: int|
                        0 <= j < k ==> wire::map_of_pairs(e.pairs()).contains_key(
                            #[trigger] self.spec_required()[j],
                        ),
                decreases rn - k,
            {
                let t = self.required_tags[k];
                proof {
                    assert(self.spec_required()[k as int] == t as int);
                }
                if e.get(t).is_none() {
                    return Err(
                        FixError::ParseError(
                            String::from_str("Missing required tag in group entry"),
                        ),
                    );
                }
                k = k + 1;
            }
            i = i + 1;
        }
        Ok(())
    }

    /// How many entries the group holds.
    pub fn entry_count(&self) -> (r: usize)
        ensures
            r as int == self.spec_count(),
    {
        self.count
    }

    /// The entries themselves.
    pub fn entries(&self) -> (r: &Vec<FieldList>)
        ensures
            r@.map_values(|e: FieldList| e.pairs()) == self.spec_entries(),
    {
        &self.entries
    }

    /// Writes every entry onto `out`, the delimiter field first in each.
    pub fn append_wire(&self, out: &mut String)
        requires
            self.wf(),
        ensures
            final(out)@ == old(out)@ + enc_entries(self.spec_delim(), self.spec_entries()),
    {
        let ghost base = out@;
        let n = self.entries.len();
        let mut i: usize = 0;
        proof {
            lemma_enc_entries_take(self.spec_delim(), self.spec_entries(), 0);
            assert(base + enc_entries_take(self.spec_delim(), self.spec_entries(), 0) =~= base);
        }
        while i < n
            invariant
                0 <= i <= n,
                self.wf(),
                n == self.spec_entries().len(),
                out@ == base + enc_entries_take(self.spec_delim(), self.spec_entries(), i as int),
            decreases n - i,
        {
            let e = &self.entries[i];
            proof {
                assert(self.spec_entries()[i as int] == e.pairs());
            }
            self.append_entry(e, out);
            proof {
                lemma_enc_entries_take_step(self.spec_delim(), self.spec_entries(), i as int);
            }
            i = i + 1;
        }
        proof {
            lemma_enc_entries_take_all(self.spec_delim(), self.spec_entries());
        }
    }

    /// Writes one entry onto `out`: the delimiter field first where present,
    /// then the rest in tag order.
    fn append_entry(&self, e: &FieldList, out: &mut String)
        requires
            e.wf(),
        ensures
            final(out)@ == old(out)@ + enc_fields(delim_first(self.spec_delim(), e.pairs())),
    {
        let ghost ps = e.pairs();
        let ghost base = out@;
        let delim = self.delimiter_tag;
        let n = e.len();
        // Locate the delimiter field.
        let mut di: usize = n;
        let mut j: usize = 0;
        while j < n
            invariant
                0 <= j <= n,
                e.wf(),
                n == ps.len(),
                ps == e.pairs(),
                di <= n,
                di == n ==> forall|k: int| 0 <= k < j ==> (#[trigger] ps[k]).0 != delim as int,
                di < n ==> {
                    &&& ps[di as int].0 == delim as int
                    &&& forall|k: int| 0 <= k < di ==> (#[trigger] ps[k]).0 != delim as int
                },
            decreases n - j,
        {
            if di == n && e.item(j).tag() == delim {
                di = j;
            }
            j = j + 1;
        }
        if di == n {
            proof {
                wire::lemma_find_tag_none(ps, delim as int);
                assert(delim_first(delim as int, ps) == ps);
            }
            e.append_wire(out);
            return ;
        }
        proof {
            wire::lemma_find_tag_is(ps, delim as int, di as int);
            assert(delim_first(delim as int, ps) == seq![ps[di as int]] + ps.take(di as int)
                + ps.skip(di as int + 1));
        }
        let df = e.item(di);
        proof {
            assert(ps[di as int] == df@);
            assert(wire::wf_pair(ps[di as int]));
        }
        wire::append_field(out, df.tag(), df.value());
        let ghost mid = out@;
        proof {
            assert(mid =~= base + enc_fields(seq![ps[di as int]])) by {
                assert(seq![ps[di as int]][0] == ps[di as int]);
                assert(seq![ps[di as int]].drop_first() =~= Seq::<(int, Seq<char>)>::empty());
                assert(enc_fields(seq![ps[di as int]]) == wire::enc_field(
                    ps[di as int].0,
                    ps[di as int].1,
                ) + enc_fields(Seq::<(int, Seq<char>)>::empty()));
                assert(wire::enc_field(ps[di as int].0, ps[di as int].1) + Seq::<char>::empty()
                    =~= wire::enc_field(ps[di as int].0, ps[di as int].1));
            }
        }
        let mut k: usize = 0;
        while k < n
            invariant
                0 <= k <= n,
                e.wf(),
                n == ps.len(),
                ps == e.pairs(),
                di < n,
                wire::wf_pair(ps[di as int]),
                k <= di ==> out@ == mid + enc_fields(ps.take(k as int)),
                k > di ==> out@ == mid + enc_fields(ps.take(di as int)) + enc_fields(
                    ps.subrange(di as int + 1, k as int),
                ),
            decreases n - k,
        {
            if k != di {
                let f = e.item(k);
                proof {
                    assert(ps[k as int] == f@);
                    assert(wire::wf_pair(ps[k as int]));
                }
                wire::append_field(out, f.tag(), f.value());
                proof {
                    if k < di {
                        crate::message::fieldlist::lemma_take_one_more(ps, k as int);
                    } else {
                        let sub = ps.subrange(di as int + 1, k as int);
                        let sub2 = ps.subrange(di as int + 1, k as int + 1);
                        assert(sub2 =~= sub + seq![ps[k as int]]);
                        wire::lemma_enc_fields_append(sub, seq![ps[k as int]]);
                        wire::lemma_enc_fields_singleton(ps[k as int]);
                        assert(out@ =~= mid + enc_fields(ps.take(di as int)) + enc_fields(sub2));
                    }
                }
            } else {
                proof {
                    assert(ps.subrange(di as int + 1, di as int + 1) =~= Seq::<
                        (int, Seq<char>),
                    >::empty());
                    assert(enc_fields(Seq::<(int, Seq<char>)>::empty()) =~= Seq::<char>::empty());
                    assert(mid + enc_fields(ps.take(di as int)) + enc_fields(
                        ps.subrange(di as int + 1, di as int + 1),
                    ) =~= mid + enc_fields(ps.take(di as int)));
                }
            }
            k = k + 1;
        }
        proof {
            let df0 = delim_first(delim as int, ps);
            assert(ps.subrange(di as int + 1, n as int) =~= ps.skip(di as int + 1));
            wire::lemma_enc_fields_append(seq![ps[di as int]], ps.take(di as int));
            wire::lemma_enc_fields_append(
                seq![ps[di as int]] + ps.take(di as int),
                ps.skip(di as int + 1),
            );
            assert(df0 =~= (seq![ps[di as int]] + ps.take(di as int)) + ps.skip(di as int + 1));
            assert(out@ =~= base + enc_fields(df0));
        }
    }
}

impl Clone for RepeatingGroup {
    fn clone(&self) -> (r: Self)
        ensures
            r@ == self@,
            r.spec_required() == self.spec_required(),
            r.spec_count() == self.spec_count(),
    {
        let mut entries: Vec<FieldList> = Vec::new();
        let n = self.entries.len();
        let mut i: usize = 0;
        while i < n
            invariant
                0 <= i <= n,
                n == self.entries@.len(),
                entries@.len() == i,
                forall|j: int| 0 <= j < i ==> #[trigger] entries@[j].pairs()
                    == self.entries@[j].pairs(),
            decreases n - i,
        {
            entries.push(self.entries[i].clone());
            i = i + 1;
        }
        let r = RepeatingGroup {
            count: self.count,
            entries,
            delimiter_tag: self.delimiter_tag,
            required_tags: self.required_tags.clone(),
        };
        proof {
            assert(r.spec_entries() =~= self.spec_entries());
            assert(r.spec_required() =~= self.spec_required());
        }
        r
    }
}

/// The encoding of the first `i` entries.
pub open spec fn enc_entries_take(delim: int, es: Seq<Seq<(int, Seq<char>)>>, i: int) -> Seq<char> {
    enc_entries(delim, es.take(i))
}

pub proof fn lemma_enc_entries_take(delim: int, es: Seq<Seq<(int, Seq<char>)>>, i: int)
    requires
        i == 0,
    ensures
        enc_entries_take(delim, es, 0) == Seq::<char>::empty(),
{
    assert(es.take(0) =~= Seq::<Seq<(int, Seq<char>)>>::empty());
}

pub proof fn lemma_enc_entries_append(
    delim: int,
    a: Seq<Seq<(int, Seq<char>)>>,
    b: Seq<Seq<(int, Seq<char>)>>,
)
    ensures
        enc_entries(delim, a + b) == enc_entries(delim, a) + enc_entries(delim, b),
    decreases a.len(),
{
    if a.len() == 0 {
        assert(a + b =~= b);
        assert(enc_entries(delim, a) + enc_entries(delim, b) =~= enc_entries(delim, b));
    } else {
        lemma_enc_entries_append(delim, a.drop_first(), b);
        assert((a + b)[0] == a[0]);
        assert((a + b).drop_first() =~= a.drop_first() + b);
        assert(enc_fields(delim_first(delim, a[0])) + (enc_entries(delim, a.drop_first())
            + enc_entries(delim, b)) =~= (enc_fields(delim_first(delim, a[0])) + enc_entries(
            delim,
            a.drop_first(),
        )) + enc_entries(delim, b));
    }
}

pub proof fn lemma_enc_entries_take_step(delim: int, es: Seq<Seq<(int, Seq<char>)>>, i: int)
    requires
        0 <= i < es.len(),
    ensures
        enc_entries_take(delim, es, i + 1) == enc_entries_take(delim, es, i) + enc_fields(
            delim_first(delim, es[i]),
        ),
{
    let a = es.take(i);
    let b = seq![es[i]];
    assert(es.take(i + 1) =~= a + b);
    lemma_enc_entries_append(delim, a, b);
    assert(enc_entries(delim, b) =~= enc_fields(delim_first(delim, es[i]))) by {
        assert(b[0] == es[i]);
        assert(b.drop_first() =~= Seq::<Seq<(int, Seq<char>)>>::empty());
        assert(enc_entries(delim, b) == enc_fields(delim_first(delim, es[i])) + enc_entries(
            delim,
            Seq::<Seq<(int, Seq<char>)>>::empty(),
        ));
        assert(enc_fields(delim_first(delim, es[i])) + Seq::<char>::empty() =~= enc_fields(
            delim_first(delim, es[i]),
        ));
    }
}

pub proof fn lemma_enc_entries_take_all(delim: int, es: Seq<Seq<(int, Seq<char>)>>)
    ensures
        enc_entries_take(delim, es, es.len() as int) == enc_entries(delim, es),
{
    assert(es.take(es.len() as int) =~= es);
}

} // verus!
