//! An ordered set of fields, kept in strictly ascending tag order; the
//! backing for a message's field set and for each repeating-group entry.

use vstd::prelude::*;

use crate::message::field::Field;
use crate::message::wire::{
    insert_pairs, map_of_pairs, pairs_sorted, pairs_wf, sorted_insert, wf_pair,
    lemma_insert_pairs_props,
};

verus! {

/// Fields in strictly ascending tag order, one value per tag.
pub struct FieldList {
    items: Vec<Field>,
}

impl FieldList {
    /// The (tag, value) pairs, in order.
    pub closed spec fn pairs(&self) -> Seq<(int, Seq<char>)> {
        self.items@.map_values(|f: Field| f@)
    }

    /// The pairs as a map from tag to value.
    pub open spec fn map(&self) -> Map<int, Seq<char>> {
        map_of_pairs(self.pairs())
    }

    /// Ascending tags, well-formed fields.
    pub open spec fn wf(&self) -> bool {
        pairs_sorted(self.pairs()) && pairs_wf(self.pairs())
    }

    pub fn new() -> (r: FieldList)
        ensures
            r.wf(),
            r.pairs() == Seq::<(int, Seq<char>)>::empty(),
            r.map() == Map::<int, Seq<char>>::empty(),
    {
        let r = FieldList { items: Vec::new() };
        proof {
            assert(r.pairs() =~= Seq::<(int, Seq<char>)>::empty());
        }
        r
    }

    pub fn len(&self) -> (r: usize)
        ensures
            r == self.pairs().len(),
    {
        self.items.len()
    }

    pub fn item(&self, i: usize) -> (r: &Field)
        requires
            i < self.pairs().len(),
        ensures
            r@ == self.pairs()[i as int],
    {
        &self.items[i]
    }

    /// The field carrying `tag`, where one is present.
    pub fn get(&self, tag: i32) -> (r: Option<&Field>)
        requires
            self.wf(),
        ensures
            match r {
                Some(f) => self.map().contains_key(tag as int) && f@ == (
                    tag as int,
                    self.map()[tag as int],
                ),
                None => !self.map().contains_key(tag as int),
            },
    {
        proof {
            self.lemma_map_props();
        }
        let n = self.items.len();
        let mut i: usize = 0;
        while i < n
            invariant
                0 <= i <= n,
                n == self.pairs().len(),
                self.wf(),
                forall|j: int| 0 <= j < i ==> (#[trigger] self.pairs()[j]).0 != tag as int,
                forall|j: int|
                    0 <= j < self.pairs().len() ==> self.map()[(#[trigger] self.pairs()[j]).0]
                        == self.pairs()[j].1,
                forall|t: int|
                    #[trigger] self.map().contains_key(t) == exists|j: int|
                        0 <= j < self.pairs().len() && (#[trigger] self.pairs()[j]).0 == t,
            decreases n - i,
        {
            let f = &self.items[i];
            if f.tag() == tag {
                proof {
                    assert(self.pairs()[i as int] == f@);
                }
                return Some(f);
            }
            proof {
                assert(self.pairs()[i as int] == f@);
            }
            i = i + 1;
        }
        proof {
            if self.map().contains_key(tag as int) {
                let j = choose|j: int|
                    0 <= j < self.pairs().len() && (#[trigger] self.pairs()[j]).0 == tag as int;
                assert(false);
            }
        }
        None
    }

    /// Membership and lookups of `map()` in terms of `pairs()`.
    pub proof fn lemma_map_props(&self)
        requires
            self.wf(),
        ensures
            forall|t: int|
                #[trigger] self.map().contains_key(t) == exists|j: int|
                    0 <= j < self.pairs().len() && (#[trigger] self.pairs()[j]).0 == t,
            forall|j: int|
                0 <= j < self.pairs().len() ==> self.map()[(#[trigger] self.pairs()[j]).0]
                    == self.pairs()[j].1,
    {
        let ps = self.pairs();
        assert forall|i: int, j: int| 0 <= i < j < ps.len() implies (#[trigger] ps[i]).0 != (
        #[trigger] ps[j]).0 by {
            assert(ps[i].0 < ps[j].0);
        }
        lemma_insert_pairs_props(Map::empty(), ps);
    }

    /// Sets `field`, replacing any previous value of its tag.
    pub fn upsert(&mut self, field: Field)
        requires
            old(self).wf(),
            field.wf(),
        ensures
            final(self).wf(),
            final(self).pairs() == sorted_insert(old(self).pairs(), field@.0, field@.1),
            final(self).map() == old(self).map().insert(field@.0, field@.1),
    {
        proof {
            lemma_sorted_insert_props(self.pairs(), field@.0, field@.1);
        }
        let tag = field.tag();
        let n = self.items.len();
        let mut i: usize = 0;
        while i < n
            invariant
                0 <= i <= n,
                n == self.pairs().len(),
                old(self).wf(),
                field.wf(),
                self == old(self),
                tag as int == field@.0,
                forall|j: int| 0 <= j < i ==> (#[trigger] self.pairs()[j]).0 < tag as int,
            decreases n - i,
        {
            let t = self.items[i].tag();
            proof {
                assert(self.pairs()[i as int] == self.items@[i as int]@);
            }
            if t == tag {
                self.items[i] = field;
                proof {
                    lemma_sorted_insert_at(old(self).pairs(), field@.0, field@.1, i as int);
                    assert(self.pairs() =~= sorted_insert(
                        old(self).pairs(),
                        field@.0,
                        field@.1,
                    ));
                    lemma_sorted_insert_props(old(self).pairs(), field@.0, field@.1);
                }
                return ;
            }
            if t > tag {
                self.items.insert(i, field);
                proof {
                    lemma_sorted_insert_at(old(self).pairs(), field@.0, field@.1, i as int);
                    assert(self.pairs() =~= sorted_insert(
                        old(self).pairs(),
                        field@.0,
                        field@.1,
                    ));
                    lemma_sorted_insert_props(old(self).pairs(), field@.0, field@.1);
                }
                return ;
            }
            i = i + 1;
        }
        self.items.push(field);
        proof {
            lemma_sorted_insert_at(old(self).pairs(), field@.0, field@.1, n as int);
            assert(self.pairs() =~= sorted_insert(old(self).pairs(), field@.0, field@.1));
            lemma_sorted_insert_props(old(self).pairs(), field@.0, field@.1);
        }
    }
}

impl FieldList {
    /// Writes every field onto `out`, in tag order.
    pub fn append_wire(&self, out: &mut String)
        requires
            self.wf(),
        ensures
            final(out)@ == old(out)@ + crate::message::wire::enc_fields(self.pairs()),
    {
        let ghost base = out@;
        let n = self.items.len();
        let mut i: usize = 0;
        proof {
            assert(base + crate::message::wire::enc_fields(self.pairs().take(0)) =~= base);
        }
        while i < n
            invariant
                0 <= i <= n,
                self.wf(),
                n == self.pairs().len(),
                out@ == base + crate::message::wire::enc_fields(self.pairs().take(i as int)),
            decreases n - i,
        {
            let f = &self.items[i];
            proof {
                assert(self.pairs()[i as int] == f@);
                assert(crate::message::wire::wf_pair(self.pairs()[i as int]));
            }
            crate::message::wire::append_field(out, f.tag(), f.value());
            proof {
                lemma_take_one_more(self.pairs(), i as int);
            }
            i = i + 1;
        }
        proof {
            assert(self.pairs().take(n as int) =~= self.pairs());
        }
    }
}

/// Encoding one more pair extends the encoding by one field.
pub proof fn lemma_take_one_more(ps: Seq<(int, Seq<char>)>, i: int)
    requires
        0 <= i < ps.len(),
    ensures
        crate::message::wire::enc_fields(ps.take(i + 1)) == crate::message::wire::enc_fields(
            ps.take(i),
        ) + crate::message::wire::enc_field(ps[i].0, ps[i].1),
{
    let a = ps.take(i);
    let b = seq![ps[i]];
    assert(ps.take(i + 1) =~= a + b);
    crate::message::wire::lemma_enc_fields_append(a, b);
    assert(crate::message::wire::enc_fields(b) =~= crate::message::wire::enc_field(
        ps[i].0,
        ps[i].1,
    )) by {
        assert(b[0] == ps[i]);
        assert(b.drop_first() =~= Seq::<(int, Seq<char>)>::empty());
        assert(crate::message::wire::enc_fields(b) == crate::message::wire::enc_field(
            ps[i].0,
            ps[i].1,
        ) + crate::message::wire::enc_fields(Seq::<(int, Seq<char>)>::empty()));
        assert(crate::message::wire::enc_field(ps[i].0, ps[i].1) + Seq::<char>::empty()
            =~= crate::message::wire::enc_field(ps[i].0, ps[i].1));
    }
}

impl Clone for FieldList {
    fn clone(&self) -> (r: Self)
        ensures
            r.pairs() == self.pairs(),
    {
        let mut items: Vec<Field> = Vec::new();
        let n = self.items.len();
        let mut i: usize = 0;
        while i < n
            invariant
                0 <= i <= n,
                n == self.items@.len(),
                items@.len() == i,
                forall|j: int| 0 <= j < i ==> #[trigger] items@[j]@ == self.items@[j]@,
            decreases n - i,
        {
            items.push(self.items[i].clone());
            i = i + 1;
        }
        let r = FieldList { items };
        proof {
            assert(r.pairs() =~= self.pairs());
        }
        r
    }
}

/// Where `sorted_insert` puts the new pair: at the first index whose tag is
/// not below `t`, replacing it when the tags are equal.
pub proof fn lemma_sorted_insert_at(ps: Seq<(int, Seq<char>)>, t: int, v: Seq<char>, i: int)
    requires
        pairs_sorted(ps),
        0 <= i <= ps.len(),
        forall|j: int| 0 <= j < i ==> (#[trigger] ps[j]).0 < t,
        i < ps.len() ==> ps[i].0 >= t,
    ensures
        ps.len() == i || ps[i].0 > t ==> sorted_insert(ps, t, v) == ps.take(i) + seq![(t, v)]
            + ps.skip(i),
        i < ps.len() && ps[i].0 == t ==> sorted_insert(ps, t, v) == ps.take(i) + seq![(t, v)]
            + ps.skip(i + 1),
    decreases ps.len(),
{
    if ps.len() == 0 {
        assert(sorted_insert(ps, t, v) =~= ps.take(0) + seq![(t, v)] + ps.skip(0));
    } else if i == 0 {
        if ps[0].0 == t {
            assert(sorted_insert(ps, t, v) =~= ps.take(0) + seq![(t, v)] + ps.skip(1));
        } else {
            assert(ps[0].0 > t);
            assert(sorted_insert(ps, t, v) =~= ps.take(0) + seq![(t, v)] + ps.skip(0));
        }
    } else {
        let rest = ps.drop_first();
        assert(forall|k: int| 0 <= k < rest.len() ==> #[trigger] rest[k] == ps[k + 1]);
        assert forall|a: int, b: int| 0 <= a < b < rest.len() implies (#[trigger] rest[a]).0 < (
        #[trigger] rest[b]).0 by {
            assert(rest[a] == ps[a + 1]);
            assert(rest[b] == ps[b + 1]);
        }
        assert(ps[0].0 < t);
        lemma_sorted_insert_at(rest, t, v, i - 1);
        if ps.len() == i || ps[i].0 > t {
            assert(sorted_insert(rest, t, v) == rest.take(i - 1) + seq![(t, v)] + rest.skip(i - 1));
            assert(sorted_insert(ps, t, v) == seq![ps[0]] + sorted_insert(rest, t, v));
            assert(seq![ps[0]] + (rest.take(i - 1) + seq![(t, v)] + rest.skip(i - 1)) =~= ps.take(i)
                + seq![(t, v)] + ps.skip(i));
        } else {
            assert(ps[i].0 == t);
            assert(rest[i - 1].0 == t);
            assert(sorted_insert(rest, t, v) == rest.take(i - 1) + seq![(t, v)] + rest.skip(i));
            assert(seq![ps[0]] + (rest.take(i - 1) + seq![(t, v)] + rest.skip(i)) =~= ps.take(i)
                + seq![(t, v)] + ps.skip(i + 1));
        }
    }
}

/// `sorted_insert` keeps order and well-formedness and acts as `insert` on
/// the denoted map.
pub proof fn lemma_sorted_insert_props(ps: Seq<(int, Seq<char>)>, t: int, v: Seq<char>)
    requires
        pairs_sorted(ps),
        pairs_wf(ps),
        wf_pair((t, v)),
    ensures
        pairs_sorted(sorted_insert(ps, t, v)),
        pairs_wf(sorted_insert(ps, t, v)),
        map_of_pairs(sorted_insert(ps, t, v)) == map_of_pairs(ps).insert(t, v),
    decreases ps.len(),
{
    let out = sorted_insert(ps, t, v);
    assert forall|i: int, j: int| 0 <= i < j < ps.len() implies (#[trigger] ps[i]).0 != (
    #[trigger] ps[j]).0 by {
        assert(ps[i].0 < ps[j].0);
    }
    lemma_insert_pairs_props(Map::empty(), ps);
    if ps.len() == 0 {
        assert(out =~= seq![(t, v)]);
        assert(out[0] == (t, v));
        assert(pairs_sorted(out));
        assert(pairs_wf(out));
        lemma_sorted_distinct(out);
        lemma_insert_pairs_props(Map::empty(), out);
        assert(map_of_pairs(out) =~= map_of_pairs(ps).insert(t, v));
    } else {
        let rest = ps.drop_first();
        assert(forall|k: int| 0 <= k < rest.len() ==> #[trigger] rest[k] == ps[k + 1]);
        assert forall|a: int, b: int| 0 <= a < b < rest.len() implies (#[trigger] rest[a]).0 < (
        #[trigger] rest[b]).0 by {
            assert(rest[a] == ps[a + 1]);
            assert(rest[b] == ps[b + 1]);
        }
        assert(pairs_wf(rest)) by {
            assert(forall|k: int| 0 <= k < rest.len() ==> #[trigger] rest[k] == ps[k + 1]);
        }
        if ps[0].0 < t {
            lemma_sorted_insert_props(rest, t, v);
            let sub = sorted_insert(rest, t, v);
            assert(out == seq![ps[0]] + sub);
            assert forall|k: int| 0 <= k < sub.len() implies (#[trigger] sub[k]).0 > ps[0].0 by {
                lemma_sorted_insert_members(rest, t, v, k);
            }
            assert forall|i: int, j: int| 0 <= i < j < out.len() implies (#[trigger] out[i]).0 < (
            #[trigger] out[j]).0 by {
                if i > 0 {
                    assert(out[i] == sub[i - 1]);
                    assert(out[j] == sub[j - 1]);
                } else {
                    assert(out[j] == sub[j - 1]);
                    assert(sub[j - 1].0 > ps[0].0);
                }
            }
            assert(pairs_wf(out)) by {
                assert(forall|k: int| 1 <= k < out.len() ==> #[trigger] out[k] == sub[k - 1]);
                assert(out[0] == ps[0]);
                assert(forall|k: int|
                    0 <= k < out.len() ==> wf_pair(#[trigger] out[k]));
            }
            lemma_sorted_distinct(out);
            lemma_insert_pairs_props(Map::empty(), out);
            lemma_sorted_distinct(sub);
            lemma_insert_pairs_props(Map::empty(), sub);
            lemma_insert_pairs_props(Map::empty(), rest);
            assert forall|x: int| #[trigger] map_of_pairs(out).contains_key(x) implies
                map_of_pairs(ps).insert(t, v).contains_key(x) && map_of_pairs(out)[x]
                == map_of_pairs(ps).insert(t, v)[x] by {
                let k = choose|k: int| 0 <= k < out.len() && (#[trigger] out[k]).0 == x;
                if k == 0 {
                    assert(out[0] == ps[0]);
                    assert(map_of_pairs(out)[x] == ps[0].1);
                    assert(map_of_pairs(ps)[ps[0].0] == ps[0].1);
                } else {
                    assert(out[k] == sub[k - 1]);
                    assert(map_of_pairs(out)[x] == out[k].1);
                    assert(map_of_pairs(sub)[sub[k - 1].0] == sub[k - 1].1);
                    if x == t {
                        assert(map_of_pairs(sub) == map_of_pairs(rest).insert(t, v));
                        assert(map_of_pairs(sub)[t] == v);
                    } else {
                        lemma_sorted_insert_members(rest, t, v, k - 1);
                        assert(rest.contains(sub[k - 1]));
                        let k2 = choose|k2: int|
                            0 <= k2 < rest.len() && #[trigger] rest[k2] == sub[k - 1];
                        assert(rest[k2] == ps[k2 + 1]);
                        assert(map_of_pairs(rest)[rest[k2].0] == rest[k2].1);
                        assert(map_of_pairs(ps)[ps[k2 + 1].0] == ps[k2 + 1].1);
                        assert(map_of_pairs(ps)[x] == out[k].1);
                    }
                }
            }
            assert forall|x: int| #[trigger] map_of_pairs(ps).insert(t, v).contains_key(x) implies
                map_of_pairs(out).contains_key(x) by {
                if x == t {
                    assert(sub.contains((t, v))) by {
                        lemma_sorted_insert_contains_new(rest, t, v);
                    }
                    let k = choose|k: int| 0 <= k < sub.len() && #[trigger] sub[k] == (t, v);
                    assert(out[k + 1] == sub[k]);
                    assert(out[k + 1].0 == t);
                } else {
                    let k = choose|k: int| 0 <= k < ps.len() && (#[trigger] ps[k]).0 == x;
                    if k == 0 {
                        assert(out[0].0 == x);
                    } else {
                        assert(rest[k - 1] == ps[k]);
                        assert(map_of_pairs(rest).contains_key(x));
                        assert(map_of_pairs(sub).contains_key(x));
                        let k2 = choose|k2: int|
                            0 <= k2 < sub.len() && (#[trigger] sub[k2]).0 == x;
                        assert(out[k2 + 1] == sub[k2]);
                    }
                }
            }
            assert(map_of_pairs(out) =~= map_of_pairs(ps).insert(t, v));
        } else if ps[0].0 == t {
            assert(out == seq![(t, v)] + rest);
            assert forall|i: int, j: int| 0 <= i < j < out.len() implies (#[trigger] out[i]).0 < (
            #[trigger] out[j]).0 by {
                if i == 0 {
                    assert(out[j] == rest[j - 1]);
                    assert(rest[j - 1] == ps[j]);
                } else {
                    assert(out[i] == rest[i - 1]);
                    assert(out[j] == rest[j - 1]);
                }
            }
            assert(pairs_wf(out)) by {
                assert(out[0] == (t, v));
                assert(forall|k: int| 1 <= k < out.len() ==> #[trigger] out[k] == rest[k - 1]);
            }
            lemma_sorted_distinct(out);
            lemma_insert_pairs_props(Map::empty(), out);
            assert forall|x: int| true implies #[trigger] map_of_pairs(out).contains_key(x)
                == map_of_pairs(ps).insert(t, v).contains_key(x) by {
                if map_of_pairs(out).contains_key(x) {
                    let k = choose|k: int| 0 <= k < out.len() && (#[trigger] out[k]).0 == x;
                    if k > 0 {
                        assert(out[k] == rest[k - 1]);
                        assert(rest[k - 1] == ps[k]);
                    }
                }
                if map_of_pairs(ps).insert(t, v).contains_key(x) && x != t {
                    let k = choose|k: int| 0 <= k < ps.len() && (#[trigger] ps[k]).0 == x;
                    assert(k > 0);
                    assert(rest[k - 1] == ps[k]);
                    assert(out[k] == rest[k - 1]);
                }
            }
            assert forall|x: int| #[trigger] map_of_pairs(out).contains_key(x) implies
                map_of_pairs(out)[x] == map_of_pairs(ps).insert(t, v)[x] by {
                if x == t {
                    assert(out[0] == (t, v));
                    assert(map_of_pairs(out)[t] == v);
                } else {
                    let k = choose|k: int| 0 <= k < out.len() && (#[trigger] out[k]).0 == x;
                    assert(k > 0);
                    assert(out[k] == rest[k - 1]);
                    assert(rest[k - 1] == ps[k]);
                    assert(map_of_pairs(out)[x] == out[k].1);
                    assert(map_of_pairs(ps)[x] == ps[k].1);
                }
            }
            assert(map_of_pairs(out) =~= map_of_pairs(ps).insert(t, v));
        } else {
            assert(out == seq![(t, v)] + ps);
            assert forall|i: int, j: int| 0 <= i < j < out.len() implies (#[trigger] out[i]).0 < (
            #[trigger] out[j]).0 by {
                if i == 0 {
                    assert(out[j] == ps[j - 1]);
                    if j > 1 {
                        assert(ps[0].0 < ps[j - 1].0);
                    }
                } else {
                    assert(out[i] == ps[i - 1]);
                    assert(out[j] == ps[j - 1]);
                }
            }
            assert(pairs_wf(out)) by {
                assert(out[0] == (t, v));
                assert(forall|k: int| 1 <= k < out.len() ==> #[trigger] out[k] == ps[k - 1]);
            }
            lemma_sorted_distinct(out);
            lemma_insert_pairs_props(Map::empty(), out);
            assert forall|x: int| true implies #[trigger] map_of_pairs(out).contains_key(x)
                == map_of_pairs(ps).insert(t, v).contains_key(x) by {
                if map_of_pairs(out).contains_key(x) {
                    let k = choose|k: int| 0 <= k < out.len() && (#[trigger] out[k]).0 == x;
                    if k > 0 {
                        assert(out[k] == ps[k - 1]);
                    }
                }
                if map_of_pairs(ps).insert(t, v).contains_key(x) && x != t {
                    let k = choose|k: int| 0 <= k < ps.len() && (#[trigger] ps[k]).0 == x;
                    assert(out[k + 1] == ps[k]);
                }
            }
            assert forall|x: int| #[trigger] map_of_pairs(out).contains_key(x) implies
                map_of_pairs(out)[x] == map_of_pairs(ps).insert(t, v)[x] by {
                if x == t {
                    assert(out[0] == (t, v));
                } else {
                    let k = choose|k: int| 0 <= k < out.len() && (#[trigger] out[k]).0 == x;
                    assert(k > 0);
                    assert(out[k] == ps[k - 1]);
                    assert(map_of_pairs(out)[x] == out[k].1);
                    assert(map_of_pairs(ps)[x] == ps[k - 1].1);
                }
            }
            assert(map_of_pairs(out) =~= map_of_pairs(ps).insert(t, v));
        }
    }
}

/// Sorted pairs have distinct tags.
pub proof fn lemma_sorted_distinct(ps: Seq<(int, Seq<char>)>)
    requires
        pairs_sorted(ps),
    ensures
        forall|i: int, j: int|
            0 <= i < j < ps.len() ==> (#[trigger] ps[i]).0 != (#[trigger] ps[j]).0,
{
    assert forall|i: int, j: int| 0 <= i < j < ps.len() implies (#[trigger] ps[i]).0 != (
    #[trigger] ps[j]).0 by {
        assert(ps[i].0 < ps[j].0);
    }
}

/// The inserted pair is among the result's members.
pub proof fn lemma_sorted_insert_contains_new(ps: Seq<(int, Seq<char>)>, t: int, v: Seq<char>)
    ensures
        sorted_insert(ps, t, v).contains((t, v)),
    decreases ps.len(),
{
    let out = sorted_insert(ps, t, v);
    if ps.len() == 0 {
        assert(out[0] == (t, v));
    } else if ps[0].0 < t {
        lemma_sorted_insert_contains_new(ps.drop_first(), t, v);
        let sub = sorted_insert(ps.drop_first(), t, v);
        let k = choose|k: int| 0 <= k < sub.len() && #[trigger] sub[k] == (t, v);
        assert(out[k + 1] == sub[k]);
    } else {
        assert(out[0] == (t, v));
    }
}

/// Each member of an insertion result is the new pair or an old member.
pub proof fn lemma_sorted_insert_members(ps: Seq<(int, Seq<char>)>, t: int, v: Seq<char>, k: int)
    requires
        0 <= k < sorted_insert(ps, t, v).len(),
    ensures
        sorted_insert(ps, t, v)[k] == (t, v) || ps.contains(sorted_insert(ps, t, v)[k]),
    decreases ps.len(),
{
    let out = sorted_insert(ps, t, v);
    if ps.len() == 0 {
    } else if ps[0].0 < t {
        let sub = sorted_insert(ps.drop_first(), t, v);
        if k == 0 {
            assert(out[0] == ps[0]);
            assert(ps.contains(ps[0]));
        } else {
            assert(out[k] == sub[k - 1]);
            lemma_sorted_insert_members(ps.drop_first(), t, v, k - 1);
            if sub[k - 1] != (t, v) {
                let j = choose|j: int|
                    0 <= j < ps.drop_first().len() && #[trigger] ps.drop_first()[j] == sub[k - 1];
                assert(ps[j + 1] == ps.drop_first()[j]);
                assert(ps.contains(ps[j + 1]));
            }
        }
    } else if ps[0].0 == t {
        if k > 0 {
            assert(out[k] == ps.drop_first()[k - 1]);
            assert(ps.drop_first()[k - 1] == ps[k]);
            assert(ps.contains(ps[k]));
        }
    } else {
        if k > 0 {
            assert(out[k] == ps[k - 1]);
            assert(ps.contains(ps[k - 1]));
        }
    }
}

} // verus!
