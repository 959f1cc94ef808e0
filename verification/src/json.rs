//! The value model: a tagged union over booleans, numbers (kept as their
//! literal text), strings, arrays, objects and null, together with its
//! mathematical view, its well-formedness invariant, and the checked
//! accessors.
//!
//! Objects keep their entries in insertion order in a vector and carry a
//! hash index from a key hash to the entry positions bearing that hash, so
//! lookups and duplicate checks need not scan the whole object.

use vstd::prelude::*;
use std::collections::HashMap;
use crate::errors::JSONError;
use crate::numtext::{
    check_number, dec_digits, dec_i64, dec_signed, dec_u64, is_number, lemma_dec_digits_is_number,
    lemma_dec_signed_is_number,
};

verus! {

/// The mathematical shape of a value: numbers and strings are character
/// sequences, arrays are sequences of values, objects are sequences of
/// key-value pairs in insertion order.
pub enum SpecValue {
    Bool(bool),
    Num(Seq<char>),
    Str(Seq<char>),
    Arr(Seq<SpecValue>),
    Obj(Seq<(Seq<char>, SpecValue)>),
    Null,
}

/// Whether an object holds an entry for `key`.
pub open spec fn obj_has(es: Seq<(Seq<char>, SpecValue)>, key: Seq<char>) -> bool {
    exists|i: int| 0 <= i < es.len() && es[i].0 == key
}

/// The position of the entry for `key`.
pub open spec fn obj_pos(es: Seq<(Seq<char>, SpecValue)>, key: Seq<char>) -> int {
    choose|i: int| 0 <= i < es.len() && es[i].0 == key
}

/// The value mapped to `key`.
pub open spec fn obj_at(es: Seq<(Seq<char>, SpecValue)>, key: Seq<char>) -> SpecValue {
    es[obj_pos(es, key)].1
}

/// Keys of an object are pairwise distinct.
pub open spec fn obj_keys_unique(es: Seq<(Seq<char>, SpecValue)>) -> bool {
    forall|i: int, j: int| 0 <= i < j < es.len() ==> es[i].0 != es[j].0
}

/// Well-formedness of a value shape: number texts follow the number
/// grammar, and object keys are unique, recursively.
pub open spec fn spec_wf(v: SpecValue) -> bool
    decreases v,
{
    match v {
        SpecValue::Bool(_) => true,
        SpecValue::Num(s) => is_number(s),
        SpecValue::Str(_) => true,
        SpecValue::Arr(a) => forall|i: int| 0 <= i < a.len() ==> spec_wf(#[trigger] a[i]),
        SpecValue::Obj(es) => obj_keys_unique(es) && forall|i: int|
            0 <= i < es.len() ==> spec_wf(#[trigger] es[i].1),
        SpecValue::Null => true,
    }
}

/// The in-memory value. A `Number` holds the literal text of the number; an
/// `Object` holds its entries behind a hash index.
#[derive(Debug, PartialEq)]
pub enum JSONValue {
    /// The primitive boolean type.
    Bool(bool),
    /// The primitive numeric type, kept as the literal text of the number.
    Number(String),
    /// The primitive string type.
    String(String),
    /// The array type: a vector of values in order.
    Array(Vec<JSONValue>),
    /// The object type: key-value pairs with unique keys.
    Object(JsonObject),
    /// The null type.
    Null,
}

/// The entries of an object, with a hash index over the keys.
#[derive(Debug, PartialEq)]
pub struct JsonObject {
    entries: Vec<(String, JSONValue)>,
    index: HashMap<u64, Vec<usize>>,
}

/// The hash folded over the characters of a key, used by the object index.
pub open spec fn spec_hash_step(h: u64, c: char) -> u64 {
    (h ^ (c as u64)).wrapping_mul(0x100000001b3u64)
}

pub open spec fn spec_hash(s: Seq<char>) -> u64
    decreases s.len(),
{
    if s.len() == 0 {
        0xcbf29ce484222325u64
    } else {
        spec_hash_step(spec_hash(s.drop_last()), s.last())
    }
}

/// The view of a sequence of values.
pub open spec fn view_of_seq(s: Seq<JSONValue>) -> Seq<SpecValue>
    decreases s,
{
    if s.len() == 0 {
        Seq::empty()
    } else {
        view_of_seq(s.drop_last()).push(view_of(s.last()))
    }
}

/// The view of a sequence of object entries.
pub open spec fn view_of_entries(s: Seq<(String, JSONValue)>) -> Seq<(Seq<char>, SpecValue)>
    decreases s,
{
    if s.len() == 0 {
        Seq::empty()
    } else {
        view_of_entries(s.drop_last()).push((s.last().0@, view_of(s.last().1)))
    }
}

/// The view of a value.
pub open spec fn view_of(v: JSONValue) -> SpecValue
    decreases v,
{
    match v {
        JSONValue::Bool(b) => SpecValue::Bool(b),
        JSONValue::Number(s) => SpecValue::Num(s@),
        JSONValue::String(s) => SpecValue::Str(s@),
        JSONValue::Array(a) => SpecValue::Arr(view_of_seq(a@)),
        JSONValue::Object(o) => SpecValue::Obj(view_of_entries(o.spec_entries())),
        JSONValue::Null => SpecValue::Null,
    }
}

impl View for JSONValue {
    type V = SpecValue;

    open spec fn view(&self) -> SpecValue {
        view_of(*self)
    }
}

impl View for JsonObject {
    type V = Seq<(Seq<char>, SpecValue)>;

    open spec fn view(&self) -> Seq<(Seq<char>, SpecValue)> {
        view_of_entries(self.spec_entries())
    }
}

pub proof fn lemma_view_of_seq(s: Seq<JSONValue>)
    ensures
        view_of_seq(s).len() == s.len(),
        forall|i: int| 0 <= i < s.len() ==> view_of_seq(s)[i] == view_of(#[trigger] s[i]),
    decreases s.len(),
{
    if s.len() > 0 {
        lemma_view_of_seq(s.drop_last());
        assert forall|i: int| 0 <= i < s.len() implies view_of_seq(s)[i] == view_of(
            #[trigger] s[i],
        ) by {
            if i < s.len() - 1 {
                assert(s.drop_last()[i] == s[i]);
                assert(view_of_seq(s)[i] == view_of_seq(s.drop_last())[i]);
            } else {
                assert(view_of_seq(s)[i] == view_of(s.last()));
            }
        }
    }
}

pub proof fn lemma_view_of_entries(s: Seq<(String, JSONValue)>)
    ensures
        view_of_entries(s).len() == s.len(),
        forall|i: int| 0 <= i < s.len() ==> view_of_entries(s)[i] == (
        #[trigger] s[i].0@,
        view_of(s[i].1),
        ),
    decreases s.len(),
{
    if s.len() > 0 {
        lemma_view_of_entries(s.drop_last());
        assert forall|i: int| 0 <= i < s.len() implies view_of_entries(s)[i] == ((
        #[trigger] s[i].0@,
        view_of(s[i].1),
        )) by {
            if i < s.len() - 1 {
                assert(s.drop_last()[i] == s[i]);
                assert(view_of_entries(s)[i] == view_of_entries(s.drop_last())[i]);
            } else {
                assert(view_of_entries(s)[i] == (s.last().0@, view_of(s.last().1)));
            }
        }
    }
}

impl JsonObject {
    /// The entries as the specification sees them.
    pub closed spec fn spec_entries(&self) -> Seq<(String, JSONValue)> {
        self.entries@
    }

    /// The hash index is consistent with the entries and keys are unique.
    pub closed spec fn map_inv(&self) -> bool {
        let es = self.entries@;
        let idx = self.index@;
        &&& forall|j: int|
            0 <= j < es.len() ==> {
                let h = spec_hash(#[trigger] es[j].0@);
                idx.contains_key(h) && idx[h]@.contains(j as usize)
            }
        &&& forall|h: u64|
            idx.contains_key(h) ==> forall|k: int|
                0 <= k < idx[h]@.len() ==> (#[trigger] idx[h]@[k] as int) < es.len()
                    && spec_hash(es[idx[h]@[k] as int].0@) == h
        &&& forall|i: int, j: int| 0 <= i < j < es.len() ==> es[i].0@ != es[j].0@
    }
}

/// The full invariant of a value: well-formed number texts, and every
/// object index consistent with its entries, recursively.
pub open spec fn value_inv(v: JSONValue) -> bool
    decreases v,
{
    match v {
        JSONValue::Number(s) => is_number(s@),
        JSONValue::Array(a) => forall|i: int| 0 <= i < a@.len() ==> value_inv(#[trigger] a@[i]),
        JSONValue::Object(o) => o.map_inv() && forall|i: int|
            0 <= i < o.spec_entries().len() ==> value_inv(#[trigger] o.spec_entries()[i].1),
        _ => true,
    }
}

/// A value with its invariant has a well-formed view.
pub proof fn lemma_value_inv_wf(v: JSONValue)
    requires
        value_inv(v),
    ensures
        spec_wf(v@),
    decreases v,
{
    match v {
        JSONValue::Array(a) => {
            lemma_view_of_seq(a@);
            assert forall|i: int| 0 <= i < view_of_seq(a@).len() implies spec_wf(
                #[trigger] view_of_seq(a@)[i],
            ) by {
                lemma_value_inv_wf(a@[i]);
            }
        },
        JSONValue::Object(o) => {
            let es = o.spec_entries();
            lemma_view_of_entries(es);
            assert forall|i: int| 0 <= i < view_of_entries(es).len() implies spec_wf(
                #[trigger] view_of_entries(es)[i].1,
            ) by {
                lemma_value_inv_wf(es[i].1);
            }
            let ves = view_of_entries(es);
            assert forall|i: int, j: int| 0 <= i < j < ves.len() implies ves[i].0 != ves[j].0 by {
                assert(ves[i].0 == es[i].0@);
                assert(ves[j].0 == es[j].0@);
            }
            assert(obj_keys_unique(ves));
            assert(v@ == SpecValue::Obj(ves));
        },
        _ => {},
    }
}

pub proof fn lemma_view_of_seq_push(s: Seq<JSONValue>, v: JSONValue)
    ensures
        view_of_seq(s.push(v)) == view_of_seq(s).push(view_of(v)),
{
    assert(s.push(v).drop_last() =~= s);
    assert(s.push(v).last() == v);
}

pub proof fn lemma_view_of_entries_push(s: Seq<(String, JSONValue)>, e: (String, JSONValue))
    ensures
        view_of_entries(s.push(e)) == view_of_entries(s).push((e.0@, view_of(e.1))),
{
    assert(s.push(e).drop_last() =~= s);
    assert(s.push(e).last() == e);
}

pub proof fn lemma_view_of_seq_remove(s: Seq<JSONValue>, i: int)
    requires
        0 <= i < s.len(),
    ensures
        view_of_seq(s.remove(i)) == view_of_seq(s).remove(i),
{
    lemma_view_of_seq(s);
    lemma_view_of_seq(s.remove(i));
    assert forall|t: int| 0 <= t < s.len() - 1 implies view_of_seq(s.remove(i))[t]
        == view_of_seq(s).remove(i)[t] by {
        let t0: int = if t < i {
            t
        } else {
            t + 1
        };
        assert(s.remove(i)[t] == s[t0]);
        assert(view_of_seq(s).remove(i)[t] == view_of_seq(s)[t0]);
        assert(view_of_seq(s)[t0] == view_of(s[t0]));
        assert(view_of_seq(s.remove(i))[t] == view_of(s.remove(i)[t]));
    }
    assert(view_of_seq(s.remove(i)) =~= view_of_seq(s).remove(i));
}

pub proof fn lemma_view_of_seq_insert(s: Seq<JSONValue>, i: int, v: JSONValue)
    requires
        0 <= i <= s.len(),
    ensures
        view_of_seq(s.insert(i, v)) == view_of_seq(s).insert(i, view_of(v)),
{
    lemma_view_of_seq(s);
    lemma_view_of_seq(s.insert(i, v));
    assert forall|t: int| 0 <= t < s.len() + 1 implies view_of_seq(s.insert(i, v))[t]
        == view_of_seq(s).insert(i, view_of(v))[t] by {
        assert(view_of_seq(s.insert(i, v))[t] == view_of(s.insert(i, v)[t]));
        if t < i {
            assert(s.insert(i, v)[t] == s[t]);
            assert(view_of_seq(s).insert(i, view_of(v))[t] == view_of_seq(s)[t]);
            assert(view_of_seq(s)[t] == view_of(s[t]));
        } else if t == i {
            assert(s.insert(i, v)[t] == v);
            assert(view_of_seq(s).insert(i, view_of(v))[t] == view_of(v));
        } else {
            assert(s.insert(i, v)[t] == s[t - 1]);
            assert(view_of_seq(s).insert(i, view_of(v))[t] == view_of_seq(s)[t - 1]);
            assert(view_of_seq(s)[t - 1] == view_of(s[t - 1]));
        }
    }
    assert(view_of_seq(s.insert(i, v)) =~= view_of_seq(s).insert(i, view_of(v)));
}

pub proof fn lemma_view_of_entries_remove(s: Seq<(String, JSONValue)>, i: int)
    requires
        0 <= i < s.len(),
    ensures
        view_of_entries(s.remove(i)) == view_of_entries(s).remove(i),
{
    lemma_view_of_entries(s);
    lemma_view_of_entries(s.remove(i));
    assert forall|t: int| 0 <= t < s.len() - 1 implies view_of_entries(s.remove(i))[t]
        == view_of_entries(s).remove(i)[t] by {
        let t0: int = if t < i {
            t
        } else {
            t + 1
        };
        assert(s.remove(i)[t] == s[t0]);
        assert(view_of_entries(s).remove(i)[t] == view_of_entries(s)[t0]);
        assert(view_of_entries(s)[t0] == (s[t0].0@, view_of(s[t0].1)));
        assert(view_of_entries(s.remove(i))[t] == (s.remove(i)[t].0@, view_of(s.remove(i)[t].1)));
    }
    assert(view_of_entries(s.remove(i)) =~= view_of_entries(s).remove(i));
}

/// An object that satisfies the index invariant has unique keys in its view.
pub proof fn lemma_obj_view_unique(o: JsonObject)
    requires
        o.map_inv(),
    ensures
        obj_keys_unique(o@),
{
    lemma_view_of_entries(o.spec_entries());
    assert forall|i: int, j: int| 0 <= i < j < o@.len() implies o@[i].0 != o@[j].0 by {
        assert(o@[i].0 == o.spec_entries()[i].0@);
        assert(o@[j].0 == o.spec_entries()[j].0@);
    }
}

/// Presence of a key in the entries equals presence in the view.
pub proof fn lemma_has_key_view(o: JsonObject, k: Seq<char>)
    ensures
        o.has_key(k) == obj_has(o@, k),
{
    lemma_view_of_entries(o.spec_entries());
    if o.has_key(k) {
        let j = choose|j: int|
            0 <= j < o.spec_entries().len() && (#[trigger] o.spec_entries()[j].0@) == k;
        assert(o@[j].0 == k);
    }
    if obj_has(o@, k) {
        let j = choose|j: int| 0 <= j < o@.len() && o@[j].0 == k;
        assert(o.spec_entries()[j].0@ == k);
    }
}

/// With unique keys, any position holding `key` is the position `obj_pos`
/// picks, so `obj_at` is the value stored there.
pub proof fn lemma_obj_at_unique(es: Seq<(Seq<char>, SpecValue)>, key: Seq<char>, i: int)
    requires
        obj_keys_unique(es),
        0 <= i < es.len(),
        es[i].0 == key,
    ensures
        obj_has(es, key),
        obj_pos(es, key) == i,
        obj_at(es, key) == es[i].1,
{
    assert(obj_has(es, key));
    let p = obj_pos(es, key);
    assert(0 <= p < es.len() && es[p].0 == key);
}

/// The hash of a string's characters.
fn hash_str(s: &str) -> (h: u64)
    ensures
        h == spec_hash(s@),
{
    let n = s.unicode_len();
    let mut h: u64 = 0xcbf29ce484222325u64;
    let mut i: usize = 0;
    while i < n
        invariant
            i <= n,
            n == s@.len(),
            h == spec_hash(s@.take(i as int)),
        decreases n - i,
    {
        let c = s.get_char(i);
        proof {
            assert(s@.take(i + 1).drop_last() =~= s@.take(i as int));
            assert(s@.take(i + 1).last() == s@[i as int]);
        }
        h = (h ^ (c as u64)).wrapping_mul(0x100000001b3u64);
        i = i + 1;
    }
    proof {
        assert(s@.take(n as int) =~= s@);
    }
    h
}

impl JsonObject {
    /// An empty object.
    pub fn new() -> (o: JsonObject)
        ensures
            o@ =~= Seq::<(Seq<char>, SpecValue)>::empty(),
            o.map_inv(),
            o.spec_entries() =~= Seq::<(String, JSONValue)>::empty(),
    {
        JsonObject { entries: Vec::new(), index: HashMap::new() }
    }

    /// The number of entries.
    pub fn len(&self) -> (n: usize)
        ensures
            n == self.spec_entries().len(),
    {
        self.entries.len()
    }

    /// The position of the entry for `key`.
    pub open spec fn key_pos(&self, k: Seq<char>) -> int {
        choose|j: int| 0 <= j < self.spec_entries().len() && self.spec_entries()[j].0@ == k
    }

    /// Whether an entry for `key` is present.
    pub open spec fn has_key(&self, k: Seq<char>) -> bool {
        exists|j: int| 0 <= j < self.spec_entries().len() && (#[trigger] self.spec_entries()[j].0@)
            == k
    }

    /// The entry at position `i`, in insertion order.
    pub fn entry_at(&self, i: usize) -> (r: &(String, JSONValue))
        requires
            i < self.spec_entries().len(),
        ensures
            *r == self.spec_entries()[i as int],
    {
        &self.entries[i]
    }

    /// The position of the entry for `key`, if present.
    fn find(&self, key: &str) -> (r: Option<usize>)
        requires
            self.map_inv(),
        ensures
            match r {
                Some(i) => i < self.spec_entries().len() && self.spec_entries()[i as int].0@
                    == key@,
                None => forall|j: int|
                    0 <= j < self.spec_entries().len() ==> (#[trigger] self.spec_entries()[j].0@)
                        != key@,
            },
    {
        let h = hash_str(key);
        let kstr = String::from_str(key);
        match self.index.get(&h) {
            None => {
                proof {
                    assert(self.entries.len() == self.entries@.len());
                    assert forall|j: int| 0 <= j < self.entries@.len() implies (
                    #[trigger] self.entries@[j].0@) != key@ by {
                        if self.entries@[j].0@ == key@ {
                            assert(self.index@.contains_key(spec_hash(self.entries@[j].0@)));
                        }
                    }
                }
                None
            },
            Some(bucket) => {
                let m = bucket.len();
                let mut k: usize = 0;
                loop
                    invariant
                        self.map_inv(),
                        self.index@.contains_key(h),
                        bucket@ == self.index@[h]@,
                        m == bucket@.len(),
                        k <= m,
                        kstr@ == key@,
                        h == spec_hash(key@),
                        forall|t: int|
                            0 <= t < k ==> self.entries@[#[trigger] bucket@[t] as int].0@ != key@,
                    ensures
                        (k < m && self.entries@[bucket@[k as int] as int].0@ == key@) || (k == m
                            && forall|t: int|
                            0 <= t < m ==> self.entries@[#[trigger] bucket@[t] as int].0@ != key@),
                    decreases m - k,
                {
                    if k == m {
                        break;
                    }
                    let e = bucket[k];
                    if self.entries[e].0 == kstr {
                        break;
                    }
                    k = k + 1;
                }
                if k < m {
                    Some(bucket[k])
                } else {
                    proof {
                        assert(self.entries.len() == self.entries@.len());
                        assert forall|j: int| 0 <= j < self.entries@.len() implies (
                        #[trigger] self.entries@[j].0@) != key@ by {
                            if self.entries@[j].0@ == key@ {
                                let b = self.index@[h]@;
                                assert(self.index@.contains_key(h) && b.contains(j as usize));
                                let t = choose|t: int| 0 <= t < b.len() && b[t] == j as usize;
                                assert(b[t] as int == j);
                                assert(self.entries@[b[t] as int].0@ != key@);
                            }
                        }
                    }
                    None
                }
            },
        }
    }

    /// Add an entry at the end, unless the key is already present.
    pub fn insert(&mut self, key: String, val: JSONValue) -> (ok: bool)
        requires
            old(self).map_inv(),
        ensures
            final(self).map_inv(),
            ok == !old(self).has_key(key@),
            ok ==> final(self).spec_entries() == old(self).spec_entries().push((key, val)),
            !ok ==> *final(self) == *old(self),
    {
        let present = self.find(key.as_str()).is_some();
        if present {
            proof {
                assert(old(self).has_key(key@));
            }
            return false;
        }
        let h = hash_str(key.as_str());
        let j = self.entries.len();
        let ghost old_entries = self.entries@;
        let ghost old_idx = self.index@;
        self.entries.push((key, val));
        let bucket = self.index.remove(&h);
        match bucket {
            Some(mut b) => {
                proof {
                    assert(old_idx.contains_key(h) && b@ == old_idx[h]@);
                }
                b.push(j);
                self.index.insert(h, b);
            },
            None => {
                proof {
                    assert(!old_idx.contains_key(h));
                }
                let mut b: Vec<usize> = Vec::new();
                b.push(j);
                self.index.insert(h, b);
            },
        }
        proof {
            let es = self.entries@;
            let idx = self.index@;
            assert(es == old_entries.push((key, val)));
            assert(es.len() == old_entries.len() + 1);
            // every entry is reachable through its bucket
            assert forall|t: int| 0 <= t < es.len() implies {
                let hh = spec_hash(#[trigger] es[t].0@);
                idx.contains_key(hh) && idx[hh]@.contains(t as usize)
            } by {
                if t < es.len() - 1 {
                    assert(es[t] == old_entries[t]);
                    let hh = spec_hash(es[t].0@);
                    assert(old_idx.contains_key(hh) && old_idx[hh]@.contains(t as usize));
                    if hh == h {
                        assert(idx[hh]@ == old_idx[h]@.push(j));
                        let w = choose|w: int|
                            0 <= w < old_idx[h]@.len() && old_idx[h]@[w] == t as usize;
                        assert(idx[hh]@[w] == t as usize);
                    } else {
                        assert(idx[hh]@ == old_idx[hh]@);
                    }
                } else {
                    assert(es[t] == (key, val));
                    assert(idx[h]@.last() == j);
                    assert(j as int == t);
                }
            }
            // every bucket slot points at an entry with the matching hash
            assert forall|hh: u64| idx.contains_key(hh) implies forall|k: int|
                0 <= k < idx[hh]@.len() ==> (#[trigger] idx[hh]@[k] as int) < es.len()
                    && spec_hash(es[idx[hh]@[k] as int].0@) == hh by {
                assert forall|k: int|
                    0 <= k < idx[hh]@.len() implies (#[trigger] idx[hh]@[k] as int) < es.len()
                        && spec_hash(es[idx[hh]@[k] as int].0@) == hh by {
                    if hh == h {
                        if k < idx[hh]@.len() - 1 {
                            assert(old_idx.contains_key(h));
                            assert(idx[hh]@[k] == old_idx[h]@[k]);
                            assert(es[old_idx[h]@[k] as int] == old_entries[old_idx[h]@[k] as int]);
                        } else {
                            assert(idx[hh]@[k] == j);
                            assert(es[j as int].0@ == key@);
                        }
                    } else {
                        assert(idx[hh]@ == old_idx[hh]@);
                        assert(old_idx.contains_key(hh));
                        assert(es[old_idx[hh]@[k] as int] == old_entries[old_idx[hh]@[k] as int]);
                    }
                }
            }
            // keys stay unique
            assert forall|a: int, bq: int| 0 <= a < bq < es.len() implies es[a].0@ != es[bq].0@ by {
                if bq < es.len() - 1 {
                    assert(es[a] == old_entries[a] && es[bq] == old_entries[bq]);
                } else {
                    assert(es[a] == old_entries[a]);
                    assert(old(self).spec_entries()[a].0@ != key@);
                    assert(es[bq].0@ == key@);
                }
            }
        }
        true
    }

    /// Build the hash index afresh from the entries.
    fn rebuild_index(&mut self)
        requires
            forall|a: int, b: int|
                0 <= a < b < old(self).spec_entries().len() ==> old(self).spec_entries()[a].0@
                    != old(self).spec_entries()[b].0@,
        ensures
            final(self).spec_entries() == old(self).spec_entries(),
            final(self).map_inv(),
    {
        self.index = HashMap::new();
        let n = self.entries.len();
        let mut j: usize = 0;
        while j < n
            invariant
                j <= n,
                n == self.entries@.len(),
                self.entries@ == old(self).spec_entries(),
                forall|a: int, b: int|
                    0 <= a < b < self.entries@.len() ==> self.entries@[a].0@
                        != self.entries@[b].0@,
                forall|t: int|
                    0 <= t < j ==> {
                        let hh = spec_hash(#[trigger] self.entries@[t].0@);
                        self.index@.contains_key(hh) && self.index@[hh]@.contains(t as usize)
                    },
                forall|hh: u64|
                    self.index@.contains_key(hh) ==> forall|k: int|
                        0 <= k < self.index@[hh]@.len() ==> (#[trigger] self.index@[hh]@[k] as int)
                            < j && spec_hash(self.entries@[self.index@[hh]@[k] as int].0@) == hh,
            decreases n - j,
        {
            let h = hash_str(self.entries[j].0.as_str());
            let ghost old_idx = self.index@;
            match self.index.remove(&h) {
                Some(mut b) => {
                    proof {
                        assert(old_idx.contains_key(h) && b@ == old_idx[h]@);
                    }
                    b.push(j);
                    self.index.insert(h, b);
                },
                None => {
                    proof {
                        assert(!old_idx.contains_key(h));
                    }
                    let mut b: Vec<usize> = Vec::new();
                    b.push(j);
                    self.index.insert(h, b);
                },
            }
            proof {
                let idx = self.index@;
                assert forall|t: int| 0 <= t < j + 1 implies {
                    let hh = spec_hash(#[trigger] self.entries@[t].0@);
                    idx.contains_key(hh) && idx[hh]@.contains(t as usize)
                } by {
                    let hh = spec_hash(self.entries@[t].0@);
                    if t < j {
                        assert(old_idx.contains_key(hh) && old_idx[hh]@.contains(t as usize));
                        if hh == h {
                            let w = choose|w: int|
                                0 <= w < old_idx[h]@.len() && old_idx[h]@[w] == t as usize;
                            assert(idx[hh]@[w] == t as usize);
                        } else {
                            assert(idx[hh]@ == old_idx[hh]@);
                        }
                    } else {
                        assert(idx[h]@.last() == j);
                    }
                }
                assert forall|hh: u64| idx.contains_key(hh) implies forall|k: int|
                    0 <= k < idx[hh]@.len() ==> (#[trigger] idx[hh]@[k] as int) < j + 1
                        && spec_hash(self.entries@[idx[hh]@[k] as int].0@) == hh by {
                    assert forall|k: int|
                        0 <= k < idx[hh]@.len() implies (#[trigger] idx[hh]@[k] as int) < j + 1
                            && spec_hash(self.entries@[idx[hh]@[k] as int].0@) == hh by {
                        if hh == h {
                            if k < idx[hh]@.len() - 1 {
                                assert(old_idx.contains_key(h));
                                assert(idx[hh]@[k] == old_idx[h]@[k]);
                            } else {
                                assert(idx[hh]@[k] == j);
                            }
                        } else {
                            assert(idx[hh]@ == old_idx[hh]@);
                            assert(old_idx.contains_key(hh));
                        }
                    }
                }
            }
            j = j + 1;
        }
    }

    /// Remove the entry for `key`, keeping the order of the others.
    pub fn remove(&mut self, key: &str) -> (r: Option<(String, JSONValue)>)
        requires
            old(self).map_inv(),
        ensures
            final(self).map_inv(),
            match r {
                Some(kv) => {
                    &&& old(self).has_key(key@)
                    &&& kv == old(self).spec_entries()[old(self).key_pos(key@)]
                    &&& final(self).spec_entries() == old(self).spec_entries().remove(
                        old(self).key_pos(key@),
                    )
                },
                None => !old(self).has_key(key@) && *final(self) == *old(self),
            },
    {
        match self.find(key) {
            None => None,
            Some(i) => {
                proof {
                    assert(old(self).has_key(key@));
                    let p = old(self).key_pos(key@);
                    if p != i as int {
                        assert(old(self).spec_entries()[p].0@ == key@);
                        assert(false);
                    }
                }
                let ghost old_entries = self.entries@;
                let kv = self.entries.remove(i);
                proof {
                    assert forall|a: int, b: int|
                        0 <= a < b < self.entries@.len() implies self.entries@[a].0@
                        != self.entries@[b].0@ by {
                        let a0: int = if a < i as int {
                            a
                        } else {
                            a + 1
                        };
                        let b0: int = if b < i as int {
                            b
                        } else {
                            b + 1
                        };
                        assert(self.entries@[a] == old_entries[a0]);
                        assert(self.entries@[b] == old_entries[b0]);
                    }
                }
                self.rebuild_index();
                Some(kv)
            },
        }
    }
}

impl From<bool> for JSONValue {
    fn from(value: bool) -> (r: JSONValue) {
        JSONValue::Bool(value)
    }
}

impl vstd::std_specs::convert::FromSpecImpl<bool> for JSONValue {
    open spec fn obeys_from_spec() -> bool {
        true
    }

    open spec fn from_spec(value: bool) -> JSONValue {
        JSONValue::Bool(value)
    }
}

impl From<String> for JSONValue {
    fn from(value: String) -> (r: JSONValue) {
        JSONValue::String(value)
    }
}

impl vstd::std_specs::convert::FromSpecImpl<String> for JSONValue {
    open spec fn obeys_from_spec() -> bool {
        true
    }

    open spec fn from_spec(value: String) -> JSONValue {
        JSONValue::String(value)
    }
}

impl From<Vec<JSONValue>> for JSONValue {
    fn from(value: Vec<JSONValue>) -> (r: JSONValue) {
        JSONValue::Array(value)
    }
}

impl vstd::std_specs::convert::FromSpecImpl<Vec<JSONValue>> for JSONValue {
    open spec fn obeys_from_spec() -> bool {
        true
    }

    open spec fn from_spec(value: Vec<JSONValue>) -> JSONValue {
        JSONValue::Array(value)
    }
}

impl From<()> for JSONValue {
    fn from(value: ()) -> (r: JSONValue) {
        JSONValue::Null
    }
}

impl vstd::std_specs::convert::FromSpecImpl<()> for JSONValue {
    open spec fn obeys_from_spec() -> bool {
        true
    }

    open spec fn from_spec(value: ()) -> JSONValue {
        JSONValue::Null
    }
}

/// An object entry's value is structurally below the object, so recursion
/// on it terminates.
pub proof fn lemma_obj_entry_decreases(o: &JsonObject, i: int)
    requires
        0 <= i < o.spec_entries().len(),
    ensures
        decreases_to!(*o => o.spec_entries()[i].1),
{
    assert(decreases_to!(*o => o.entries));
    assert(decreases_to!(o.entries => o.entries@[i]));
    assert(decreases_to!(o.entries@[i] => o.entries@[i].1));
}

/// The name of a value's variant, as used in diagnostics.
pub open spec fn spec_name(v: SpecValue) -> Seq<char> {
    match v {
        SpecValue::Bool(_) => "boolean"@,
        SpecValue::Num(_) => "number"@,
        SpecValue::Str(_) => "string"@,
        SpecValue::Arr(_) => "array"@,
        SpecValue::Obj(_) => "object"@,
        SpecValue::Null => "null"@,
    }
}

impl JSONValue {
    /// The variant name, used in error messages.
    pub fn name(&self) -> (r: &'static str)
        ensures
            r@ == spec_name(self@),
    {
        match self {
            JSONValue::Bool(_) => "boolean",
            JSONValue::Number(_) => "number",
            JSONValue::String(_) => "string",
            JSONValue::Array(_) => "array",
            JSONValue::Object(_) => "object",
            JSONValue::Null => "null",
        }
    }

    /// A null value.
    pub fn null() -> (r: JSONValue)
        ensures
            r@ == SpecValue::Null,
            value_inv(r),
    {
        JSONValue::Null
    }

    /// A number value from its literal text.
    ///
    /// Fails with a `ValueError` when the text does not follow the number
    /// grammar.
    pub fn number(text: String) -> (r: Result<JSONValue, JSONError>)
        ensures
            is_number(text@) ==> r is Ok && r.unwrap()@ == SpecValue::Num(text@) && value_inv(
                r.unwrap(),
            ),
            !is_number(text@) ==> r is Err && r.unwrap_err() is ValueError,
    {
        if check_number(text.as_str()) {
            Ok(JSONValue::Number(text))
        } else {
            let mut m = String::from_str("malformed number text: ");
            m.append(text.as_str());
            Err(JSONError::ValueError(m))
        }
    }

    /// A number value carrying the decimal text of `n`.
    pub fn from_u64(n: u64) -> (r: JSONValue)
        ensures
            r@ == SpecValue::Num(dec_digits(n as int)),
            value_inv(r),
    {
        proof {
            lemma_dec_digits_is_number(n as int);
        }
        JSONValue::Number(dec_u64(n))
    }

    /// A number value carrying the decimal text of `n`.
    pub fn from_i64(n: i64) -> (r: JSONValue)
        ensures
            r@ == SpecValue::Num(dec_signed(n as int)),
            value_inv(r),
    {
        proof {
            lemma_dec_signed_is_number(n as int);
        }
        JSONValue::Number(dec_i64(n))
    }

    /// A value from an optional primitive: absence maps to null.
    pub fn from_option<T>(value: Option<T>) -> (r: JSONValue) where JSONValue: From<T>
        ensures
            value is None ==> r@ == SpecValue::Null && value_inv(r),
            value matches Some(t) ==> ((
            <JSONValue as vstd::std_specs::convert::FromSpec<T>>::obeys_from_spec()) ==> r
                == (<JSONValue as vstd::std_specs::convert::FromSpec<T>>::from_spec(t))),
    {
        match value {
            Some(t) => JSONValue::from(t),
            None => JSONValue::Null,
        }
    }

    /// The error reported when `self` has the wrong variant for an
    /// operation that expects `expected`.
    pub(crate) fn wrong_variant(&self, expected: &str) -> (r: JSONError)
        ensures
            r is ValueError,
    {
        let mut m = String::from_str("expected ");
        m.append(expected);
        m.append(", found ");
        m.append(self.name());
        JSONError::ValueError(m)
    }

    /// Look up `key` in an object.
    ///
    /// Fails with a `ValueError` when `self` is not an object and with a
    /// `KeyError` when the key is absent; otherwise hands back the mapped
    /// value.
    pub fn get(&self, key: &str) -> (r: Result<&JSONValue, JSONError>)
        requires
            value_inv(*self),
        ensures
            match self@ {
                SpecValue::Obj(es) => {
                    &&& obj_has(es, key@) ==> r is Ok && r.unwrap()@ == obj_at(es, key@)
                        && value_inv(*r.unwrap())
                    &&& !obj_has(es, key@) ==> r is Err && r.unwrap_err() is KeyError
                },
                _ => r is Err && r.unwrap_err() is ValueError,
            },
    {
        match self {
            JSONValue::Object(o) => {
                match o.find(key) {
                    Some(i) => {
                        proof {
                            lemma_view_of_entries(o.spec_entries());
                            lemma_obj_view_unique(*o);
                            lemma_obj_at_unique(o@, key@, i as int);
                        }
                        Ok(&o.entry_at(i).1)
                    },
                    None => {
                        proof {
                            lemma_has_key_view(*o, key@);
                        }
                        let mut m = String::from_str("key ");
                        m.append(key);
                        m.append(" not found");
                        Err(JSONError::KeyError(m))
                    },
                }
            },
            _ => Err(self.wrong_variant("object")),
        }
    }

    /// Add a mapping `key` to `value` to an object.
    ///
    /// Fails with a `ValueError` when `self` is not an object and with a
    /// `KeyError` when the key is already present; the object is unchanged
    /// on failure and extended by the new entry on success.
    pub fn obj_insert(&mut self, key: &str, value: JSONValue) -> (r: Result<(), JSONError>)
        requires
            value_inv(*old(self)),
            value_inv(value),
        ensures
            value_inv(*final(self)),
            match old(self)@ {
                SpecValue::Obj(es) => {
                    &&& !obj_has(es, key@) ==> r is Ok && final(self)@ == SpecValue::Obj(
                        es.push((key@, value@)),
                    )
                    &&& obj_has(es, key@) ==> r is Err && r.unwrap_err() is KeyError
                        && *final(self) == *old(self)
                },
                _ => r is Err && r.unwrap_err() is ValueError && *final(self) == *old(self),
            },
    {
        match self {
            JSONValue::Object(o) => {
                proof {
                    lemma_has_key_view(*o, key@);
                }
                let k = String::from_str(key);
                let ghost old_o = *o;
                let ok = o.insert(k, value);
                if ok {
                    proof {
                        lemma_view_of_entries_push(old_o.spec_entries(), (k, value));
                        assert forall|i: int| 0 <= i < o.spec_entries().len() implies value_inv(
                            #[trigger] o.spec_entries()[i].1,
                        ) by {
                            if i < o.spec_entries().len() - 1 {
                                assert(o.spec_entries()[i] == old_o.spec_entries()[i]);
                            } else {
                                assert(o.spec_entries()[i].1 == value);
                            }
                        }
                    }
                    Ok(())
                } else {
                    let mut m = String::from_str("key ");
                    m.append(key);
                    m.append(" already in object");
                    Err(JSONError::KeyError(m))
                }
            },
            _ => Err(self.wrong_variant("object")),
        }
    }

    /// Remove the mapping for `key` from an object, handing back the
    /// removed pair.
    ///
    /// Fails with a `ValueError` when `self` is not an object and with a
    /// `KeyError` when the key is absent.
    #[verifier::rlimit(50)]
    pub fn obj_remove(&mut self, key: &str) -> (r: Result<(String, JSONValue), JSONError>)
        requires
            value_inv(*old(self)),
        ensures
            value_inv(*final(self)),
            match old(self)@ {
                SpecValue::Obj(es) => {
                    &&& obj_has(es, key@) ==> r is Ok && r.unwrap().0@ == key@ && r.unwrap().1@
                        == obj_at(es, key@) && final(self)@ == SpecValue::Obj(
                        es.remove(obj_pos(es, key@)),
                    )
                    &&& !obj_has(es, key@) ==> r is Err && r.unwrap_err() is KeyError
                        && *final(self) == *old(self)
                },
                _ => r is Err && r.unwrap_err() is ValueError && *final(self) == *old(self),
            },
    {
        match self {
            JSONValue::Object(o) => {
                proof {
                    lemma_has_key_view(*o, key@);
                }
                let ghost old_o = *o;
                match o.remove(key) {
                    Some(kv) => {
                        proof {
                            lemma_view_of_entries(old_o.spec_entries());
                            lemma_obj_view_unique(old_o);
                            let i = old_o.key_pos(key@);
                            assert(0 <= i < old_o.spec_entries().len()
                                && old_o.spec_entries()[i].0@ == key@);
                            lemma_obj_at_unique(old_o@, key@, i);
                            lemma_view_of_entries_remove(old_o.spec_entries(), i);
                            assert forall|t: int| 0 <= t < o.spec_entries().len() implies value_inv(
                                #[trigger] o.spec_entries()[t].1,
                            ) by {
                                let t0: int = if t < i {
                                    t
                                } else {
                                    t + 1
                                };
                                assert(o.spec_entries()[t] == old_o.spec_entries()[t0]);
                            }
                        }
                        Ok(kv)
                    },
                    None => {
                        let mut m = String::from_str("key ");
                        m.append(key);
                        m.append(" not found");
                        Err(JSONError::KeyError(m))
                    },
                }
            },
            _ => Err(self.wrong_variant("object")),
        }
    }

    /// Look up `key` in an object, for mutation.
    ///
    /// Fails with a `ValueError` when `self` is not an object and with a
    /// `KeyError` when the key is absent; otherwise hands back the mapped
    /// value for the caller to change in place.
    pub fn get_mut(&mut self, key: &str) -> (r: Result<&mut JSONValue, JSONError>)
        requires
            value_inv(*old(self)),
        ensures
            match old(self)@ {
                SpecValue::Obj(es) => {
                    &&& obj_has(es, key@) ==> r is Ok
                    &&& !obj_has(es, key@) ==> r is Err && r.unwrap_err() is KeyError
                        && *final(self) == *old(self) && value_inv(*final(self))
                },
                _ => r is Err && r.unwrap_err() is ValueError && *final(self) == *old(self)
                    && value_inv(*final(self)),
            },
            r matches Ok(m) ==> {
                let o = (*old(self))->Object_0;
                let p = o.key_pos(key@);
                &&& (*old(self)) is Object
                &&& o.has_key(key@)
                &&& 0 <= p < o.spec_entries().len()
                &&& o.spec_entries()[p].0@ == key@
                &&& *m == o.spec_entries()[p].1
                &&& value_inv(*m)
                &&& (*final(self)) matches JSONValue::Object(o2) && o2.spec_entries()
                    == o.spec_entries().update(p, (o.spec_entries()[p].0, *final(m)))
                &&& value_inv(*final(m)) ==> value_inv(*final(self))
            },
    {
        match self {
            JSONValue::Object(o) => {
                match o.find(key) {
                    Some(i) => {
                        proof {
                            assert(o.has_key(key@));
                            lemma_has_key_view(*o, key@);
                            let p = o.key_pos(key@);
                            if p != i as int {
                                assert(o.spec_entries()[p].0@ == key@);
                                assert(false);
                            }
                        }
                        Ok(&mut o.entries[i].1)
                    },
                    None => {
                        proof {
                            lemma_has_key_view(*o, key@);
                        }
                        let mut m = String::from_str("key ");
                        m.append(key);
                        m.append(" not found");
                        Err(JSONError::KeyError(m))
                    },
                }
            },
            _ => Err(self.wrong_variant("object")),
        }
    }

    /// Bracket-style array access without `Result` protection: the caller
    /// must already know that `self` is an array and that the position is
    /// in range.
    pub fn at(&self, index: usize) -> (r: &JSONValue)
        requires
            value_inv(*self),
            self@ is Arr,
            index < self@->Arr_0.len(),
        ensures
            r@ == self@->Arr_0[index as int],
            value_inv(*r),
    {
        match self {
            JSONValue::Array(arr) => {
                proof {
                    lemma_view_of_seq(arr@);
                }
                &arr[index]
            },
            _ => {
                proof {
                    assert(false);
                }
                vstd::pervasive::unreached()
            },
        }
    }

    /// Bracket-style object access without `Result` protection: the caller
    /// must already know that `self` is an object holding the key.
    pub fn at_key(&self, key: &str) -> (r: &JSONValue)
        requires
            value_inv(*self),
            self@ is Obj,
            obj_has(self@->Obj_0, key@),
        ensures
            r@ == obj_at(self@->Obj_0, key@),
            value_inv(*r),
    {
        match self {
            JSONValue::Object(o) => {
                proof {
                    lemma_has_key_view(*o, key@);
                }
                match o.find(key) {
                    Some(i) => {
                        proof {
                            lemma_view_of_entries(o.spec_entries());
                            lemma_obj_view_unique(*o);
                            lemma_obj_at_unique(o@, key@, i as int);
                        }
                        &o.entry_at(i).1
                    },
                    None => {
                        proof {
                            assert(false);
                        }
                        vstd::pervasive::unreached()
                    },
                }
            },
            _ => {
                proof {
                    assert(false);
                }
                vstd::pervasive::unreached()
            },
        }
    }

    /// The error reported for an array position outside the valid range.
    fn out_of_bounds(index: usize, len: usize, key_err: bool) -> (r: JSONError)
        ensures
            key_err ==> r is IndexError,
            !key_err ==> r is ValueError,
    {
        let mut m = String::from_str("index ");
        let d = dec_u64(index as u64);
        m.append(d.as_str());
        m.append(" out of bounds for length ");
        let l = dec_u64(len as u64);
        m.append(l.as_str());
        if key_err {
            JSONError::IndexError(m)
        } else {
            JSONError::ValueError(m)
        }
    }

    /// Look up position `index` in an array.
    ///
    /// Fails with a `ValueError` when `self` is not an array or the
    /// position is past the end; otherwise hands back the element there.
    pub fn try_index(&self, index: usize) -> (r: Result<&JSONValue, JSONError>)
        requires
            value_inv(*self),
        ensures
            match self@ {
                SpecValue::Arr(a) => {
                    &&& index < a.len() ==> r is Ok && r.unwrap()@ == a[index as int] && value_inv(
                        *r.unwrap(),
                    )
                    &&& index >= a.len() ==> r is Err && r.unwrap_err() is ValueError
                },
                _ => r is Err && r.unwrap_err() is ValueError,
            },
    {
        match self {
            JSONValue::Array(arr) => {
                proof {
                    lemma_view_of_seq(arr@);
                }
                if index < arr.len() {
                    Ok(&arr[index])
                } else {
                    Err(Self::out_of_bounds(index, arr.len(), false))
                }
            },
            _ => Err(self.wrong_variant("array")),
        }
    }

    /// Append a value at the end of an array.
    ///
    /// Fails with a `ValueError` when `self` is not an array.
    pub fn arr_push(&mut self, val: JSONValue) -> (r: Result<(), JSONError>)
        requires
            value_inv(*old(self)),
            value_inv(val),
        ensures
            value_inv(*final(self)),
            match old(self)@ {
                SpecValue::Arr(a) => r is Ok && final(self)@ == SpecValue::Arr(a.push(val@)),
                _ => r is Err && r.unwrap_err() is ValueError && *final(self) == *old(self),
            },
    {
        match self {
            JSONValue::Array(arr) => {
                let ghost old_arr = arr@;
                arr.push(val);
                proof {
                    lemma_view_of_seq_push(old_arr, val);
                    assert forall|i: int| 0 <= i < arr@.len() implies value_inv(
                        #[trigger] arr@[i],
                    ) by {
                        if i < arr@.len() - 1 {
                            assert(arr@[i] == old_arr[i]);
                        } else {
                            assert(arr@[i] == val);
                        }
                    }
                }
                Ok(())
            },
            _ => Err(self.wrong_variant("array")),
        }
    }

    /// Remove and hand back the last element of an array.
    ///
    /// Fails with a `ValueError` when `self` is not an array or the array
    /// is empty.
    pub fn arr_pop(&mut self) -> (r: Result<JSONValue, JSONError>)
        requires
            value_inv(*old(self)),
        ensures
            value_inv(*final(self)),
            match old(self)@ {
                SpecValue::Arr(a) => {
                    &&& a.len() > 0 ==> r is Ok && r.unwrap()@ == a.last() && value_inv(r.unwrap())
                        && final(self)@ == SpecValue::Arr(a.drop_last())
                    &&& a.len() == 0 ==> r is Err && r.unwrap_err() is ValueError && *final(self)
                        == *old(self)
                },
                _ => r is Err && r.unwrap_err() is ValueError && *final(self) == *old(self),
            },
    {
        match self {
            JSONValue::Array(arr) => {
                proof {
                    lemma_view_of_seq(arr@);
                }
                if arr.len() == 0 {
                    Err(JSONError::ValueError(
                        String::from_str("cannot pop an array of zero length"),
                    ))
                } else {
                    let ghost old_arr = arr@;
                    let v = arr.pop().unwrap();
                    proof {
                        assert(v == old_arr.last());
                        assert(arr@ == old_arr.drop_last());
                        assert(view_of_seq(old_arr) == view_of_seq(old_arr.drop_last()).push(
                            view_of(old_arr.last()),
                        ));
                        assert(view_of_seq(arr@) =~= view_of_seq(old_arr).drop_last());
                        assert forall|i: int| 0 <= i < arr@.len() implies value_inv(
                            #[trigger] arr@[i],
                        ) by {
                            assert(arr@[i] == old_arr[i]);
                        }
                    }
                    Ok(v)
                }
            },
            _ => Err(self.wrong_variant("array")),
        }
    }

    /// Add a value at position `pos` of an array; `pos` equal to the length
    /// appends.
    ///
    /// Fails with a `ValueError` when `self` is not an array and with an
    /// `IndexError` when `pos` is past the end.
    pub fn arr_insert(&mut self, pos: usize, val: JSONValue) -> (r: Result<(), JSONError>)
        requires
            value_inv(*old(self)),
            value_inv(val),
        ensures
            value_inv(*final(self)),
            match old(self)@ {
                SpecValue::Arr(a) => {
                    &&& pos <= a.len() ==> r is Ok && final(self)@ == SpecValue::Arr(
                        a.insert(pos as int, val@),
                    )
                    &&& pos > a.len() ==> r is Err && r.unwrap_err() is IndexError && *final(self)
                        == *old(self)
                },
                _ => r is Err && r.unwrap_err() is ValueError && *final(self) == *old(self),
            },
    {
        match self {
            JSONValue::Array(arr) => {
                proof {
                    lemma_view_of_seq(arr@);
                }
                let len = arr.len();
                if pos > len {
                    Err(Self::out_of_bounds(pos, len, true))
                } else {
                    let ghost old_arr = arr@;
                    arr.insert(pos, val);
                    proof {
                        lemma_view_of_seq_insert(old_arr, pos as int, val);
                        assert forall|i: int| 0 <= i < arr@.len() implies value_inv(
                            #[trigger] arr@[i],
                        ) by {
                            if i < pos as int {
                                assert(arr@[i] == old_arr[i]);
                            } else if i == pos as int {
                                assert(arr@[i] == val);
                            } else {
                                assert(arr@[i] == old_arr[i - 1]);
                            }
                        }
                    }
                    Ok(())
                }
            },
            _ => Err(self.wrong_variant("array")),
        }
    }

    /// Remove and hand back the value at position `pos` of an array.
    ///
    /// Fails with a `ValueError` when `self` is not an array and with an
    /// `IndexError` when `pos` is not the position of an element.
    pub fn arr_remove(&mut self, pos: usize) -> (r: Result<JSONValue, JSONError>)
        requires
            value_inv(*old(self)),
        ensures
            value_inv(*final(self)),
            match old(self)@ {
                SpecValue::Arr(a) => {
                    &&& pos < a.len() ==> r is Ok && r.unwrap()@ == a[pos as int] && value_inv(
                        r.unwrap(),
                    ) && final(self)@ == SpecValue::Arr(a.remove(pos as int))
                    &&& pos >= a.len() ==> r is Err && r.unwrap_err() is IndexError && *final(self)
                        == *old(self)
                },
                _ => r is Err && r.unwrap_err() is ValueError && *final(self) == *old(self),
            },
    {
        match self {
            JSONValue::Array(arr) => {
                proof {
                    lemma_view_of_seq(arr@);
                }
                let len = arr.len();
                if pos >= len {
                    Err(Self::out_of_bounds(pos, len, true))
                } else {
                    let ghost old_arr = arr@;
                    let v = arr.remove(pos);
                    proof {
                        lemma_view_of_seq(old_arr);
                        lemma_view_of_seq_remove(old_arr, pos as int);
                        assert(value_inv(old_arr[pos as int]));
                        assert forall|i: int| 0 <= i < arr@.len() implies value_inv(
                            #[trigger] arr@[i],
                        ) by {
                            if i < pos as int {
                                assert(arr@[i] == old_arr[i]);
                            } else {
                                assert(arr@[i] == old_arr[i + 1]);
                            }
                        }
                    }
                    Ok(v)
                }
            },
            _ => Err(self.wrong_variant("array")),
        }
    }

    /// Look up position `index` in an array, for mutation.
    ///
    /// Fails with a `ValueError` when `self` is not an array or the
    /// position is past the end; otherwise hands back the element there
    /// for the caller to change in place.
    pub fn try_index_mut(&mut self, index: usize) -> (r: Result<&mut JSONValue, JSONError>)
        requires
            value_inv(*old(self)),
        ensures
            match old(self)@ {
                SpecValue::Arr(a) => {
                    &&& index < a.len() ==> r is Ok
                    &&& index >= a.len() ==> r is Err && r.unwrap_err() is ValueError
                        && *final(self) == *old(self) && value_inv(*final(self))
                },
                _ => r is Err && r.unwrap_err() is ValueError && *final(self) == *old(self)
                    && value_inv(*final(self)),
            },
            r matches Ok(m) ==> {
                let a = (*old(self))->Array_0;
                &&& (*old(self)) is Array
                &&& index < a@.len()
                &&& *m == a@[index as int]
                &&& value_inv(*m)
                &&& (*final(self)) matches JSONValue::Array(a2) && a2@ == a@.update(
                    index as int,
                    *final(m),
                )
                &&& value_inv(*final(m)) ==> value_inv(*final(self))
            },
    {
        match self {
            JSONValue::Array(arr) => {
                proof {
                    lemma_view_of_seq(arr@);
                }
                if index < arr.len() {
                    Ok(&mut arr[index])
                } else {
                    let n = arr.len();
                    Err(Self::out_of_bounds(index, n, false))
                }
            },
            _ => Err(self.wrong_variant("array")),
        }
    }
}

} // verus!
