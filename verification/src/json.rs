//! An in-memory JSON value whose object entries keep their insertion order.
//!
//! `Json` is the executable value; `JsonV` is its mathematical model, in which
//! strings are `Seq<char>` and containers are `Seq`s. Numbers are kept as the
//! three representations a JSON number can have (non-negative integer,
//! negative integer, IEEE-754 double stored by its bit pattern), so that no
//! floating-point arithmetic is needed to tell whether a number is zero.

use vstd::prelude::*;
use crate::keyed::{find_key, keys_of, lemma_key_pos, map_insert, string_keys};

verus! {

/// A JSON number, stored exactly.
///
/// `Float` holds the IEEE-754 binary64 bit pattern of the value.
#[derive(Clone, Copy, Debug, PartialEq, Eq, Structural)]
pub enum JsonNumber {
    PosInt(u64),
    NegInt(i64),
    Float(u64),
}

/// The mask that clears the sign bit of a binary64 bit pattern.
pub const FLOAT_MAGNITUDE_BITS: u64 = 0x7fff_ffff_ffff_ffffu64;

impl JsonNumber {
    /// The number is zero: `0`, `+0.0` or `-0.0`.
    pub open spec fn spec_is_zero(self) -> bool {
        match self {
            JsonNumber::PosInt(u) => u == 0,
            JsonNumber::NegInt(i) => i == 0,
            JsonNumber::Float(bits) => bits & FLOAT_MAGNITUDE_BITS == 0,
        }
    }

    /// Tests whether the number equals zero.
    pub fn is_zero(&self) -> (r: bool)
        ensures
            r == self.spec_is_zero(),
    {
        match self {
            JsonNumber::PosInt(u) => *u == 0,
            JsonNumber::NegInt(i) => *i == 0,
            JsonNumber::Float(bits) => *bits & FLOAT_MAGNITUDE_BITS == 0,
        }
    }
}

/// The mathematical model of a JSON value.
pub enum JsonV {
    Null,
    Bool(bool),
    Number(JsonNumber),
    String(Seq<char>),
    Array(Seq<JsonV>),
    Object(Seq<(Seq<char>, JsonV)>),
}

/// A JSON value. Object entries are kept in order.
#[derive(Debug, PartialEq)]
pub enum Json {
    Null,
    Bool(bool),
    Number(JsonNumber),
    String(String),
    Array(Vec<Json>),
    Object(Vec<(String, Json)>),
}

/// The models of a sequence of values.
pub open spec fn values_view(s: Seq<Json>) -> Seq<JsonV>
    decreases s,
{
    if s.len() == 0 {
        Seq::empty()
    } else {
        values_view(s.drop_last()).push(json_view(s.last()))
    }
}

/// The models of a sequence of object entries.
pub open spec fn entries_view(s: Seq<(String, Json)>) -> Seq<(Seq<char>, JsonV)>
    decreases s,
{
    if s.len() == 0 {
        Seq::empty()
    } else {
        entries_view(s.drop_last()).push((s.last().0@, json_view(s.last().1)))
    }
}

/// The model of a value.
pub open spec fn json_view(j: Json) -> JsonV
    decreases j,
{
    match j {
        Json::Null => JsonV::Null,
        Json::Bool(b) => JsonV::Bool(b),
        Json::Number(n) => JsonV::Number(n),
        Json::String(s) => JsonV::String(s@),
        Json::Array(v) => JsonV::Array(values_view(v@)),
        Json::Object(v) => JsonV::Object(entries_view(v@)),
    }
}

impl View for Json {
    type V = JsonV;

    open spec fn view(&self) -> JsonV {
        json_view(*self)
    }
}

/// Each model in `values_view(s)` is the model of the value at the same index.
pub proof fn lemma_values_view(s: Seq<Json>)
    ensures
        values_view(s).len() == s.len(),
        forall|i: int| 0 <= i < s.len() ==> #[trigger] values_view(s)[i] == s[i]@,
    decreases s.len(),
{
    if s.len() > 0 {
        lemma_values_view(s.drop_last());
    }
}

/// Each model in `entries_view(s)` is the model of the entry at the same index.
pub proof fn lemma_entries_view(s: Seq<(String, Json)>)
    ensures
        entries_view(s).len() == s.len(),
        forall|i: int|
            0 <= i < s.len() ==> #[trigger] entries_view(s)[i] == (s[i].0@, s[i].1@),
        keys_of(entries_view(s)) == string_keys(s),
    decreases s.len(),
{
    if s.len() > 0 {
        lemma_entries_view(s.drop_last());
    }
    assert(keys_of(entries_view(s)) =~= string_keys(s));
}

/// The models of two sequences side by side are the models of their concatenation.
pub proof fn lemma_values_view_add(a: Seq<Json>, b: Seq<Json>)
    ensures
        values_view(a + b) == values_view(a) + values_view(b),
{
    lemma_values_view(a);
    lemma_values_view(b);
    lemma_values_view(a + b);
    assert(values_view(a + b) =~= values_view(a) + values_view(b));
}

/// Binds `key` to `value` in the entries of an object: a present key keeps its
/// place and gets the new value, a new key is appended.
pub fn object_insert(entries: &mut Vec<(String, Json)>, key: String, value: Json)
    ensures
        entries_view(final(entries)@) == map_insert(entries_view(old(entries)@), key@, value@),
{
    proof {
        lemma_entries_view(entries@);
        lemma_key_pos(string_keys(entries@), key@);
    }
    let ghost old_entries = entries@;
    let ghost kv = key@;
    let ghost vv = value@;
    match find_key(entries, &key) {
        Some(i) => {
            entries.set(i, (key, value));
            proof {
                lemma_entries_view(entries@);
                assert(entries_view(entries@) =~= map_insert(entries_view(old_entries), kv, vv));
            }
        },
        None => {
            entries.push((key, value));
            proof {
                lemma_entries_view(entries@);
                assert(entries_view(entries@) =~= map_insert(entries_view(old_entries), kv, vv));
            }
        },
    }
}

impl Clone for Json {
    fn clone(&self) -> (r: Self)
        ensures
            r@ == self@,
    {
        self.deep_copy()
    }
}

impl Json {
    /// A copy of the value, with the same model.
    pub fn deep_copy(&self) -> (r: Json)
        ensures
            r@ == self@,
        decreases self@,
    {
        match self {
            Json::Null => Json::Null,
            Json::Bool(b) => Json::Bool(*b),
            Json::Number(n) => Json::Number(*n),
            Json::String(s) => Json::String(s.clone()),
            Json::Array(v) => {
                proof {
                    lemma_values_view(v@);
                }
                let mut out: Vec<Json> = Vec::new();
                let mut i: usize = 0;
                while i < v.len()
                    invariant
                        i <= v.len(),
                        out.len() == i,
                        self@ == JsonV::Array(values_view(v@)),
                        forall|k: int| 0 <= k < i ==> #[trigger] out@[k]@ == v@[k]@,
                    decreases v.len() - i,
                {
                    proof {
                        lemma_values_view(v@);
                        let s = values_view(v@);
                        assert(decreases_to!(self@ => self@->Array_0));
                        assert(decreases_to!(s => s[i as int]));
                    }
                    let c = v[i].deep_copy();
                    out.push(c);
                    i += 1;
                }
                proof {
                    lemma_values_view(out@);
                    assert(values_view(out@) =~= values_view(v@));
                }
                Json::Array(out)
            },
            Json::Object(v) => {
                proof {
                    lemma_entries_view(v@);
                }
                let mut out: Vec<(String, Json)> = Vec::new();
                let mut i: usize = 0;
                while i < v.len()
                    invariant
                        i <= v.len(),
                        out.len() == i,
                        self@ == JsonV::Object(entries_view(v@)),
                        forall|k: int|
                            0 <= k < i ==> #[trigger] out@[k].0@ == v@[k].0@ && out@[k].1@ == v@[k].1@,
                    decreases v.len() - i,
                {
                    proof {
                        lemma_entries_view(v@);
                        let s = entries_view(v@);
                        assert(decreases_to!(self@ => self@->Object_0));
                        assert(decreases_to!(s => s[i as int]));
                        assert(decreases_to!(s[i as int] => s[i as int].1));
                    }
                    let k = v[i].0.clone();
                    let c = v[i].1.deep_copy();
                    out.push((k, c));
                    i += 1;
                }
                proof {
                    lemma_entries_view(out@);
                    assert(entries_view(out@) =~= entries_view(v@));
                }
                Json::Object(out)
            },
        }
    }
}

} // verus!
