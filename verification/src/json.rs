//! A generic structured-value tree standing for one raw upstream page:
//! object, array, string, unsigned number, boolean or null, with
//! non-throwing optional accessors.

use vstd::prelude::*;
use crate::text::str_eq;

verus! {

/// One node of a structured document. Numbers that are not unsigned
/// integers, and anything else the aggregation never reads, collapse to
/// `Opaque`.
pub enum JsonValue {
    Null,
    Bool(bool),
    UInt(u64),
    Str(String),
    Arr(Vec<JsonValue>),
    Obj(Vec<(String, JsonValue)>),
    Opaque,
}

/// First binding of `key` among the entries at or after `i`.
pub open spec fn lookup_from(entries: Seq<(String, JsonValue)>, key: Seq<char>, i: int) -> Option<
    JsonValue,
>
    decreases entries.len() - i,
{
    if i < 0 || i >= entries.len() {
        None
    } else if entries[i].0@ == key {
        Some(entries[i].1)
    } else {
        lookup_from(entries, key, i + 1)
    }
}

/// The value under `key` when `v` is an object holding it.
pub open spec fn field_of(v: JsonValue, key: Seq<char>) -> Option<JsonValue> {
    match v {
        JsonValue::Obj(entries) => lookup_from(entries@, key, 0),
        _ => None,
    }
}

pub open spec fn str_of(v: JsonValue) -> Option<Seq<char>> {
    match v {
        JsonValue::Str(s) => Some(s@),
        _ => None,
    }
}

pub open spec fn uint_of(v: JsonValue) -> Option<u64> {
    match v {
        JsonValue::UInt(u) => Some(u),
        _ => None,
    }
}

pub open spec fn arr_of(v: JsonValue) -> Option<Seq<JsonValue>> {
    match v {
        JsonValue::Arr(a) => Some(a@),
        _ => None,
    }
}

/// The string under `key`, if `v` is an object and the value a string.
pub open spec fn str_field(v: JsonValue, key: Seq<char>) -> Option<Seq<char>> {
    match field_of(v, key) {
        Some(x) => str_of(x),
        None => None,
    }
}

pub open spec fn uint_field(v: JsonValue, key: Seq<char>) -> Option<u64> {
    match field_of(v, key) {
        Some(x) => uint_of(x),
        None => None,
    }
}

pub open spec fn arr_field(v: JsonValue, key: Seq<char>) -> Option<Seq<JsonValue>> {
    match field_of(v, key) {
        Some(x) => arr_of(x),
        None => None,
    }
}

impl JsonValue {
    /// Field access on objects; `None` on everything else.
    pub fn get<'a>(&'a self, key: &str) -> (r: Option<&'a JsonValue>)
        ensures
            match r {
                Some(x) => field_of(*self, key@) == Some(*x),
                None => field_of(*self, key@) is None,
            },
    {
        match self {
            JsonValue::Obj(entries) => {
                let n = entries.len();
                let mut i: usize = 0;
                while i < n
                    invariant
                        n == entries@.len(),
                        0 <= i <= n,
                        field_of(*self, key@) == lookup_from(entries@, key@, 0),
                        lookup_from(entries@, key@, 0) == lookup_from(entries@, key@, i as int),
                    decreases n - i,
                {
                    if str_eq(entries[i].0.as_str(), key) {
                        return Some(&entries[i].1);
                    }
                    i = i + 1;
                }
                assert(field_of(*self, key@) is None);
                None
            },
            _ => None,
        }
    }

    /// The string under `key`, copied out.
    pub fn get_str(&self, key: &str) -> (r: Option<String>)
        ensures
            match r {
                Some(s) => str_field(*self, key@) == Some(s@),
                None => str_field(*self, key@) is None,
            },
    {
        match self.get(key) {
            Some(JsonValue::Str(s)) => Some(s.clone()),
            _ => None,
        }
    }

    /// The unsigned number under `key`.
    pub fn get_u64(&self, key: &str) -> (r: Option<u64>)
        ensures
            r == uint_field(*self, key@),
    {
        match self.get(key) {
            Some(JsonValue::UInt(u)) => Some(*u),
            _ => None,
        }
    }

    /// The array under `key`, borrowed.
    pub fn get_arr<'a>(&'a self, key: &str) -> (r: Option<&'a Vec<JsonValue>>)
        ensures
            match r {
                Some(a) => arr_field(*self, key@) == Some(a@),
                None => arr_field(*self, key@) is None,
            },
    {
        match self.get(key) {
            Some(JsonValue::Arr(a)) => Some(a),
            _ => None,
        }
    }
}

} // verus!
