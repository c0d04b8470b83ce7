//! JSON documents as plain values: the data model of `serde_json::Value`,
//! with structural equality and member lookup.
use vstd::prelude::*;

verus! {

/// A JSON number as `serde_json` stores it: a non-negative integer, a
/// negative integer, or a finite float given by the bits of its `f64`
/// (zero always with the positive sign bit).
#[derive(Clone, Copy, Debug, PartialEq, Eq, Structural)]
pub enum JsonNumber {
    PosInt(u64),
    NegInt(i64),
    FloatBits(u64),
}

/// A JSON value. Object members are keyed by name, each name once.
#[derive(Debug)]
pub enum JsonValue {
    Null,
    Bool(bool),
    Number(JsonNumber),
    String(String),
    Array(Vec<JsonValue>),
    Object(Vec<(String, JsonValue)>),
}

/// Structural equality, as `serde_json::Value` compares: objects are equal
/// when they have the same member names with equal values, in any order.
pub open spec fn json_eq(a: JsonValue, b: JsonValue) -> bool
    decreases a,
{
    match a {
        JsonValue::Null => b is Null,
        JsonValue::Bool(x) => b matches JsonValue::Bool(y) && x == y,
        JsonValue::Number(x) => b matches JsonValue::Number(y) && x == y,
        JsonValue::String(x) => b matches JsonValue::String(y) && x@ == y@,
        JsonValue::Array(xs) => match b {
            JsonValue::Array(ys) => xs@.len() == ys@.len() && forall|i: int|
                0 <= i < xs@.len() ==> json_eq(#[trigger] xs@[i], ys@[i]),
            _ => false,
        },
        JsonValue::Object(xs) => match b {
            JsonValue::Object(ys) => xs@.len() == ys@.len() && forall|i: int|
                0 <= i < xs@.len() ==> match json_member(b, (#[trigger] xs@[i]).0@) {
                    Some(y) => json_eq(xs@[i].1, y),
                    None => false,
                },
            _ => false,
        },
    }
}

/// Object members have distinct names, at every depth.
pub open spec fn json_wf(v: JsonValue) -> bool
    decreases v,
{
    match v {
        JsonValue::Array(xs) => forall|i: int| 0 <= i < xs@.len() ==> json_wf(#[trigger] xs@[i]),
        JsonValue::Object(xs) => {
            &&& forall|i: int, j: int|
                0 <= i < xs@.len() && 0 <= j < xs@.len() && i != j ==> (#[trigger] xs@[i]).0@ != (#[trigger] xs@[j]).0@
            &&& forall|i: int| 0 <= i < xs@.len() ==> json_wf((#[trigger] xs@[i]).1)
        },
        _ => true,
    }
}

/// Every well-formed value is structurally equal to itself.
pub proof fn lemma_json_eq_reflexive(v: JsonValue)
    requires
        json_wf(v),
    ensures
        json_eq(v, v),
    decreases v,
{
    match v {
        JsonValue::Array(xs) => {
            assert forall|i: int| 0 <= i < xs@.len() implies json_eq(#[trigger] xs@[i], xs@[i]) by {
                lemma_json_eq_reflexive(xs@[i]);
            }
        },
        JsonValue::Object(xs) => {
            assert forall|i: int| 0 <= i < xs@.len() implies match json_member(v, (#[trigger] xs@[i]).0@) {
                Some(y) => json_eq(xs@[i].1, y),
                None => false,
            } by {
                let c = choose|c: int| 0 <= c < xs@.len() && (#[trigger] xs@[c]).0@ == xs@[i].0@;
                assert(xs@[i].0@ == xs@[i].0@);
                assert(0 <= c < xs@.len() && xs@[c].0@ == xs@[i].0@);
                if c != i {
                    assert(xs@[c].0@ != xs@[i].0@);
                }
                lemma_json_eq_reflexive(xs@[i].1);
            }
        },
        _ => {},
    }
}

/// The member `key` of an object, if it has one.
pub open spec fn json_member(v: JsonValue, key: Seq<char>) -> Option<JsonValue> {
    match v {
        JsonValue::Object(xs) => if exists|i: int| 0 <= i < xs@.len() && (#[trigger] xs@[i]).0@ == key {
            Some(xs@[choose|i: int| 0 <= i < xs@.len() && (#[trigger] xs@[i]).0@ == key].1)
        } else {
            None
        },
        _ => None,
    }
}

/// `value[key]`: the member, or null where there is none or `value` is no object.
pub open spec fn json_index(v: JsonValue, key: Seq<char>) -> JsonValue {
    match json_member(v, key) {
        Some(m) => m,
        None => JsonValue::Null,
    }
}

/// Whether a value is the JSON string `text`.
pub open spec fn is_json_text(v: JsonValue, text: Seq<char>) -> bool {
    v matches JsonValue::String(s) && s@ == text
}

/// The member `key` of `v`, by reference.
#[verifier::loop_isolation(false)]
pub fn member<'a>(v: &'a JsonValue, key: &str) -> (m: Option<&'a JsonValue>)
    requires
        json_wf(*v),
    ensures
        match json_member(*v, key@) {
            Some(x) => m matches Some(y) && *y == x,
            None => m is None,
        },
{
    match v {
        JsonValue::Object(xs) => {
            let mut i: usize = 0;
            while i < xs.len()
                invariant
                    i <= xs@.len(),
                    forall|j: int| 0 <= j < i ==> (#[trigger] xs@[j]).0@ != key@,
                decreases xs.len() - i,
            {
                if crate::text::text_eq(xs[i].0.as_str(), key) {
                    proof {
                        let c = choose|c: int| 0 <= c < xs@.len() && (#[trigger] xs@[c]).0@ == key@;
                        if c != i {
                            assert(xs@[c].0@ != xs@[i as int].0@);
                        }
                    }
                    return Some(&xs[i].1);
                }
                i = i + 1;
            }
            None
        },
        _ => None,
    }
}

fn position_of(members: &Vec<(String, JsonValue)>, key: &String) -> (p: Option<usize>)
    ensures
        match p {
            Some(j) => j < members@.len() && members@[j as int].0@ == key@,
            None => forall|k: int| 0 <= k < members@.len() ==> (#[trigger] members@[k]).0@ != key@,
        },
{
    let mut j: usize = 0;
    while j < members.len()
        invariant
            j <= members@.len(),
            forall|k: int| 0 <= k < j ==> (#[trigger] members@[k]).0@ != key@,
        decreases members.len() - j,
    {
        if members[j].0 == *key {
            return Some(j);
        }
        j = j + 1;
    }
    None
}

/// Structural equality of two values.
pub fn json_equal(a: &JsonValue, b: &JsonValue) -> (same: bool)
    requires
        json_wf(*a),
        json_wf(*b),
    ensures
        same == json_eq(*a, *b),
    decreases a, 1nat,
{
    match a {
        JsonValue::Null => match b {
            JsonValue::Null => true,
            _ => false,
        },
        JsonValue::Bool(x) => match b {
            JsonValue::Bool(y) => *x == *y,
            _ => false,
        },
        JsonValue::Number(x) => match b {
            JsonValue::Number(y) => *x == *y,
            _ => false,
        },
        JsonValue::String(x) => match b {
            JsonValue::String(y) => *x == *y,
            _ => false,
        },
        JsonValue::Array(xs) => match b {
            JsonValue::Array(ys) => arrays_equal(a, b, xs, ys),
            _ => false,
        },
        JsonValue::Object(xs) => match b {
            JsonValue::Object(ys) => objects_equal(a, b, xs, ys),
            _ => false,
        },
    }
}

fn arrays_equal(a: &JsonValue, b: &JsonValue, xs: &Vec<JsonValue>, ys: &Vec<JsonValue>) -> (same: bool)
    requires
        json_wf(*a),
        json_wf(*b),
        *a == JsonValue::Array(*xs),
        *b == JsonValue::Array(*ys),
    ensures
        same == json_eq(*a, *b),
    decreases a, 0nat,
{
    proof {
        assert(*a is Array && a->Array_0 == *xs);
        assert(*b is Array && b->Array_0 == *ys);
    }
    if xs.len() != ys.len() {
        return false;
    }
    let mut i: usize = 0;
    while i < xs.len()
        invariant
            json_wf(*a),
            json_wf(*b),
            *a == JsonValue::Array(*xs),
            *b == JsonValue::Array(*ys),
            *a is Array && a->Array_0 == *xs,
            *b is Array && b->Array_0 == *ys,
            xs@.len() == ys@.len(),
            i <= xs@.len(),
            forall|k: int| 0 <= k < i ==> json_eq(#[trigger] xs@[k], ys@[k]),
        decreases xs.len() - i,
    {
        proof {
            let va = *a;
            let vb = *b;
            assert(decreases_to!(va => va->Array_0));
            assert(json_wf(xs@[i as int]));
            assert(json_wf(ys@[i as int]));
            assert(decreases_to!(*xs => xs@));
            assert(decreases_to!(xs@ => xs@[i as int]));
        }
        if !json_equal(&xs[i], &ys[i]) {
            return false;
        }
        i = i + 1;
    }
    true
}

fn objects_equal(a: &JsonValue, b: &JsonValue, xs: &Vec<(String, JsonValue)>, ys: &Vec<(String, JsonValue)>) -> (same: bool)
    requires
        json_wf(*a),
        json_wf(*b),
        *a == JsonValue::Object(*xs),
        *b == JsonValue::Object(*ys),
    ensures
        same == json_eq(*a, *b),
    decreases a, 0nat,
{
    proof {
        assert(*a is Object && a->Object_0 == *xs);
        assert(*b is Object && b->Object_0 == *ys);
    }
    if xs.len() != ys.len() {
        return false;
    }
    let mut i: usize = 0;
    while i < xs.len()
        invariant
            json_wf(*a),
            json_wf(*b),
            *a == JsonValue::Object(*xs),
            *b == JsonValue::Object(*ys),
            *a is Object && a->Object_0 == *xs,
            *b is Object && b->Object_0 == *ys,
            xs@.len() == ys@.len(),
            i <= xs@.len(),
            forall|k: int| 0 <= k < i ==> match json_member(*b, (#[trigger] xs@[k]).0@) {
                Some(y) => json_eq(xs@[k].1, y),
                None => false,
            },
        decreases xs.len() - i,
    {
        match position_of(ys, &xs[i].0) {
            None => {
                return false;
            },
            Some(j) => {
                proof {
                    let va = *a;
                    let vb = *b;
                    assert(decreases_to!(va => va->Object_0));
                    assert(json_wf(xs@[i as int].1));
                    assert(json_wf(ys@[j as int].1));
                    assert(decreases_to!(*xs => xs@));
                    assert(decreases_to!(xs@ => xs@[i as int]));
                    assert(decreases_to!(xs@[i as int] => xs@[i as int].1));
                }
                proof {
                    let c = choose|c: int| 0 <= c < ys@.len() && (#[trigger] ys@[c]).0@ == xs@[i as int].0@;
                    if c != j {
                        assert(ys@[c].0@ != ys@[j as int].0@);
                    }
                    assert(json_member(*b, xs@[i as int].0@) == Some(ys@[j as int].1));
                }
                if !json_equal(&xs[i].1, &ys[j].1) {
                    return false;
                }
            },
        }
        i = i + 1;
    }
    proof {
        let va = *a;
        let vb = *b;
        assert(json_eq(va, vb));
    }
    true
}

} // verus!
