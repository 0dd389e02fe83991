//! Building and reading result bodies.

use crate::envelope::id::EnvelopeId;
use crate::envelope::value::{
    deep, has_key, inserted, keys_sorted, law_lookup_inserted_other, law_lookup_inserted_same, lookup, Value,
    ValueView,
};
use crate::envelope::Envelope;
use crate::text::{debug_str, str_eq};
use vstd::prelude::*;
use vstd::string::*;

verus! {

/// A success body: `{ok: true, value: value}`.
pub fn ok_payload(value: Value) -> (r: Value)
    ensures
        r matches Value::Object(p) && p@.len() == 2 && p@[0].0@ == "ok"@ && p@[0].1 == Value::Bool(true)
            && p@[1].0@ == "value"@ && p@[1].1 == value,
{
    let mut m: Vec<(String, Value)> = Vec::new();
    m.push((crate::text::to_string("ok"), Value::Bool(true)));
    m.push((crate::text::to_string("value"), value));
    Value::Object(m)
}

/// The keys a failure body's detail may not use.
pub open spec fn reserved(k: Seq<char>) -> bool {
    k == "ok"@ || k == "error"@ || k == "value"@
}

/// What an optional value looks like, deeply.
pub open spec fn opt_deep(v: Option<Value>) -> Option<ValueView> {
    match v {
        Some(x) => Some(deep(x)),
        None => None,
    }
}

/// The last of the first `n` detail entries with key `key`, deeply.
pub open spec fn detail_deep(d: Seq<(&str, Value)>, n: int, key: Seq<char>) -> Option<ValueView>
    decreases n,
{
    if n <= 0 {
        None
    } else if d[n - 1].0@ == key {
        Some(deep(d[n - 1].1))
    } else {
        detail_deep(d, n - 1, key)
    }
}

/// A key no detail entry names has no detail value.
pub proof fn lemma_detail_absent(d: Seq<(&str, Value)>, n: int, key: Seq<char>)
    requires
        n <= d.len(),
        forall|i: int| 0 <= i < n ==> (#[trigger] d[i]).0@ != key,
    ensures
        detail_deep(d, n, key) is None,
    decreases n,
{
    if n > 0 {
        assert(d[n - 1].0@ != key);
        lemma_detail_absent(d, n - 1, key);
    }
}

/// The entries of a failure body for `error` with detail `d`: `ok` is
/// false, `error` is the message, and every other key has the value the
/// detail gives it last (none where the detail does not name it).
pub open spec fn err_entries(p: Seq<(String, Value)>, error: Seq<char>, d: Seq<(&str, Value)>) -> bool {
    &&& lookup(p, "ok"@) == Some(Value::Bool(false))
    &&& lookup(p, "error"@) matches Some(Value::Str(s)) && s@ == error
    &&& forall|key: Seq<char>|
        key != "ok"@ && key != "error"@ ==> #[trigger] opt_deep(lookup(p, key)) == detail_deep(d, d.len() as int, key)
    &&& keys_sorted(p)
}

/// A failure body: `{ok: false, error: error}` plus the detail entries, none
/// of which may use a reserved key.
pub fn err_payload(error: &str, detail: &[(&str, Value)]) -> (r: Result<Value, crate::Error>)
    ensures
        r is Ok <==> forall|i: int| 0 <= i < detail@.len() ==> !reserved(#[trigger] detail@[i].0@),
        r matches Err(e) ==> exists|k: int|
            #![trigger detail@[k]]
            0 <= k < detail@.len() && reserved(detail@[k].0@) && (forall|j: int|
                0 <= j < k ==> !reserved(#[trigger] detail@[j].0@)) && e == crate::Error::State(e->State_0)
                && e->State_0@ == "reserved result key: "@ + debug_str(detail@[k].0@),
        r matches Ok(v) ==> v matches Value::Object(p) && lookup(p@, "ok"@) == Some(Value::Bool(false))
            && (lookup(p@, "error"@) matches Some(Value::Str(s)) && s@ == error@),
        r matches Ok(v) ==> v matches Value::Object(p) && err_entries(p@, error@, detail@),
        r matches Ok(v) ==> entry(v, "value"@) is None,
{
    let mut m = Value::Object(Vec::new());
    let ek = crate::text::to_string("error");
    let ev = Value::Str(crate::text::to_string(error));
    let ghost p0 = Seq::<(String, Value)>::empty();
    m.insert(ek, ev);
    let ok_key = crate::text::to_string("ok");
    let ghost p1 = inserted(p0, ek, ev);
    proof {
        law_lookup_inserted_same(p0, ek, ev);
        reveal_strlit("ok");
        reveal_strlit("error");
        assert("ok"@ != "error"@) by {
            assert("ok"@.len() != "error"@.len());
        }
        law_lookup_inserted_other(p1, ok_key, Value::Bool(false), "error"@);
        law_lookup_inserted_same(p1, ok_key, Value::Bool(false));
    }
    m.insert(ok_key, Value::Bool(false));
    proof {
        let p2 = m->Object_0@;
        assert forall|key: Seq<char>| key != "ok"@ && key != "error"@ implies #[trigger] opt_deep(lookup(p2, key))
            == detail_deep(detail@, 0, key) by {
            law_lookup_inserted_other(p1, ok_key, Value::Bool(false), key);
            law_lookup_inserted_other(p0, ek, ev, key);
            assert(!has_key(p0, key));
        }
    }
    let mut i: usize = 0;
    while i < detail.len()
        invariant
            i <= detail@.len(),
            forall|j: int| 0 <= j < i ==> !reserved(#[trigger] detail@[j].0@),
            m matches Value::Object(p) && lookup(p@, "ok"@) == Some(Value::Bool(false)) && (lookup(
                p@,
                "error"@,
            ) matches Some(Value::Str(s)) && s@ == error@),
            m matches Value::Object(p) && keys_sorted(p@),
            m matches Value::Object(p) && forall|key: Seq<char>|
                key != "ok"@ && key != "error"@ ==> #[trigger] opt_deep(lookup(p@, key)) == detail_deep(
                    detail@,
                    i as int,
                    key,
                ),
        decreases detail@.len() - i,
    {
        let k = detail[i].0;
        if str_eq(k, "ok") || str_eq(k, "error") || str_eq(k, "value") {
            let q = crate::text::debug_quote(k);
            return Err(crate::Error::State(crate::text::concat2("reserved result key: ", q.as_str())));
        }
        let key = crate::text::to_string(k);
        let val = detail[i].1.clone();
        let ghost pm = m->Object_0@;
        proof {
            law_lookup_inserted_other(pm, key, val, "ok"@);
            law_lookup_inserted_other(pm, key, val, "error"@);
            law_lookup_inserted_same(pm, key, val);
            assert forall|x: Seq<char>| x != "ok"@ && x != "error"@ implies #[trigger] opt_deep(
                lookup(inserted(pm, key, val), x),
            ) == detail_deep(detail@, i + 1, x) by {
                if x != key@ {
                    law_lookup_inserted_other(pm, key, val, x);
                }
            }
        }
        m.insert(key, val);
        i = i + 1;
    }
    proof {
        reveal_strlit("value");
        reveal_strlit("ok");
        reveal_strlit("error");
        assert("value"@ != "ok"@ && "value"@ != "error"@) by {
            assert("value"@.len() != "ok"@.len());
            assert("value"@[0] != "error"@[0]);
        }
        assert forall|i: int| 0 <= i < detail@.len() implies (#[trigger] detail@[i]).0@ != "value"@ by {
            assert(!reserved(detail@[i].0@));
        }
        lemma_detail_absent(detail@, detail@.len() as int, "value"@);
        assert(opt_deep(lookup(m->Object_0@, "value"@)) is None);
    }
    Ok(m)
}

} // verus!

verus! {

/// The entry `key` of an object value.
pub open spec fn entry(v: Value, key: Seq<char>) -> Option<Value> {
    match v {
        Value::Object(p) => lookup(p@, key),
        _ => None,
    }
}

/// A success body: `ok` is `true` and there is a `value`.
pub open spec fn spec_result_ok(body: Value) -> bool {
    entry(body, "ok"@) == Some(Value::Bool(true)) && entry(body, "value"@) is Some
}

/// A failure body: `ok` is `false` and `error` is a string.
pub open spec fn spec_result_err(body: Value) -> bool {
    entry(body, "ok"@) == Some(Value::Bool(false)) && entry(body, "error"@) matches Some(
        Value::Str(_),
    )
}

/// A success or a failure body.
pub open spec fn spec_result_shape(body: Value) -> bool {
    spec_result_ok(body) || spec_result_err(body)
}

/// The `request_id` string of a result envelope's payload.
pub open spec fn spec_request_id(env: Envelope) -> Option<Seq<char>> {
    match entry(env.payload, "request_id"@) {
        Some(Value::Str(s)) => Some(s@),
        _ => None,
    }
}

/// The `result` body of an envelope, when it has the shape of one.
pub open spec fn spec_result_body(env: Envelope) -> Option<Value> {
    match entry(env.payload, "result"@) {
        Some(b) => if spec_result_shape(b) {
            Some(b)
        } else {
            None
        },
        None => None,
    }
}

/// Whether `body` is a success body.
pub fn is_result_ok(body: &Value) -> (r: bool)
    ensures
        r == spec_result_ok(*body),
{
    let ok = match body.get("ok") {
        Some(Value::Bool(b)) => *b,
        _ => false,
    };
    ok && body.get("value").is_some()
}

/// Whether `body` is a failure body.
pub fn is_result_err(body: &Value) -> (r: bool)
    ensures
        r == spec_result_err(*body),
{
    let not_ok = match body.get("ok") {
        Some(Value::Bool(b)) => !*b,
        _ => false,
    };
    let has_error = match body.get("error") {
        Some(Value::Str(_)) => true,
        _ => false,
    };
    not_ok && has_error
}

/// Whether `body` is a success or a failure body.
pub fn has_result_shape(body: &Value) -> (r: bool)
    ensures
        r == spec_result_shape(*body),
{
    is_result_ok(body) || is_result_err(body)
}

/// The value of a success body.
pub fn result_value(body: &Value) -> (r: Option<&Value>)
    ensures
        spec_result_ok(*body) ==> (r matches Some(v) && Some(*v) == entry(*body, "value"@)),
        !spec_result_ok(*body) ==> r is None,
{
    if !is_result_ok(body) {
        return None;
    }
    body.get("value")
}

/// The message of a failure body.
pub fn result_error(body: &Value) -> (r: Option<&str>)
    ensures
        spec_result_err(*body) ==> (r matches Some(s) && (entry(*body, "error"@) matches Some(
            Value::Str(m),
        ) && s@ == m@)),
        !spec_result_err(*body) ==> r is None,
{
    if !is_result_err(body) {
        return None;
    }
    match body.get("error") {
        Some(v) => v.as_str(),
        None => None,
    }
}

/// The `result` entry of an envelope's payload, when it is a result body.
pub fn result_body(env: &Envelope) -> (r: Option<&Value>)
    ensures
        match spec_result_body(*env) {
            Some(b) => r matches Some(x) && *x == b,
            None => r is None,
        },
{
    let raw = match env.payload.get("result") {
        Some(v) => v,
        None => return None,
    };
    if !has_result_shape(raw) {
        return None;
    }
    Some(raw)
}

/// The request id a result envelope answers.
pub fn result_request_id(env: &Envelope) -> (r: Option<EnvelopeId>)
    ensures
        match spec_request_id(*env) {
            Some(s) => r matches Some(id) && id@ == s,
            None => r is None,
        },
{
    match env.payload.get("request_id") {
        Some(Value::Str(s)) => Some(EnvelopeId(s.clone())),
        _ => None,
    }
}

} // verus!
