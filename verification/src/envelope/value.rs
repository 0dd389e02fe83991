//! The closed payload type of an envelope.

use crate::text::str_eq;
use vstd::prelude::*;
use vstd::string::*;

verus! {

/// A payload value. `Object` is an association list that `insert` keeps
/// ordered by key, each key at most once.
#[derive(Debug, PartialEq, Default)]
pub enum Value {
    #[default]
    Null,
    Bool(bool),
    Int(i64),
    Str(String),
    Array(Vec<Value>),
    Object(Vec<(String, Value)>),
}

impl From<i64> for Value {
    fn from(v: i64) -> (r: Value) {
        Value::Int(v)
    }
}

impl vstd::std_specs::convert::FromSpecImpl<i64> for Value {
    open spec fn obeys_from_spec() -> bool {
        true
    }

    open spec fn from_spec(v: i64) -> Value {
        Value::Int(v)
    }
}

impl From<bool> for Value {
    fn from(v: bool) -> (r: Value) {
        Value::Bool(v)
    }
}

impl vstd::std_specs::convert::FromSpecImpl<bool> for Value {
    open spec fn obeys_from_spec() -> bool {
        true
    }

    open spec fn from_spec(v: bool) -> Value {
        Value::Bool(v)
    }
}

impl From<String> for Value {
    fn from(s: String) -> (r: Value) {
        Value::Str(s)
    }
}

impl vstd::std_specs::convert::FromSpecImpl<String> for Value {
    open spec fn obeys_from_spec() -> bool {
        true
    }

    open spec fn from_spec(s: String) -> Value {
        Value::Str(s)
    }
}

/// The mathematical content of a value, with strings as character sequences.
pub enum ValueView {
    Null,
    Bool(bool),
    Int(int),
    Str(Seq<char>),
    Array(Seq<ValueView>),
    Object(Seq<(Seq<char>, ValueView)>),
}

/// The view of a value; two values are equal exactly when their views are.
pub open spec fn deep(v: Value) -> ValueView
    decreases v,
{
    match v {
        Value::Null => ValueView::Null,
        Value::Bool(b) => ValueView::Bool(b),
        Value::Int(n) => ValueView::Int(n as int),
        Value::Str(s) => ValueView::Str(s@),
        Value::Array(items) => ValueView::Array(
            Seq::new(
                items@.len(),
                |i: int|
                    if 0 <= i < items@.len() {
                        deep(items@[i])
                    } else {
                        ValueView::Null
                    },
            ),
        ),
        Value::Object(pairs) => ValueView::Object(
            Seq::new(
                pairs@.len(),
                |i: int|
                    if 0 <= i < pairs@.len() {
                        (pairs@[i].0@, deep(pairs@[i].1))
                    } else {
                        (Seq::<char>::empty(), ValueView::Null)
                    },
            ),
        ),
    }
}

/// Lexicographic order of character sequences (the order of `String`).
pub open spec fn seq_lt(a: Seq<char>, b: Seq<char>) -> bool
    decreases a.len(),
{
    if a.len() == 0 {
        b.len() > 0
    } else if b.len() == 0 {
        false
    } else if a[0] != b[0] {
        (a[0] as u32) < (b[0] as u32)
    } else {
        seq_lt(a.drop_first(), b.drop_first())
    }
}

/// Index `i` holds the first entry with key `key`.
pub open spec fn is_first_key(pairs: Seq<(String, Value)>, key: Seq<char>, i: int) -> bool {
    &&& 0 <= i < pairs.len()
    &&& pairs[i].0@ == key
    &&& forall|j: int| 0 <= j < i ==> (#[trigger] pairs[j]).0@ != key
}

/// Some entry has key `key`.
pub open spec fn has_key(pairs: Seq<(String, Value)>, key: Seq<char>) -> bool {
    exists|i: int| 0 <= i < pairs.len() && (#[trigger] pairs[i]).0@ == key
}

/// The value of the first entry with key `key`.
pub open spec fn lookup(pairs: Seq<(String, Value)>, key: Seq<char>) -> Option<Value> {
    if has_key(pairs, key) {
        Some(pairs[choose|i: int| is_first_key(pairs, key, i)].1)
    } else {
        None
    }
}

/// Keys strictly increasing: the shape `insert` maintains.
pub open spec fn keys_sorted(pairs: Seq<(String, Value)>) -> bool {
    forall|i: int, j: int| 0 <= i < j < pairs.len() ==> seq_lt(#[trigger] pairs[i].0@, #[trigger] pairs[j].0@)
}

/// Number of leading entries whose key sorts before `key`.
pub open spec fn lead_before(pairs: Seq<(String, Value)>, key: Seq<char>) -> nat
    decreases pairs.len(),
{
    if pairs.len() == 0 {
        0
    } else if seq_lt(pairs[0].0@, key) {
        1 + lead_before(pairs.drop_first(), key)
    } else {
        0
    }
}

/// The association list after inserting `key` with `val`.
pub open spec fn inserted(pairs: Seq<(String, Value)>, key: String, val: Value) -> Seq<(String, Value)> {
    let i = lead_before(pairs, key@) as int;
    if i < pairs.len() && pairs[i].0@ == key@ {
        pairs.update(i, (key, val))
    } else {
        pairs.insert(i, (key, val))
    }
}

proof fn lemma_first_key_unique(pairs: Seq<(String, Value)>, key: Seq<char>, i: int, k: int)
    requires
        is_first_key(pairs, key, i),
        is_first_key(pairs, key, k),
    ensures
        i == k,
{
    if i < k {
        assert(pairs[i].0@ != key);
    } else if k < i {
        assert(pairs[k].0@ != key);
    }
}

/// Character-wise `a < b`.
pub fn str_lt(a: &str, b: &str) -> (r: bool)
    ensures
        r == seq_lt(a@, b@),
{
    let n = a.unicode_len();
    let m = b.unicode_len();
    let mut i: usize = 0;
    assert(a@.skip(0) =~= a@);
    assert(b@.skip(0) =~= b@);
    while i < n && i < m
        invariant
            n == a@.len(),
            m == b@.len(),
            i <= n,
            i <= m,
            seq_lt(a@, b@) == seq_lt(a@.skip(i as int), b@.skip(i as int)),
        decreases n - i,
    {
        let x = a.get_char(i);
        let y = b.get_char(i);
        if x != y {
            return (x as u32) < (y as u32);
        }
        assert(a@.skip(i as int).drop_first() =~= a@.skip(i + 1));
        assert(b@.skip(i as int).drop_first() =~= b@.skip(i + 1));
        i = i + 1;
    }
    i < m
}

impl Value {
    /// An empty object.
    pub fn object() -> (v: Value)
        ensures
            v matches Value::Object(pairs) && pairs@.len() == 0,
    {
        Value::Object(Vec::new())
    }

    /// The entry `key` of an object; `None` for a missing key or a non-object.
    #[verifier::loop_isolation(false)]
    pub fn get(&self, key: &str) -> (r: Option<&Value>)
        ensures
            match *self {
                Value::Object(pairs) => match lookup(pairs@, key@) {
                    Some(v) => r matches Some(x) && *x == v,
                    None => r is None,
                },
                _ => r is None,
            },
    {
        match self {
            Value::Object(pairs) => {
                let mut i: usize = 0;
                while i < pairs.len()
                    invariant
                        i <= pairs@.len(),
                        forall|j: int| 0 <= j < i ==> (#[trigger] pairs@[j]).0@ != key@,
                    decreases pairs@.len() - i,
                {
                    if str_eq(pairs[i].0.as_str(), key) {
                        proof {
                            assert(is_first_key(pairs@, key@, i as int));
                            assert(has_key(pairs@, key@));
                            let c = choose|c: int| is_first_key(pairs@, key@, c);
                            lemma_first_key_unique(pairs@, key@, i as int, c);
                            assert(lookup(pairs@, key@) == Some(pairs@[i as int].1));
                        }
                        return Some(&pairs[i].1);
                    }
                    i = i + 1;
                }
                None
            },
            _ => None,
        }
    }

    /// Sets entry `key` of an object to `val` (other values are left alone).
    #[verifier::loop_isolation(false)]
    pub fn insert(&mut self, key: String, val: Value)
        ensures
            match *old(self) {
                Value::Object(pairs) => *final(self) matches Value::Object(np) && np@ == inserted(
                    pairs@,
                    key,
                    val,
                ),
                _ => *final(self) == *old(self),
            },
            *old(self) matches Value::Object(p) && keys_sorted(p@) ==> (*final(self) matches Value::Object(np)
                && keys_sorted(np@)),
    {
        match self {
            Value::Object(pairs) => {
                let ghost p0 = pairs@;
                proof {
                    if keys_sorted(p0) {
                        law_insert_keeps_sorted(p0, key, val);
                    }
                }
                let n = pairs.len();
                let mut i: usize = 0;
                assert(p0.skip(0) =~= p0);
                while i < n && str_lt(pairs[i].0.as_str(), key.as_str())
                    invariant
                        n == pairs@.len(),
                        pairs@ == p0,
                        i <= n,
                        lead_before(p0, key@) == i + lead_before(p0.skip(i as int), key@),
                    decreases n - i,
                {
                    assert(p0.skip(i as int).drop_first() =~= p0.skip(i + 1));
                    i = i + 1;
                }
                proof {
                    assert(p0.skip(0) =~= p0);
                    if i < n {
                        assert(p0.skip(i as int)[0] == p0[i as int]);
                    }
                    assert(lead_before(p0, key@) == i);
                }
                if i < n && str_eq(pairs[i].0.as_str(), key.as_str()) {
                    pairs.set(i, (key, val));
                } else {
                    pairs.insert(i, (key, val));
                }
                assert(pairs@ =~= inserted(p0, key, val));
            },
            _ => {},
        }
    }

    /// The text of a string value.
    pub fn as_str(&self) -> (r: Option<&str>)
        ensures
            match *self {
                Value::Str(s) => r matches Some(x) && x@ == s@,
                _ => r is None,
            },
    {
        match self {
            Value::Str(s) => Some(s.as_str()),
            _ => None,
        }
    }
}

} // verus!

verus! {

/// A copy of `v` with the same view.
pub fn clone_value(v: &Value) -> (r: Value)
    ensures
        deep(r) == deep(*v),
    decreases *v,
{
    match v {
        Value::Null => Value::Null,
        Value::Bool(b) => Value::Bool(*b),
        Value::Int(n) => Value::Int(*n),
        Value::Str(s) => Value::Str(s.clone()),
        Value::Array(items) => {
            let mut out: Vec<Value> = Vec::new();
            let mut i: usize = 0;
            while i < items.len()
                invariant
                    *v == Value::Array(*items),
                    i <= items@.len(),
                    out@.len() == i,
                    forall|j: int| 0 <= j < i ==> deep(#[trigger] out@[j]) == deep(items@[j]),
                decreases items@.len() - i,
            {
                assert(decreases_to!(*items => items@[i as int]));
                assert(decreases_to!(*v => v->Array_0));
                assert(decreases_to!(*v => items@[i as int]));
                let c = clone_value(&items[i]);
                out.push(c);
                i = i + 1;
            }
            let r = Value::Array(out);
            assert(deep(r) matches ValueView::Array(s) && s =~= (match deep(*v) {
                ValueView::Array(t) => t,
                _ => Seq::empty(),
            }));
            r
        },
        Value::Object(pairs) => {
            let mut out: Vec<(String, Value)> = Vec::new();
            let mut i: usize = 0;
            while i < pairs.len()
                invariant
                    *v == Value::Object(*pairs),
                    i <= pairs@.len(),
                    out@.len() == i,
                    forall|j: int|
                        0 <= j < i ==> (#[trigger] out@[j]).0@ == pairs@[j].0@ && deep(out@[j].1)
                            == deep(pairs@[j].1),
                decreases pairs@.len() - i,
            {
                assert(decreases_to!(*v => v->Object_0));
                assert(decreases_to!(*pairs => pairs@[i as int]));
                assert(decreases_to!(pairs@[i as int] => pairs@[i as int].1));
                assert(decreases_to!(*v => pairs@[i as int].1));
                let c = clone_value(&pairs[i].1);
                let k = pairs[i].0.clone();
                out.push((k, c));
                i = i + 1;
            }
            let r = Value::Object(out);
            assert(deep(r) matches ValueView::Object(s) && s =~= (match deep(*v) {
                ValueView::Object(t) => t,
                _ => Seq::empty(),
            }));
            r
        },
    }
}

/// Whether two values have the same view.
pub fn value_eq(a: &Value, b: &Value) -> (r: bool)
    ensures
        r == (deep(*a) == deep(*b)),
    decreases *a,
{
    match (a, b) {
        (Value::Null, Value::Null) => true,
        (Value::Bool(x), Value::Bool(y)) => *x == *y,
        (Value::Int(x), Value::Int(y)) => *x == *y,
        (Value::Str(x), Value::Str(y)) => *x == *y,
        (Value::Array(xs), Value::Array(ys)) => {
            if xs.len() != ys.len() {
                assert(deep(*a) matches ValueView::Array(s) && s.len() == xs@.len());
                return false;
            }
            let mut i: usize = 0;
            while i < xs.len()
                invariant
                    *a == Value::Array(*xs),
                    *b == Value::Array(*ys),
                    xs@.len() == ys@.len(),
                    i <= xs@.len(),
                    forall|j: int| 0 <= j < i ==> deep(#[trigger] xs@[j]) == deep(ys@[j]),
                decreases xs@.len() - i,
            {
                assert(decreases_to!(*a => xs@[i as int]));
                if !value_eq(&xs[i], &ys[i]) {
                    assert(deep(*a) matches ValueView::Array(s) && s[i as int] == deep(xs@[i as int]));
                    assert(deep(*b) matches ValueView::Array(s) && s[i as int] == deep(ys@[i as int]));
                    return false;
                }
                i = i + 1;
            }
            assert(deep(*a) matches ValueView::Array(s) && s =~= (match deep(*b) {
                ValueView::Array(t) => t,
                _ => Seq::empty(),
            }));
            true
        },
        (Value::Object(xs), Value::Object(ys)) => {
            if xs.len() != ys.len() {
                assert(deep(*a) matches ValueView::Object(s) && s.len() == xs@.len());
                return false;
            }
            let mut i: usize = 0;
            while i < xs.len()
                invariant
                    *a == Value::Object(*xs),
                    *b == Value::Object(*ys),
                    xs@.len() == ys@.len(),
                    i <= xs@.len(),
                    forall|j: int|
                        0 <= j < i ==> (#[trigger] xs@[j]).0@ == ys@[j].0@ && deep(xs@[j].1) == deep(
                            ys@[j].1,
                        ),
                decreases xs@.len() - i,
            {
                assert(decreases_to!(*a => xs@[i as int].1));
                if !(xs[i].0 == ys[i].0) || !value_eq(&xs[i].1, &ys[i].1) {
                    assert(deep(*a) matches ValueView::Object(s) && s[i as int] == (
                        xs@[i as int].0@,
                        deep(xs@[i as int].1),
                    ));
                    assert(deep(*b) matches ValueView::Object(s) && s[i as int] == (
                        ys@[i as int].0@,
                        deep(ys@[i as int].1),
                    ));
                    return false;
                }
                i = i + 1;
            }
            assert(deep(*a) matches ValueView::Object(s) && s =~= (match deep(*b) {
                ValueView::Object(t) => t,
                _ => Seq::empty(),
            }));
            true
        },
        _ => false,
    }
}

impl Clone for Value {
    fn clone(&self) -> (r: Self)
        ensures
            deep(r) == deep(*self),
    {
        clone_value(self)
    }
}

} // verus!

verus! {

/// No sequence sorts before itself.
pub proof fn lemma_seq_lt_irreflexive(a: Seq<char>)
    ensures
        !seq_lt(a, a),
    decreases a.len(),
{
    if a.len() > 0 {
        lemma_seq_lt_irreflexive(a.drop_first());
    }
}

/// The leading entries counted by `lead_before` all sort before `key`, and
/// the next one (if any) does not.
pub proof fn lemma_lead_before(pairs: Seq<(String, Value)>, key: Seq<char>)
    ensures
        lead_before(pairs, key) <= pairs.len(),
        forall|j: int| 0 <= j < lead_before(pairs, key) ==> seq_lt(#[trigger] pairs[j].0@, key),
        lead_before(pairs, key) < pairs.len() ==> !seq_lt(pairs[lead_before(pairs, key) as int].0@, key),
    decreases pairs.len(),
{
    if pairs.len() > 0 && seq_lt(pairs[0].0@, key) {
        let rest = pairs.drop_first();
        lemma_lead_before(rest, key);
        assert forall|j: int| 0 <= j < lead_before(pairs, key) implies seq_lt(#[trigger] pairs[j].0@, key) by {
            if j > 0 {
                assert(pairs[j] == rest[j - 1]);
            }
        }
        if lead_before(pairs, key) < pairs.len() {
            assert(pairs[lead_before(pairs, key) as int] == rest[lead_before(rest, key) as int]);
        }
    }
}

/// The order of strings is transitive.
pub proof fn lemma_seq_lt_trans(a: Seq<char>, b: Seq<char>, c: Seq<char>)
    requires
        seq_lt(a, b),
        seq_lt(b, c),
    ensures
        seq_lt(a, c),
    decreases a.len(),
{
    if a.len() > 0 && b.len() > 0 && c.len() > 0 && a[0] == b[0] && b[0] == c[0] {
        lemma_seq_lt_trans(a.drop_first(), b.drop_first(), c.drop_first());
    }
}

/// Any two strings are equal or one sorts before the other.
pub proof fn lemma_seq_lt_total(a: Seq<char>, b: Seq<char>)
    ensures
        seq_lt(a, b) || a == b || seq_lt(b, a),
    decreases a.len(),
{
    if a.len() == 0 {
        if b.len() == 0 {
            assert(a =~= b);
        }
    } else if b.len() > 0 {
        if a[0] == b[0] {
            lemma_seq_lt_total(a.drop_first(), b.drop_first());
            if a.drop_first() == b.drop_first() {
                assert(a =~= seq![a[0]] + a.drop_first());
                assert(b =~= seq![b[0]] + b.drop_first());
            }
        } else {
            vstd::utf8::char_u32_cast(a[0], a[0] as u32);
            vstd::utf8::char_u32_cast(b[0], b[0] as u32);
            assert((a[0] as u32) != (b[0] as u32));
        }
    }
}

/// Inserting keeps the keys of an object strictly increasing, so each key
/// occurs once.
pub proof fn law_insert_keeps_sorted(pairs: Seq<(String, Value)>, key: String, val: Value)
    requires
        keys_sorted(pairs),
    ensures
        keys_sorted(inserted(pairs, key, val)),
{
    let i = lead_before(pairs, key@) as int;
    let q = inserted(pairs, key, val);
    lemma_lead_before(pairs, key@);
    if i < pairs.len() && pairs[i].0@ == key@ {
        assert forall|a: int, b: int| 0 <= a < b < q.len() implies seq_lt(#[trigger] q[a].0@, #[trigger] q[b].0@) by {
            assert(q[a].0@ == pairs[a].0@);
            assert(q[b].0@ == pairs[b].0@);
        }
    } else {
        if i < pairs.len() {
            lemma_seq_lt_total(pairs[i].0@, key@);
        }
        assert forall|a: int, b: int| 0 <= a < b < q.len() implies seq_lt(#[trigger] q[a].0@, #[trigger] q[b].0@) by {
            if b < i {
                assert(q[a] == pairs[a] && q[b] == pairs[b]);
            } else if b == i {
                assert(q[a] == pairs[a]);
            } else if a < i {
                assert(q[a] == pairs[a] && q[b] == pairs[b - 1]);
            } else if a == i {
                assert(q[b] == pairs[b - 1]);
                if b - 1 > i {
                    lemma_seq_lt_trans(key@, pairs[i].0@, pairs[b - 1].0@);
                }
            } else {
                assert(q[a] == pairs[a - 1] && q[b] == pairs[b - 1]);
            }
        }
    }
}

/// After inserting `key`, looking it up gives the inserted value.
pub proof fn law_lookup_inserted_same(pairs: Seq<(String, Value)>, key: String, val: Value)
    ensures
        lookup(inserted(pairs, key, val), key@) == Some(val),
{
    let i = lead_before(pairs, key@) as int;
    let q = inserted(pairs, key, val);
    lemma_lead_before(pairs, key@);
    assert forall|j: int| 0 <= j < i implies (#[trigger] q[j]).0@ != key@ by {
        assert(q[j] == pairs[j]);
        assert(seq_lt(pairs[j].0@, key@));
        lemma_seq_lt_irreflexive(key@);
    }
    assert(is_first_key(q, key@, i));
    assert(has_key(q, key@));
    let c = choose|c: int| is_first_key(q, key@, c);
    lemma_first_key_unique(q, key@, i, c);
}

/// Inserting `key` leaves the lookup of every other key unchanged.
pub proof fn law_lookup_inserted_other(
    pairs: Seq<(String, Value)>,
    key: String,
    val: Value,
    other: Seq<char>,
)
    requires
        other != key@,
    ensures
        lookup(inserted(pairs, key, val), other) == lookup(pairs, other),
{
    let i = lead_before(pairs, key@) as int;
    let q = inserted(pairs, key, val);
    lemma_lead_before(pairs, key@);
    let upd = i < pairs.len() && pairs[i].0@ == key@;
    // positions map from pairs to q
    if has_key(pairs, other) {
        let j = choose|j: int| is_first_key(pairs, other, j);
        assert(is_first_key(pairs, other, j)) by {
            let w = choose|w: int| 0 <= w < pairs.len() && (#[trigger] pairs[w]).0@ == other;
            lemma_exists_first(pairs, other, w);
        }
        let jq = if upd || j < i {
            j
        } else {
            j + 1
        };
        assert(q[jq] == pairs[j]) by {
            if upd {
                assert(j != i);
            }
        }
        assert forall|m: int| 0 <= m < jq implies (#[trigger] q[m]).0@ != other by {
            if upd {
                if m != i {
                    assert(q[m] == pairs[m]);
                }
            } else if m < i {
                assert(q[m] == pairs[m]);
            } else if m > i {
                assert(q[m] == pairs[m - 1]);
            }
        }
        assert(is_first_key(q, other, jq));
        assert(has_key(q, other));
        let c = choose|c: int| is_first_key(q, other, c);
        lemma_first_key_unique(q, other, jq, c);
    } else {
        assert forall|m: int| 0 <= m < q.len() implies (#[trigger] q[m]).0@ != other by {
            if upd {
                if m != i {
                    assert(q[m] == pairs[m]);
                }
            } else if m < i {
                assert(q[m] == pairs[m]);
            } else if m > i {
                assert(q[m] == pairs[m - 1]);
            }
        }
    }
}

/// An entry with key `key` means there is a first one.
pub proof fn lemma_exists_first(pairs: Seq<(String, Value)>, key: Seq<char>, w: int)
    requires
        0 <= w < pairs.len(),
        pairs[w].0@ == key,
    ensures
        exists|i: int| is_first_key(pairs, key, i),
        is_first_key(pairs, key, choose|i: int| is_first_key(pairs, key, i)),
    decreases w,
{
    if exists|m: int| 0 <= m < w && (#[trigger] pairs[m]).0@ == key {
        let m = choose|m: int| 0 <= m < w && (#[trigger] pairs[m]).0@ == key;
        lemma_exists_first(pairs, key, m);
    } else {
        assert(is_first_key(pairs, key, w));
    }
}

} // verus!
