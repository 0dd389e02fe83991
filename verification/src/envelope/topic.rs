//! Topic syntax: names, splitting at dots, the last segment.

use crate::text::{debug_str, is_lower, is_name_char, is_name_spec, lemma_split_len, split_on};
use vstd::prelude::*;
use vstd::string::*;

verus! {

/// True when `segment` is a lower-case name (see `is_name_spec`).
pub fn is_name(segment: &str) -> (r: bool)
    ensures
        r == is_name_spec(segment@),
{
    let n = segment.unicode_len();
    if n == 0 {
        return false;
    }
    let c0 = segment.get_char(0);
    if !('a' <= c0 && c0 <= 'z') {
        return false;
    }
    let mut i: usize = 1;
    while i < n
        invariant
            n == segment@.len(),
            1 <= i <= n,
            is_lower(segment@[0]),
            forall|j: int| 1 <= j < i ==> is_name_char(#[trigger] segment@[j]),
        decreases n - i,
    {
        let c = segment.get_char(i);
        if !(('a' <= c && c <= 'z') || ('0' <= c && c <= '9') || c == '_') {
            return false;
        }
        i = i + 1;
    }
    true
}

} // verus!

verus! {

/// The view of each part of a split topic.
pub open spec fn parts_view(parts: Seq<&str>) -> Seq<Seq<char>> {
    parts.map_values(|p: &str| p@)
}

/// A topic: non-empty, and every dot-separated segment is a name.
pub open spec fn valid_topic(t: Seq<char>) -> bool {
    &&& t.len() > 0
    &&& forall|i: int| 0 <= i < split_on(t, '.').len() ==> is_name_spec(#[trigger] split_on(t, '.')[i])
}

/// The rejection message for a topic that is not valid.
pub open spec fn topic_error_msg(t: Seq<char>, msg: Seq<char>) -> bool {
    if t.len() == 0 {
        msg == "empty topic"@
    } else {
        let parts = split_on(t, '.');
        exists|k: int|
            #![trigger parts[k]]
            0 <= k < parts.len() && !is_name_spec(parts[k]) && (forall|j: int|
                0 <= j < k ==> is_name_spec(#[trigger] parts[j])) && msg
                == "illegal topic segment: "@ + debug_str(parts[k])
    }
}

/// Splits `topic` at every dot, keeping empty parts.
pub fn split_parts<'a>(topic: &'a str) -> (parts: Vec<&'a str>)
    ensures
        parts_view(parts@) == split_on(topic@, '.'),
{
    let n = topic.unicode_len();
    let mut parts: Vec<&'a str> = Vec::new();
    let mut start: usize = 0;
    let mut i: usize = 0;
    assert(topic@.take(0) =~= Seq::<char>::empty());
    assert(parts_view(parts@).push(topic@.subrange(0, 0)) =~= seq![Seq::<char>::empty()]);
    while i < n
        invariant
            n == topic@.len(),
            start <= i <= n,
            split_on(topic@.take(i as int), '.') == parts_view(parts@).push(
                topic@.subrange(start as int, i as int),
            ),
        decreases n - i,
    {
        let c = topic.get_char(i);
        let ghost pre = topic@.take(i as int);
        let ghost cur = topic@.subrange(start as int, i as int);
        assert(topic@.take(i + 1).drop_last() =~= pre);
        assert(topic@.take(i + 1).last() == c);
        if c == '.' {
            let p = topic.substring_char(start, i);
            let ghost before = parts_view(parts@);
            parts.push(p);
            start = i + 1;
            assert(topic@.subrange(start as int, i + 1) =~= Seq::<char>::empty());
            assert(parts_view(parts@) =~= before.push(cur));
        } else {
            assert(topic@.subrange(start as int, i + 1) =~= cur.push(c));
        }
        i = i + 1;
        assert(split_on(topic@.take(i as int), '.') =~= parts_view(parts@).push(
            topic@.subrange(start as int, i as int),
        ));
    }
    let last = topic.substring_char(start, n);
    let ghost before = parts_view(parts@);
    parts.push(last);
    assert(topic@.take(n as int) =~= topic@);
    assert(parts_view(parts@) =~= before.push(last@));
    parts
}

/// Splits a topic into its segments, each of which must be a name.
pub fn split_topic<'a>(topic: &'a str) -> (r: Result<Vec<&'a str>, crate::envelope::error::EnvelopeBuildError>)
    ensures
        r is Ok <==> valid_topic(topic@),
        r matches Ok(parts) ==> parts_view(parts@) == split_on(topic@, '.'),
        r matches Err(e) ==> topic_error_msg(topic@, e.0@),
{
    if topic.unicode_len() == 0 {
        return Err(crate::envelope::error::EnvelopeBuildError(crate::text::to_string("empty topic")));
    }
    let parts = split_parts(topic);
    let ghost pv = split_on(topic@, '.');
    let mut k: usize = 0;
    while k < parts.len()
        invariant
            parts_view(parts@) == pv,
            pv == split_on(topic@, '.'),
            topic@.len() > 0,
            k <= parts@.len(),
            forall|j: int| 0 <= j < k ==> is_name_spec(#[trigger] pv[j]),
        decreases parts@.len() - k,
    {
        let part = parts[k];
        assert(pv[k as int] == part@);
        if !is_name(part) {
            let q = crate::text::debug_quote(part);
            let msg = crate::text::concat2("illegal topic segment: ", q.as_str());
            assert(topic@.len() > 0);
            assert(0 <= k < pv.len() && !is_name_spec(pv[k as int]) && (forall|j: int|
                0 <= j < k ==> is_name_spec(#[trigger] pv[j])) && msg@
                == "illegal topic segment: "@ + debug_str(pv[k as int]));
            return Err(crate::envelope::error::EnvelopeBuildError(msg));
        }
        k = k + 1;
    }
    Ok(parts)
}

/// The last dot-separated segment of a non-empty topic.
pub fn topic_suffix<'a>(topic: &'a str) -> (r: Result<&'a str, crate::envelope::error::EnvelopeBuildError>)
    ensures
        r is Ok <==> topic@.len() > 0,
        r matches Ok(s) ==> s@ == split_on(topic@, '.').last(),
        r matches Err(e) ==> e.0@ == "empty topic"@,
{
    if topic.unicode_len() == 0 {
        return Err(crate::envelope::error::EnvelopeBuildError(crate::text::to_string("empty topic")));
    }
    let parts = split_parts(topic);
    proof {
        lemma_split_len(topic@, '.');
    }
    let last = parts[parts.len() - 1];
    Ok(last)
}

} // verus!
