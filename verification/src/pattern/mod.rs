//! Subscription patterns: literal segments with an optional terminal
//! wildcard (`*` one more segment, `**` any number of further segments).

use crate::envelope::topic::{is_name, parts_view, split_parts};
use crate::text::{debug_str, is_name_spec, lemma_split_len, split_on};
use vstd::prelude::*;

verus! {

/// The terminal wildcard of a pattern.
#[derive(Debug, Clone, Copy, PartialEq, Eq, Default)]
pub enum Wildcard {
    #[default]
    Exact,
    Star,
    GlobStar,
}

/// A parsed pattern: the literal leading segments and the wildcard.
#[derive(Debug, PartialEq, Eq, Default)]
pub struct Pattern {
    pub literal: Vec<String>,
    pub wildcard: Wildcard,
}

/// The mathematical content of a pattern.
pub struct PatternView {
    pub literal: Seq<Seq<char>>,
    pub wildcard: Wildcard,
}

impl View for Pattern {
    type V = PatternView;

    open spec fn view(&self) -> PatternView {
        PatternView { literal: strings_view(self.literal@), wildcard: self.wildcard }
    }
}

/// Copies of the strings, in order.
pub fn clone_strings(v: &Vec<String>) -> (r: Vec<String>)
    ensures
        strings_view(r@) == strings_view(v@),
{
    let mut r: Vec<String> = Vec::new();
    let mut i: usize = 0;
    while i < v.len()
        invariant
            i <= v@.len(),
            strings_view(r@) == strings_view(v@).take(i as int),
        decreases v@.len() - i,
    {
        let ghost before = strings_view(r@);
        r.push(v[i].clone());
        assert(strings_view(r@) =~= before.push(v@[i as int]@));
        assert(strings_view(v@).take(i + 1) =~= strings_view(v@).take(i as int).push(v@[i as int]@));
        i = i + 1;
    }
    assert(strings_view(v@).take(v@.len() as int) =~= strings_view(v@));
    r
}

impl Clone for Pattern {
    fn clone(&self) -> (r: Self)
        ensures
            r@ == self@,
    {
        Pattern { literal: clone_strings(&self.literal), wildcard: self.wildcard }
    }
}

/// The character content of each string.
pub open spec fn strings_view(s: Seq<String>) -> Seq<Seq<char>> {
    s.map_values(|x: String| x@)
}

/// Why a pattern text was rejected.
#[derive(Debug, Clone, PartialEq, Eq)]
pub struct InvalidTopic(pub String);

impl InvalidTopic {
    /// The error as the library-wide `Error::InvalidTopic`.
    pub fn into_error(self) -> (e: crate::Error)
        ensures
            e == crate::Error::InvalidTopic(self.0),
    {
        crate::Error::InvalidTopic(self.0)
    }
}

/// A wildcard segment text.
pub open spec fn is_wild(p: Seq<char>) -> bool {
    p == "*"@ || p == "**"@
}

/// Segment `i` is acceptable: a wildcard only in last position, a name otherwise.
pub open spec fn seg_ok(parts: Seq<Seq<char>>, i: int) -> bool {
    if is_wild(parts[i]) {
        i == parts.len() - 1
    } else {
        is_name_spec(parts[i])
    }
}

/// The texts that `parse_pattern` accepts.
pub open spec fn valid_pattern(t: Seq<char>) -> bool {
    let parts = split_on(t, '.');
    &&& t.len() > 0
    &&& forall|i: int| 0 <= i < parts.len() ==> (#[trigger] parts[i]).len() > 0
    &&& forall|i: int| 0 <= i < parts.len() ==> #[trigger] seg_ok(parts, i)
}

/// The message `parse_pattern` gives for a rejected text.
pub open spec fn pattern_error_msg(t: Seq<char>, msg: Seq<char>) -> bool {
    let parts = split_on(t, '.');
    if t.len() == 0 {
        msg == "empty pattern"@
    } else if exists|i: int| 0 <= i < parts.len() && (#[trigger] parts[i]).len() == 0 {
        msg == "illegal pattern: "@ + debug_str(t)
    } else {
        exists|k: int|
            #![trigger parts[k]]
            0 <= k < parts.len() && !seg_ok(parts, k) && (forall|j: int|
                0 <= j < k ==> #[trigger] seg_ok(parts, j)) && msg == (if is_wild(parts[k]) {
                "wildcard not terminal: "@ + debug_str(t)
            } else {
                "illegal pattern segment: "@ + debug_str(parts[k])
            })
    }
}

/// The wildcard a last segment stands for.
pub open spec fn wildcard_of(last: Seq<char>) -> Wildcard {
    if last == "*"@ {
        Wildcard::Star
    } else if last == "**"@ {
        Wildcard::GlobStar
    } else {
        Wildcard::Exact
    }
}

/// The pattern a valid text denotes.
pub open spec fn pattern_of(t: Seq<char>) -> PatternView {
    let parts = split_on(t, '.');
    let w = wildcard_of(parts.last());
    PatternView {
        literal: if w == Wildcard::Exact {
            parts
        } else {
            parts.drop_last()
        },
        wildcard: w,
    }
}

fn owned_parts(parts: &Vec<&str>, upto: usize) -> (r: Vec<String>)
    requires
        upto <= parts@.len(),
    ensures
        strings_view(r@) == parts_view(parts@).take(upto as int),
{
    let mut r: Vec<String> = Vec::new();
    let mut i: usize = 0;
    while i < upto
        invariant
            upto <= parts@.len(),
            i <= upto,
            strings_view(r@) == parts_view(parts@).take(i as int),
        decreases upto - i,
    {
        let ghost before = strings_view(r@);
        r.push(crate::text::to_string(parts[i]));
        assert(strings_view(r@) =~= before.push(parts[i as int]@));
        assert(parts_view(parts@).take(i + 1) =~= parts_view(parts@).take(i as int).push(
            parts[i as int]@,
        ));
        i = i + 1;
    }
    r
}

/// Parses a pattern text such as `echo`, `echo.*` or `echo.**`.
pub fn parse_pattern(text: &str) -> (r: Result<Pattern, InvalidTopic>)
    ensures
        r is Ok <==> valid_pattern(text@),
        r matches Ok(p) ==> p@ == pattern_of(text@),
        r matches Err(e) ==> pattern_error_msg(text@, e.0@),
{
    let ghost parts_s = split_on(text@, '.');
    if text.unicode_len() == 0 {
        return Err(InvalidTopic(crate::text::to_string("empty pattern")));
    }
    let parts = split_parts(text);
    proof {
        lemma_split_len(text@, '.');
    }
    let n = parts.len();
    let mut i: usize = 0;
    while i < n
        invariant
            n == parts@.len(),
            n >= 1,
            text@.len() > 0,
            parts_view(parts@) == parts_s,
            parts_s == split_on(text@, '.'),
            i <= n,
            forall|j: int| 0 <= j < i ==> (#[trigger] parts_s[j]).len() > 0,
        decreases n - i,
    {
        assert(parts_s[i as int] == parts[i as int]@);
        if parts[i].unicode_len() == 0 {
            assert(parts_s[i as int].len() == 0);
            let q = crate::text::debug_quote(text);
            return Err(InvalidTopic(crate::text::concat2("illegal pattern: ", q.as_str())));
        }
        i = i + 1;
    }
    let last = n - 1;
    let mut k: usize = 0;
    while k < n
        invariant
            n == parts@.len(),
            last == n - 1,
            parts_view(parts@) == parts_s,
            parts_s == split_on(text@, '.'),
            text@.len() > 0,
            k <= n,
            forall|j: int| 0 <= j < n ==> (#[trigger] parts_s[j]).len() > 0,
            forall|j: int| 0 <= j < k ==> #[trigger] seg_ok(parts_s, j),
        decreases n - k,
    {
        let part = parts[k];
        assert(parts_s[k as int] == part@);
        let wild = crate::text::str_eq(part, "*") || crate::text::str_eq(part, "**");
        if wild {
            if k != last {
                let q = crate::text::debug_quote(text);
                let msg = crate::text::concat2("wildcard not terminal: ", q.as_str());
                assert(!(exists|i: int| 0 <= i < parts_s.len() && (#[trigger] parts_s[i]).len() == 0));
                assert(0 <= k < parts_s.len() && !seg_ok(parts_s, k as int));
                return Err(InvalidTopic(msg));
            }
        } else if !is_name(part) {
            let q = crate::text::debug_quote(part);
            let msg = crate::text::concat2("illegal pattern segment: ", q.as_str());
            assert(!(exists|i: int| 0 <= i < parts_s.len() && (#[trigger] parts_s[i]).len() == 0));
            assert(0 <= k < parts_s.len() && !seg_ok(parts_s, k as int));
            return Err(InvalidTopic(msg));
        }
        k = k + 1;
    }
    let lp = parts[last];
    assert(lp@ == parts_s.last());
    let wildcard = if crate::text::str_eq(lp, "*") {
        Wildcard::Star
    } else if crate::text::str_eq(lp, "**") {
        Wildcard::GlobStar
    } else {
        Wildcard::Exact
    };
    let literal = match wildcard {
        Wildcard::Exact => owned_parts(&parts, n),
        _ => owned_parts(&parts, last),
    };
    assert(parts_view(parts@).take(n as int) =~= parts_s);
    assert(parts_view(parts@).take(last as int) =~= parts_s.drop_last());
    Ok(Pattern { literal, wildcard })
}

/// Whether a pattern's view matches the segments of a topic.
pub open spec fn matches_spec(p: PatternView, t: Seq<Seq<char>>) -> bool {
    let n = p.literal.len();
    match p.wildcard {
        Wildcard::Exact => t == p.literal,
        Wildcard::Star => t.len() == n + 1 && t.take(n as int) == p.literal,
        Wildcard::GlobStar => t.len() >= n && t.take(n as int) == p.literal,
    }
}

/// A pattern without a wildcard matches exactly the topic made of its
/// segments.
pub proof fn law_exact_matches_itself(l: Seq<Seq<char>>, t: Seq<Seq<char>>)
    ensures
        matches_spec(PatternView { literal: l, wildcard: Wildcard::Exact }, t) <==> t =~= l,
{
}

/// A `*` pattern matches the topics that have its segments first and then
/// exactly one more segment: never a shorter or a deeper topic.
pub proof fn law_star_one_more(l: Seq<Seq<char>>, t: Seq<Seq<char>>)
    ensures
        matches_spec(PatternView { literal: l, wildcard: Wildcard::Star }, t) <==> (t.len() == l.len() + 1
            && forall|i: int| 0 <= i < l.len() ==> #[trigger] t[i] == l[i]),
{
    if t.len() == l.len() + 1 && forall|i: int| 0 <= i < l.len() ==> #[trigger] t[i] == l[i] {
        assert(t.take(l.len() as int) =~= l);
    }
    if matches_spec(PatternView { literal: l, wildcard: Wildcard::Star }, t) {
        assert forall|i: int| 0 <= i < l.len() implies #[trigger] t[i] == l[i] by {
            assert(t.take(l.len() as int)[i] == t[i]);
        }
    }
}

/// A `**` pattern matches every topic that starts with its segments, the
/// topic made of its segments alone included, however deep it goes.
pub proof fn law_globstar_prefix(l: Seq<Seq<char>>, t: Seq<Seq<char>>)
    ensures
        matches_spec(PatternView { literal: l, wildcard: Wildcard::GlobStar }, t) <==> (t.len() >= l.len()
            && forall|i: int| 0 <= i < l.len() ==> #[trigger] t[i] == l[i]),
        matches_spec(PatternView { literal: l, wildcard: Wildcard::GlobStar }, l),
{
    if t.len() >= l.len() && forall|i: int| 0 <= i < l.len() ==> #[trigger] t[i] == l[i] {
        assert(t.take(l.len() as int) =~= l);
    }
    if matches_spec(PatternView { literal: l, wildcard: Wildcard::GlobStar }, t) {
        assert forall|i: int| 0 <= i < l.len() implies #[trigger] t[i] == l[i] by {
            assert(t.take(l.len() as int)[i] == t[i]);
        }
    }
    assert(l.take(l.len() as int) =~= l);
}

/// Whether `pattern` matches the already split topic `topic_parts`.
pub fn matches(pattern: &Pattern, topic_parts: &[&str]) -> (r: bool)
    ensures
        r == matches_spec(pattern@, parts_view(topic_parts@)),
{
    let n = pattern.literal.len();
    let m = topic_parts.len();
    let len_ok = match pattern.wildcard {
        Wildcard::Exact => m == n,
        Wildcard::Star => m >= n && m - n == 1,
        Wildcard::GlobStar => m >= n,
    };
    if !len_ok {
        return false;
    }
    let ghost lit = pattern@.literal;
    let ghost tv = parts_view(topic_parts@);
    let mut i: usize = 0;
    while i < n
        invariant
            n == pattern.literal@.len(),
            m == topic_parts@.len(),
            n <= m,
            lit == pattern@.literal,
            tv == parts_view(topic_parts@),
            i <= n,
            forall|j: int| 0 <= j < i ==> tv[j] == lit[j],
        decreases n - i,
    {
        if !crate::text::str_eq(topic_parts[i], pattern.literal[i].as_str()) {
            assert(tv.take(n as int)[i as int] != lit[i as int]);
            assert(tv[i as int] != lit[i as int]);
            return false;
        }
        i = i + 1;
    }
    assert(tv.take(n as int) =~= lit);
    proof {
        if pattern.wildcard == Wildcard::Exact {
            assert(tv =~= lit);
        }
    }
    true
}

} // verus!
