//! Envelope and actor identifiers, and the topic segment derived from an id.

use crate::envelope::error::EnvelopeBuildError;
use crate::envelope::topic::is_name;
use crate::text::{debug_str, is_digit};
use vstd::prelude::*;
use vstd::string::*;

verus! {

/// The identity of an envelope (a hex string for the library's generators).
#[derive(Debug, PartialEq, Eq, Hash, PartialOrd, Ord, Default)]
pub struct EnvelopeId(pub String);

/// The label of an actor.
#[derive(Debug, PartialEq, Eq, Hash, PartialOrd, Ord, Default)]
pub struct ActorId(pub String);

impl View for EnvelopeId {
    type V = Seq<char>;

    open spec fn view(&self) -> Seq<char> {
        self.0@
    }
}

impl View for ActorId {
    type V = Seq<char>;

    open spec fn view(&self) -> Seq<char> {
        self.0@
    }
}

impl Clone for EnvelopeId {
    fn clone(&self) -> (r: Self)
        ensures
            r@ == self@,
    {
        EnvelopeId(self.0.clone())
    }
}

impl Clone for ActorId {
    fn clone(&self) -> (r: Self)
        ensures
            r@ == self@,
    {
        ActorId(self.0.clone())
    }
}

impl EnvelopeId {
    /// Whether two ids are the same text.
    pub fn same(&self, other: &EnvelopeId) -> (r: bool)
        ensures
            r == (self@ == other@),
    {
        self.0 == other.0
    }
}

/// The longest topic segment an id may yield.
pub const MAX_SEG: usize = 64;

/// An ASCII hexadecimal digit, either case.
pub open spec fn is_hex(c: char) -> bool {
    is_digit(c) || ('a' <= c && c <= 'f') || ('A' <= c && c <= 'F')
}

/// A hex digit in lower case.
pub open spec fn hex_lower(c: char) -> char {
    if c == 'A' {
        'a'
    } else if c == 'B' {
        'b'
    } else if c == 'C' {
        'c'
    } else if c == 'D' {
        'd'
    } else if c == 'E' {
        'e'
    } else if c == 'F' {
        'f'
    } else {
        c
    }
}

/// The id without dashes, hex digits lower-cased.
pub open spec fn cleaned_id(s: Seq<char>) -> Seq<char>
    decreases s.len(),
{
    if s.len() == 0 {
        Seq::<char>::empty()
    } else if s.last() == '-' {
        cleaned_id(s.drop_last())
    } else {
        cleaned_id(s.drop_last()).push(hex_lower(s.last()))
    }
}

/// Cleaning an id of dashes and hex digits leaves only lower-case hex
/// digits, one per digit of the id.
pub proof fn lemma_cleaned_digits(s: Seq<char>)
    requires
        forall|i: int| 0 <= i < s.len() ==> (#[trigger] s[i]) == '-' || is_hex(s[i]),
    ensures
        forall|i: int|
            0 <= i < cleaned_id(s).len() ==> crate::text::is_digit(#[trigger] cleaned_id(s)[i]) || ('a' <= cleaned_id(s)[i]
                && cleaned_id(s)[i] <= 'f'),
    decreases s.len(),
{
    if s.len() > 0 {
        assert forall|i: int| 0 <= i < s.drop_last().len() implies (#[trigger] s.drop_last()[i]) == '-' || is_hex(
            s.drop_last()[i],
        ) by {
            assert(s.drop_last()[i] == s[i]);
        }
        lemma_cleaned_digits(s.drop_last());
        assert(s.last() == s[s.len() - 1]);
        let prev = cleaned_id(s.drop_last());
        if s.last() != '-' {
            let h = hex_lower(s.last());
            assert(is_hex(s.last()));
            assert(crate::text::is_digit(h) || ('a' <= h && h <= 'f'));
            assert(cleaned_id(s) == prev.push(h));
            assert forall|i: int|
                0 <= i < cleaned_id(s).len() implies crate::text::is_digit(#[trigger] cleaned_id(s)[i]) || (
            'a' <= cleaned_id(s)[i] && cleaned_id(s)[i] <= 'f') by {
                if i < prev.len() {
                    assert(cleaned_id(s)[i] == prev[i]);
                }
            }
        }
    }
}

/// Every character is a dash or a hex digit.
pub open spec fn id_chars_ok(s: Seq<char>) -> bool {
    forall|i: int| 0 <= i < s.len() ==> (#[trigger] s[i]) == '-' || is_hex(s[i])
}

/// The topic segment of an id: `e` followed by its cleaned hex digits, when
/// there is at least one digit, no other character, and at most 63 digits.
pub open spec fn segment_of(id: Seq<char>) -> Option<Seq<char>> {
    let c = cleaned_id(id);
    if c.len() == 0 || !id_chars_ok(id) || c.len() + 1 > MAX_SEG {
        None
    } else {
        Some(seq!['e'] + c)
    }
}

fn lower_hex_char(c: char) -> (r: char)
    ensures
        r == hex_lower(c),
{
    if c == 'A' {
        'a'
    } else if c == 'B' {
        'b'
    } else if c == 'C' {
        'c'
    } else if c == 'D' {
        'd'
    } else if c == 'E' {
        'e'
    } else if c == 'F' {
        'f'
    } else {
        c
    }
}

proof fn lemma_cleaned_hex(s: Seq<char>)
    requires
        id_chars_ok(s),
    ensures
        forall|i: int| 0 <= i < cleaned_id(s).len() ==> {
            let c = #[trigger] cleaned_id(s)[i];
            is_digit(c) || ('a' <= c && c <= 'f')
        },
    decreases s.len(),
{
    if s.len() > 0 {
        assert(id_chars_ok(s.drop_last())) by {
            assert forall|i: int| 0 <= i < s.drop_last().len() implies (#[trigger] s.drop_last()[i])
                == '-' || is_hex(s.drop_last()[i]) by {
                assert(s.drop_last()[i] == s[i]);
            }
        }
        lemma_cleaned_hex(s.drop_last());
        assert(s[s.len() - 1] == '-' || is_hex(s[s.len() - 1]));
        let init = cleaned_id(s.drop_last());
        if s.last() != '-' {
            let c = hex_lower(s.last());
            assert(is_digit(c) || ('a' <= c && c <= 'f'));
            assert forall|i: int| 0 <= i < cleaned_id(s).len() implies {
                let d = #[trigger] cleaned_id(s)[i];
                is_digit(d) || ('a' <= d && d <= 'f')
            } by {
                if i < init.len() {
                    assert(cleaned_id(s)[i] == init[i]);
                }
            }
        }
    }
}

/// The topic segment for `id` (see `segment_of`).
pub fn topic_segment(id: &EnvelopeId) -> (r: Result<String, EnvelopeBuildError>)
    ensures
        match segment_of(id@) {
            Some(seg) => r matches Ok(s) && s@ == seg,
            None => r matches Err(e) && e.0@ == (if cleaned_id(id@).len() == 0 || !id_chars_ok(
                id@,
            ) {
                "invalid envelope id: "@ + debug_str(id@)
            } else {
                "invalid topic_segment for id: "@ + debug_str(id@)
            }),
        },
{
    let src = id.0.as_str();
    let n = src.unicode_len();
    let mut cleaned = String::new();
    let mut all_hex = true;
    let mut i: usize = 0;
    while i < n
        invariant
            n == src@.len(),
            src@ == id@,
            i <= n,
            cleaned@ == cleaned_id(src@.take(i as int)),
            all_hex == id_chars_ok(src@.take(i as int)),
        decreases n - i,
    {
        let c = src.get_char(i);
        assert(src@.take(i + 1).drop_last() =~= src@.take(i as int));
        assert(src@.take(i + 1).last() == c);
        if c != '-' {
            let ok = ('0' <= c && c <= '9') || ('a' <= c && c <= 'f') || ('A' <= c && c <= 'F');
            if !ok {
                all_hex = false;
            }
            crate::text::push_char(&mut cleaned, lower_hex_char(c));
        }
        proof {
            let t = src@.take(i + 1);
            if all_hex {
                assert forall|j: int| 0 <= j < t.len() implies (#[trigger] t[j]) == '-' || is_hex(
                    t[j],
                ) by {
                    if j < i {
                        assert(t[j] == src@.take(i as int)[j]);
                    }
                }
            } else if id_chars_ok(src@.take(i as int)) {
                assert(!(t[i as int] == '-' || is_hex(t[i as int])));
            } else {
                let w = choose|j: int| 0 <= j < i && !((src@.take(i as int)[j]) == '-' || is_hex(src@.take(i as int)[j]));
                assert(t[w] == src@.take(i as int)[w]);
            }
        }
        i = i + 1;
    }
    assert(src@.take(n as int) =~= src@);
    let count = cleaned.as_str().unicode_len();
    if count == 0 || !all_hex {
        let q = crate::text::debug_quote(src);
        return Err(EnvelopeBuildError(crate::text::concat2("invalid envelope id: ", q.as_str())));
    }
    let mut segment = String::new();
    crate::text::push_char(&mut segment, 'e');
    segment.append(cleaned.as_str());
    proof {
        lemma_cleaned_hex(id@);
        assert(segment@ == seq!['e'] + cleaned@);
    }
    let seg_len = segment.as_str().unicode_len();
    if seg_len > MAX_SEG || !is_name(segment.as_str()) {
        let q = crate::text::debug_quote(src);
        return Err(
            EnvelopeBuildError(crate::text::concat2("invalid topic_segment for id: ", q.as_str())),
        );
    }
    Ok(segment)
}

} // verus!
