//! Id generators: the trait the library draws ids and topic segments from,
//! a counting generator and a pseudo-random (UUID-shaped) one.

use crate::envelope::id::{segment_of, topic_segment, EnvelopeId};
use crate::text::debug_str;
use vstd::prelude::*;

verus! {

/// A source of envelope ids, and the mapping from an id to the topic
/// segment that result topics end with. Users may supply their own.
pub trait IdGen {
    /// A fresh envelope id.
    fn next_envelope_id(&mut self) -> EnvelopeId;

    /// Whether `r` is what this generator gives as the topic segment of
    /// the id `id`. A generator that says nothing of its segments admits
    /// every answer.
    open spec fn segment_for(&self, id: Seq<char>, r: Result<String, crate::Error>) -> bool {
        true
    }

    /// The topic segment for `id`.
    fn topic_segment(&self, id: &EnvelopeId) -> (r: Result<String, crate::Error>)
        ensures
            self.segment_for(id@, r),
    ;
}

/// The `n`-th lower-case hexadecimal digit.
pub open spec fn hex_char(d: nat) -> char {
    if d == 0 {
        '0'
    } else if d == 1 {
        '1'
    } else if d == 2 {
        '2'
    } else if d == 3 {
        '3'
    } else if d == 4 {
        '4'
    } else if d == 5 {
        '5'
    } else if d == 6 {
        '6'
    } else if d == 7 {
        '7'
    } else if d == 8 {
        '8'
    } else if d == 9 {
        '9'
    } else if d == 10 {
        'a'
    } else if d == 11 {
        'b'
    } else if d == 12 {
        'c'
    } else if d == 13 {
        'd'
    } else if d == 14 {
        'e'
    } else {
        'f'
    }
}

/// The lowest `width` hex digits of `n`, most significant first, zero padded.
pub open spec fn hex_digits(n: nat, width: nat) -> Seq<char>
    decreases width,
{
    if width == 0 {
        Seq::<char>::empty()
    } else {
        hex_digits(n / 16, (width - 1) as nat).push(hex_char(n % 16))
    }
}

/// A lower-case hex digit character.
pub open spec fn is_lower_hex(c: char) -> bool {
    ('0' <= c && c <= '9') || ('a' <= c && c <= 'f')
}

fn hex_digit(d: u64) -> (c: char)
    requires
        d < 16,
    ensures
        c == hex_char(d as nat),
{
    if d == 0 {
        '0'
    } else if d == 1 {
        '1'
    } else if d == 2 {
        '2'
    } else if d == 3 {
        '3'
    } else if d == 4 {
        '4'
    } else if d == 5 {
        '5'
    } else if d == 6 {
        '6'
    } else if d == 7 {
        '7'
    } else if d == 8 {
        '8'
    } else if d == 9 {
        '9'
    } else if d == 10 {
        'a'
    } else if d == 11 {
        'b'
    } else if d == 12 {
        'c'
    } else if d == 13 {
        'd'
    } else if d == 14 {
        'e'
    } else {
        'f'
    }
}

/// Appends the lowest `width` hex digits of `n`.
pub fn push_hex(s: &mut String, n: u64, width: usize)
    ensures
        final(s)@ == old(s)@ + hex_digits(n as nat, width as nat),
    decreases width,
{
    if width > 0 {
        push_hex(s, n / 16, width - 1);
        crate::text::push_char(s, hex_digit(n % 16));
    } else {
        assert(old(s)@ + Seq::<char>::empty() =~= old(s)@);
    }
}

pub proof fn lemma_hex_digits(n: nat, width: nat)
    ensures
        hex_digits(n, width).len() == width,
        forall|i: int| 0 <= i < width ==> is_lower_hex(#[trigger] hex_digits(n, width)[i]),
    decreases width,
{
    if width > 0 {
        lemma_hex_digits(n / 16, (width - 1) as nat);
        let d = n % 16;
        assert(is_lower_hex(hex_char(d)));
        assert forall|i: int| 0 <= i < width implies is_lower_hex(
            #[trigger] hex_digits(n, width)[i],
        ) by {
            if i < width - 1 {
                assert(hex_digits(n, width)[i] == hex_digits(n / 16, (width - 1) as nat)[i]);
            }
        }
    }
}

/// `16` to the power `w`.
pub open spec fn pow16(w: nat) -> nat
    decreases w,
{
    if w == 0 {
        1
    } else {
        16 * pow16((w - 1) as nat)
    }
}

/// Below `16^width`, distinct numbers have distinct hex digits.
pub proof fn law_hex_digits_injective(n: nat, m: nat, width: nat)
    requires
        n < pow16(width),
        m < pow16(width),
        n != m,
    ensures
        hex_digits(n, width) != hex_digits(m, width),
    decreases width,
{
    if width == 0 {
    } else {
        let w1 = (width - 1) as nat;
        let p = pow16(w1);
        assert(n / 16 < p) by (nonlinear_arith)
            requires
                n < 16 * p,
        ;
        assert(m / 16 < p) by (nonlinear_arith)
            requires
                m < 16 * p,
        ;
        let a = hex_digits(n, width);
        let b = hex_digits(m, width);
        if a == b {
            assert(a.last() == hex_char(n % 16));
            assert(b.last() == hex_char(m % 16));
            assert(n % 16 == m % 16);
            assert(a.drop_last() =~= hex_digits(n / 16, w1));
            assert(b.drop_last() =~= hex_digits(m / 16, w1));
            if n / 16 != m / 16 {
                law_hex_digits_injective(n / 16, m / 16, w1);
            }
            assert(n == 16 * (n / 16) + n % 16);
            assert(m == 16 * (m / 16) + m % 16);
        }
    }
}

/// Distinct counter values give distinct sequential ids.
pub proof fn law_seq_ids_distinct(a: u64, b: u64)
    requires
        a != b,
    ensures
        hex_digits(a as nat, 32) != hex_digits(b as nat, 32),
{
    assert(pow16(32) == 0x1_0000_0000_0000_0000_0000_0000_0000_0000nat) by {
        reveal_with_fuel(pow16, 33);
    }
    law_hex_digits_injective(a as nat, b as nat, 32);
}

/// Hands out the ids `start`, `start + 1`, ... as 32 zero-padded hex digits.
pub struct SeqIdGen {
    next: u64,
}

impl SeqIdGen {
    /// A generator whose first id is `start` (at least 1).
    pub fn new(start: u64) -> (g: SeqIdGen)
        ensures
            g.upcoming() == if start < 1 {
                1
            } else {
                start
            },
    {
        SeqIdGen { next: if start < 1 {
            1
        } else {
            start
        } }
    }

    /// The number the next id will carry.
    pub closed spec fn upcoming(&self) -> u64 {
        self.next
    }
}

impl Default for SeqIdGen {
    fn default() -> (g: Self)
        ensures
            g.upcoming() == 1,
    {
        SeqIdGen { next: 1 }
    }
}

impl IdGen for SeqIdGen {
    /// The library's generators use the canonical mapping.
    open spec fn segment_for(&self, id: Seq<char>, r: Result<String, crate::Error>) -> bool {
        segment_result(id, r)
    }

    fn next_envelope_id(&mut self) -> (id: EnvelopeId)
        ensures
            id@ == hex_digits(old(self).upcoming() as nat, 32),
            final(self).upcoming() == old(self).upcoming().wrapping_add(1),
    {
        let n = self.next;
        self.next = n.wrapping_add(1);
        let mut s = String::new();
        push_hex(&mut s, n, 32);
        assert(s@ =~= hex_digits(n as nat, 32));
        EnvelopeId(s)
    }

    fn topic_segment(&self, id: &EnvelopeId) -> (r: Result<String, crate::Error>)
        ensures
            segment_result(id@, r),
    {
        canonical_segment(id)
    }
}

/// The segment a library generator gives an id is `e` followed only by
/// lower-case hex digits: the id's digits, lower-cased, its dashes dropped.
/// So a result topic built from it never holds the raw id's dashes.
pub proof fn law_library_segment_shape(id: Seq<char>, s: Seq<char>)
    requires
        segment_of(id) == Some(s),
    ensures
        s.len() >= 2,
        s[0] == 'e',
        forall|i: int| 1 <= i < s.len() ==> (#[trigger] s[i]) != '-' && (crate::text::is_digit(s[i]) || (
        'a' <= s[i] && s[i] <= 'f')),
        s.drop_first() == crate::envelope::id::cleaned_id(id),
{
    let c = crate::envelope::id::cleaned_id(id);
    crate::envelope::id::lemma_cleaned_digits(id);
    assert(s.drop_first() =~= c);
    assert forall|i: int| 1 <= i < s.len() implies (#[trigger] s[i]) != '-' && (crate::text::is_digit(s[i])
        || ('a' <= s[i] && s[i] <= 'f')) by {
        assert(s[i] == c[i - 1]);
    }
}

/// A library generator's segment answer is the canonical one.
pub proof fn law_library_segment_canonical(g: SeqIdGen, u: UuidIdGen, id: Seq<char>, s: String)
    ensures
        g.segment_for(id, Ok(s)) ==> segment_of(id) == Some(s@),
        u.segment_for(id, Ok(s)) ==> segment_of(id) == Some(s@),
{
}

/// `r` is what the canonical id-to-segment mapping gives for `id`.
pub open spec fn segment_result(id: Seq<char>, r: Result<String, crate::Error>) -> bool {
    match segment_of(id) {
        Some(seg) => r matches Ok(s) && s@ == seg,
        None => r matches Err(crate::Error::EnvelopeBuild(m)) && m@ == (if crate::envelope::id::cleaned_id(id).len() == 0
            || !crate::envelope::id::id_chars_ok(id) {
            "invalid envelope id: "@ + debug_str(id)
        } else {
            "invalid topic_segment for id: "@ + debug_str(id)
        }),
    }
}

/// The canonical segment mapping with the library-wide error type.
pub fn canonical_segment(id: &EnvelopeId) -> (r: Result<String, crate::Error>)
    ensures
        segment_result(id@, r),
{
    match topic_segment(id) {
        Ok(s) => Ok(s),
        Err(e) => Err(e.into_error()),
    }
}

} // verus!

verus! {

#[verifier::external_type_specification]
#[verifier::external_body]
pub struct ExSystemTime(std::time::SystemTime);

/// `SystemTime::now`: the current wall-clock time.
#[verifier::external_body]
fn system_now() -> std::time::SystemTime {
    std::time::SystemTime::now()
}

/// `SystemTime::duration_since(UNIX_EPOCH)`, `None` for a time before the epoch.
#[verifier::external_body]
fn since_epoch(t: &std::time::SystemTime) -> Option<std::time::Duration> {
    match t.duration_since(std::time::UNIX_EPOCH) {
        Ok(d) => Some(d),
        Err(_) => None,
    }
}

/// The golden-ratio increment of the splitmix sequence.
pub const GOLDEN: u64 = 0x9e3779b97f4a7c15;

/// Pseudo-random ids in the shape of a version-4 UUID (32 hex digits),
/// seeded from the wall clock.
pub struct UuidIdGen {
    counter: u64,
}

impl UuidIdGen {
    /// A generator seeded from the current time.
    pub fn new() -> (g: UuidIdGen)
        ensures
            g.state() % 2 == 1,
    {
        let seed: u64 = match since_epoch(&system_now()) {
            Some(d) => crate::clock::duration_nanos(&d) as u64,
            None => GOLDEN,
        };
        let c = seed | 1;
        assert(c % 2 == 1) by (bit_vector)
            requires
                c == seed | 1,
        ;
        UuidIdGen { counter: c }
    }

    /// The internal state of the splitmix sequence.
    pub closed spec fn state(&self) -> u64 {
        self.counter
    }

    fn splitmix(&mut self) -> (r: u64)
        ensures
            final(self).state() == old(self).state().wrapping_add(GOLDEN),
    {
        self.counter = self.counter.wrapping_add(GOLDEN);
        let mut z = self.counter;
        z = (z ^ (z >> 30u64)).wrapping_mul(0xbf58476d1ce4e5b9);
        z = (z ^ (z >> 27u64)).wrapping_mul(0x94d049bb133111eb);
        z ^ (z >> 31u64)
    }
}

impl Default for UuidIdGen {
    fn default() -> UuidIdGen {
        UuidIdGen::new()
    }
}

fn push_word_bytes(bytes: &mut Vec<u8>, w: u64)
    ensures
        final(bytes)@.len() == old(bytes)@.len() + 8,
{
    let mut k: u64 = 0;
    while k < 8
        invariant
            k <= 8,
            bytes@.len() == old(bytes)@.len() + k,
        decreases 8 - k,
    {
        let shift: u64 = 56 - 8 * k;
        bytes.push(((w >> shift) & 0xff) as u8);
        k = k + 1;
    }
}

/// A string of lower-case hex digits of the given length.
pub open spec fn is_hex_text(s: Seq<char>, len: nat) -> bool {
    s.len() == len && forall|i: int| 0 <= i < len ==> is_lower_hex(#[trigger] s[i])
}

impl IdGen for UuidIdGen {
    /// The library's generators use the canonical mapping.
    open spec fn segment_for(&self, id: Seq<char>, r: Result<String, crate::Error>) -> bool {
        segment_result(id, r)
    }

    fn next_envelope_id(&mut self) -> (id: EnvelopeId)
        ensures
            is_hex_text(id@, 32),
            id@[12] == '4',
            id@[16] == '8' || id@[16] == '9' || id@[16] == 'a' || id@[16] == 'b',
            final(self).state() == old(self).state().wrapping_add(GOLDEN).wrapping_add(GOLDEN),
    {
        let a = self.splitmix();
        let b = self.splitmix();
        let mut bytes: Vec<u8> = Vec::new();
        push_word_bytes(&mut bytes, a);
        push_word_bytes(&mut bytes, b);
        let x6 = bytes[6];
        let b6 = (x6 & 0x0f) | 0x40;
        assert(b6 / 16 == 4) by (bit_vector)
            requires
                b6 == (x6 & 0x0f) | 0x40,
        ;
        bytes.set(6, b6);
        let x8 = bytes[8];
        let b8 = (x8 & 0x3f) | 0x80;
        assert(8 <= b8 / 16 <= 11) by (bit_vector)
            requires
                b8 == (x8 & 0x3f) | 0x80,
        ;
        bytes.set(8, b8);
        let mut s = String::new();
        let mut i: usize = 0;
        while i < 16
            invariant
                bytes@.len() == 16,
                bytes@[6] / 16 == 4,
                8 <= bytes@[8] / 16 <= 11,
                i <= 16,
                is_hex_text(s@, 2 * i as nat),
                forall|j: int| 0 <= j < i ==> s@[2 * j] == hex_char(#[trigger] bytes@[j] as nat / 16),
            decreases 16 - i,
        {
            let ghost before = s@;
            push_hex(&mut s, bytes[i] as u64, 2);
            proof {
                let n = bytes@[i as int] as nat;
                lemma_hex_digits(n, 2);
                assert(hex_digits(n, 2)[0] == hex_char((n / 16) % 16)) by {
                    reveal_with_fuel(hex_digits, 3);
                    assert(hex_digits(n / 16, 1) =~= seq![hex_char((n / 16) % 16)]);
                }
                assert((n / 16) % 16 == n / 16);
                assert forall|j: int| 0 <= j < 2 * (i + 1) implies is_lower_hex(#[trigger] s@[j]) by {
                    if j < 2 * i {
                        assert(s@[j] == before[j]);
                    } else {
                        assert(s@[j] == hex_digits(n, 2)[j - 2 * i]);
                    }
                }
                assert forall|j: int| 0 <= j < i + 1 implies s@[2 * j] == hex_char(#[trigger] bytes@[j] as nat / 16) by {
                    if j < i {
                        assert(s@[2 * j] == before[2 * j]);
                    } else {
                        assert(s@[2 * j] == hex_digits(n, 2)[0]);
                    }
                }
            }
            i = i + 1;
        }
        proof {
            assert(s@[2 * 6int] == hex_char(bytes@[6int] as nat / 16));
            assert(s@[2 * 8int] == hex_char(bytes@[8int] as nat / 16));
        }
        EnvelopeId(s)
    }

    fn topic_segment(&self, id: &EnvelopeId) -> (r: Result<String, crate::Error>)
        ensures
            segment_result(id@, r),
    {
        canonical_segment(id)
    }
}

} // verus!
