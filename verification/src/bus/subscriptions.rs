//! The subscription table: which mailbox listens to which pattern, in the
//! order the subscriptions were made.

use crate::envelope::topic::parts_view;
use crate::pattern::{matches_spec, strings_view, Pattern, PatternView, Wildcard};
use crate::text::{join_with, push_char};
use vstd::prelude::*;
use vstd::string::*;

verus! {

/// One subscription: a mailbox id, its pattern and the pattern's text.
pub struct SubView {
    pub inbox: u64,
    pub pattern: PatternView,
    pub text: Seq<char>,
}

struct SubEntry {
    inbox: u64,
    pattern: Pattern,
    text: String,
}

impl SubEntry {
    spec fn view(&self) -> SubView {
        SubView { inbox: self.inbox, pattern: self.pattern@, text: self.text@ }
    }
}

/// Subscriptions in the order they were made; one per (mailbox, pattern text).
pub struct Subscriptions {
    entries: Vec<SubEntry>,
}

/// The segments of a pattern, the wildcard written as `*` or `**`.
pub open spec fn pattern_parts(p: PatternView) -> Seq<Seq<char>> {
    match p.wildcard {
        Wildcard::Exact => p.literal,
        Wildcard::Star => p.literal.push("*"@),
        Wildcard::GlobStar => p.literal.push("**"@),
    }
}

/// The text of a pattern: its segments joined with dots.
pub open spec fn pattern_text_spec(p: PatternView) -> Seq<char> {
    join_with(pattern_parts(p), '.')
}

/// Printing the pattern a text denotes gives the text back; for a valid
/// text that is what `parse_pattern` then `pattern_text` return.
pub proof fn law_pattern_text_round_trip(t: Seq<char>)
    ensures
        pattern_text_spec(crate::pattern::pattern_of(t)) == t,
{
    let parts = crate::text::split_on(t, '.');
    crate::text::lemma_split_len(t, '.');
    crate::text::law_join_split(t, '.');
    let p = crate::pattern::pattern_of(t);
    if p.wildcard != Wildcard::Exact {
        assert(parts.drop_last().push(parts.last()) =~= parts);
    }
    assert(pattern_parts(p) =~= parts);
}

/// Every subscription's pattern is the one its text denotes.
pub open spec fn subs_parsed(v: Seq<SubView>) -> bool {
    forall|i: int| 0 <= i < v.len() ==> (#[trigger] v[i]).pattern == crate::pattern::pattern_of(v[i].text)
}

/// A subscription whose pattern matches topic `t` makes its mailbox a
/// target of `t`.
pub proof fn lemma_matching_sub_targeted(v: Seq<SubView>, t: Seq<Seq<char>>, i: int)
    requires
        0 <= i < v.len(),
        matches_spec(v[i].pattern, t),
    ensures
        targets(v, t).contains(v[i].inbox),
    decreases v.len(),
{
    let init = targets(v.drop_last(), t);
    if i == v.len() - 1 {
        if init.contains(v[i].inbox) {
            let j = choose|j: int| 0 <= j < init.len() && init[j] == v[i].inbox;
            assert(targets(v, t)[j] == v[i].inbox);
        } else {
            assert(targets(v, t)[init.len() as int] == v[i].inbox);
        }
    } else {
        assert(v.drop_last()[i] == v[i]);
        lemma_matching_sub_targeted(v.drop_last(), t, i);
        let j = choose|j: int| 0 <= j < init.len() && init[j] == v[i].inbox;
        assert(targets(v, t)[j] == v[i].inbox);
    }
}

/// A topic reaches only mailboxes that hold a subscription whose pattern
/// matches it, and every such mailbox.
pub proof fn law_targets_exact(v: Seq<SubView>, t: Seq<Seq<char>>, id: u64)
    ensures
        targets(v, t).contains(id) <==> exists|i: int|
            0 <= i < v.len() && (#[trigger] v[i]).inbox == id && matches_spec(v[i].pattern, t),
    decreases v.len(),
{
    if v.len() > 0 {
        let init = targets(v.drop_last(), t);
        law_targets_exact(v.drop_last(), t, id);
        if targets(v, t).contains(id) {
            let k = choose|k: int| 0 <= k < targets(v, t).len() && targets(v, t)[k] == id;
            if k < init.len() && init[k] == id {
                assert(init.contains(id));
                let i = choose|i: int|
                    0 <= i < v.drop_last().len() && (#[trigger] v.drop_last()[i]).inbox == id && matches_spec(
                        v.drop_last()[i].pattern,
                        t,
                    );
                assert(v[i] == v.drop_last()[i]);
            } else if init.contains(id) {
                let i = choose|i: int|
                    0 <= i < v.drop_last().len() && (#[trigger] v.drop_last()[i]).inbox == id && matches_spec(
                        v.drop_last()[i].pattern,
                        t,
                    );
                assert(v[i] == v.drop_last()[i]);
            } else {
                assert(v[v.len() - 1].inbox == id && matches_spec(v[v.len() - 1].pattern, t));
            }
        }
        if exists|i: int| 0 <= i < v.len() && (#[trigger] v[i]).inbox == id && matches_spec(v[i].pattern, t) {
            let i = choose|i: int| 0 <= i < v.len() && (#[trigger] v[i]).inbox == id && matches_spec(v[i].pattern, t);
            lemma_matching_sub_targeted(v, t, i);
        }
    }
}

/// Some subscription has this mailbox and pattern text.
pub open spec fn has_sub(v: Seq<SubView>, inbox: u64, text: Seq<char>) -> bool {
    exists|i: int| 0 <= i < v.len() && (#[trigger] v[i]).inbox == inbox && v[i].text == text
}

/// Index `i` holds the first subscription with this mailbox and text.
pub open spec fn is_first_sub(v: Seq<SubView>, inbox: u64, text: Seq<char>, i: int) -> bool {
    &&& 0 <= i < v.len()
    &&& v[i].inbox == inbox
    &&& v[i].text == text
    &&& forall|j: int| 0 <= j < i ==> !((#[trigger] v[j]).inbox == inbox && v[j].text == text)
}

/// There is only one first subscription for a key.
pub proof fn lemma_first_sub_unique(v: Seq<SubView>, inbox: u64, text: Seq<char>, i: int, k: int)
    requires
        is_first_sub(v, inbox, text, i),
        is_first_sub(v, inbox, text, k),
    ensures
        i == k,
{
    if i < k {
        assert(v[i].inbox == inbox && v[i].text == text);
    } else if k < i {
        assert(v[k].inbox == inbox && v[k].text == text);
    }
}

/// No (mailbox, text) pair occurs twice.
pub open spec fn subs_unique(v: Seq<SubView>) -> bool {
    forall|i: int, j: int|
        0 <= i < j < v.len() ==> !((#[trigger] v[i]).inbox == (#[trigger] v[j]).inbox && v[i].text
            == v[j].text)
}

/// The mailboxes a topic reaches, each once, in the order of their earliest
/// matching subscription.
pub open spec fn targets(v: Seq<SubView>, t: Seq<Seq<char>>) -> Seq<u64>
    decreases v.len(),
{
    if v.len() == 0 {
        Seq::<u64>::empty()
    } else {
        let init = targets(v.drop_last(), t);
        let e = v.last();
        if matches_spec(e.pattern, t) && !init.contains(e.inbox) {
            init.push(e.inbox)
        } else {
            init
        }
    }
}

/// The text of a pattern, as used in subscription keys.
pub fn pattern_text(pattern: &Pattern) -> (r: String)
    ensures
        r@ == pattern_text_spec(pattern@),
{
    let mut parts = crate::pattern::clone_strings(&pattern.literal);
    let ghost lit = strings_view(parts@);
    match pattern.wildcard {
        Wildcard::Star => {
            parts.push(crate::text::to_string("*"));
            assert(strings_view(parts@) =~= lit.push("*"@));
        },
        Wildcard::GlobStar => {
            parts.push(crate::text::to_string("**"));
            assert(strings_view(parts@) =~= lit.push("**"@));
        },
        Wildcard::Exact => {},
    }
    let ghost pv = strings_view(parts@);
    assert(pv == pattern_parts(pattern@));
    let mut s = String::new();
    let mut i: usize = 0;
    assert(pv.take(0) =~= Seq::<Seq<char>>::empty());
    while i < parts.len()
        invariant
            pv == strings_view(parts@),
            i <= parts@.len(),
            s@ == join_with(pv.take(i as int), '.'),
        decreases parts@.len() - i,
    {
        let ghost before = s@;
        if i > 0 {
            push_char(&mut s, '.');
        }
        s.append(parts[i].as_str());
        assert(pv.take(i + 1).drop_last() =~= pv.take(i as int));
        proof {
            if i == 0 {
                assert(before =~= Seq::<char>::empty());
                assert(s@ =~= pv[0]);
            }
        }
        i = i + 1;
    }
    assert(pv.take(parts@.len() as int) =~= pv);
    s
}

fn contains_id(v: &Vec<u64>, x: u64) -> (r: bool)
    ensures
        r == v@.contains(x),
{
    let mut i: usize = 0;
    while i < v.len()
        invariant
            i <= v@.len(),
            forall|j: int| 0 <= j < i ==> v@[j] != x,
        decreases v@.len() - i,
    {
        if v[i] == x {
            return true;
        }
        i = i + 1;
    }
    false
}

impl Subscriptions {
    /// The subscriptions, oldest first.
    pub closed spec fn view(&self) -> Seq<SubView> {
        self.entries@.map_values(|e: SubEntry| e.view())
    }

    /// No (mailbox, pattern text) pair is held twice.
    pub open spec fn wf(&self) -> bool {
        subs_unique(self.view())
    }

    /// An empty table.
    pub fn new() -> (s: Subscriptions)
        ensures
            s.view() == Seq::<SubView>::empty(),
            s.wf(),
    {
        let s = Subscriptions { entries: Vec::new() };
        assert(s.view() =~= Seq::<SubView>::empty());
        s
    }

    fn find(&self, inbox: u64, text: &String) -> (r: Option<usize>)
        ensures
            match r {
                Some(i) => is_first_sub(self.view(), inbox, text@, i as int),
                None => !has_sub(self.view(), inbox, text@),
            },
    {
        let mut i: usize = 0;
        while i < self.entries.len()
            invariant
                i <= self.entries@.len(),
                forall|j: int|
                    0 <= j < i ==> !((#[trigger] self.view()[j]).inbox == inbox && self.view()[j].text
                        == text@),
            decreases self.entries@.len() - i,
        {
            let e = &self.entries[i];
            assert(self.view()[i as int] == e.view());
            if e.inbox == inbox && e.text == *text {
                return Some(i);
            }
            i = i + 1;
        }
        None
    }

    /// Adds `inbox` under `pattern` unless that exact subscription exists.
    pub fn subscribe(&mut self, pattern: &Pattern, inbox: u64)
        ensures
            final(self).view() == if has_sub(old(self).view(), inbox, pattern_text_spec(pattern@)) {
                old(self).view()
            } else {
                old(self).view().push(
                    SubView { inbox, pattern: pattern@, text: pattern_text_spec(pattern@) },
                )
            },
            old(self).wf() ==> final(self).wf(),
    {
        let text = pattern_text(pattern);
        if self.find(inbox, &text).is_some() {
            return;
        }
        let ghost before = self.view();
        let entry = SubEntry { inbox, pattern: pattern.clone(), text };
        self.entries.push(entry);
        assert(self.view() =~= before.push(
            SubView { inbox, pattern: pattern@, text: pattern_text_spec(pattern@) },
        ));
    }

    /// Removes the subscription of `inbox` under `pattern`; false when there was none.
    pub fn unsubscribe(&mut self, pattern: &Pattern, inbox: u64) -> (removed: bool)
        ensures
            removed == has_sub(old(self).view(), inbox, pattern_text_spec(pattern@)),
            !removed ==> final(self).view() == old(self).view(),
            removed ==> exists|i: int|
                is_first_sub(old(self).view(), inbox, pattern_text_spec(pattern@), i)
                    && final(self).view() == old(self).view().remove(i),
            old(self).wf() ==> final(self).wf() && !has_sub(
                final(self).view(),
                inbox,
                pattern_text_spec(pattern@),
            ),
    {
        let text = pattern_text(pattern);
        match self.find(inbox, &text) {
            None => false,
            Some(i) => {
                let ghost before = self.view();
                let _ = self.entries.remove(i);
                assert(self.view() =~= before.remove(i as int));
                proof {
                    if subs_unique(before) {
                        assert forall|a: int, b: int|
                            0 <= a < b < self.view().len() implies !((#[trigger] self.view()[a]).inbox
                            == (#[trigger] self.view()[b]).inbox && self.view()[a].text
                            == self.view()[b].text) by {
                            let a0 = if a < i { a } else { a + 1 };
                            let b0 = if b < i { b } else { b + 1 };
                            assert(self.view()[a] == before[a0]);
                            assert(self.view()[b] == before[b0]);
                        }
                        if has_sub(self.view(), inbox, text@) {
                            let k = choose|k: int|
                                0 <= k < self.view().len() && (#[trigger] self.view()[k]).inbox == inbox
                                    && self.view()[k].text == text@;
                            let k0 = if k < i { k } else { k + 1 };
                            assert(self.view()[k] == before[k0]);
                            if k0 < i {
                            } else {
                                assert(before[i as int].inbox == before[k0].inbox);
                            }
                        }
                    }
                }
                true
            },
        }
    }

    /// The mailboxes a split topic reaches (see `targets`).
    pub fn snapshot_match(&self, topic_parts: &[&str]) -> (r: Vec<u64>)
        ensures
            r@ == targets(self.view(), parts_view(topic_parts@)),
    {
        let ghost t = parts_view(topic_parts@);
        let mut out: Vec<u64> = Vec::new();
        let mut i: usize = 0;
        assert(self.view().take(0) =~= Seq::<SubView>::empty());
        while i < self.entries.len()
            invariant
                t == parts_view(topic_parts@),
                i <= self.entries@.len(),
                out@ == targets(self.view().take(i as int), t),
            decreases self.entries@.len() - i,
        {
            let e = &self.entries[i];
            assert(self.view()[i as int] == e.view());
            assert(self.view().take(i + 1).drop_last() =~= self.view().take(i as int));
            if crate::pattern::matches(&e.pattern, topic_parts) && !contains_id(&out, e.inbox) {
                out.push(e.inbox);
            }
            i = i + 1;
        }
        assert(self.view().take(self.entries@.len() as int) =~= self.view());
        out
    }
}

} // verus!
