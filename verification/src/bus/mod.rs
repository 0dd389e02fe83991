//! The bus: owns the mailboxes, keeps the subscription table, and delivers
//! each published envelope to every matching open mailbox, or to none.

pub mod subscriptions;

use crate::envelope::topic::{split_topic, topic_error_msg, valid_topic};
use crate::envelope::{Envelope, EnvelopeView};
use crate::inbox::Inbox;
use crate::pattern::{parse_pattern, pattern_error_msg, pattern_of, valid_pattern};
use crate::text::split_on;
use crate::Error;
use subscriptions::{has_sub, pattern_text_spec, targets, SubView, Subscriptions};
use vstd::prelude::*;

verus! {

/// Names a mailbox owned by a bus.
#[derive(Debug, Clone, Copy, PartialEq, Eq, Hash)]
pub struct InboxHandle {
    id: u64,
}

impl View for InboxHandle {
    type V = u64;

    open spec fn view(&self) -> u64 {
        self.id_spec()
    }
}

impl InboxHandle {
    /// The mailbox number.
    pub closed spec fn id_spec(&self) -> u64 {
        self.id
    }

    /// The mailbox number, unique among the mailboxes of one bus.
    pub fn id(&self) -> (r: u64)
        ensures
            r == self@,
    {
        self.id
    }
}

/// The mailboxes and the subscriptions that route envelopes to them.
pub struct Bus {
    subs: Subscriptions,
    boxes: Vec<Inbox>,
}

/// Mailbox `id` exists and is open.
pub open spec fn live(boxes: Seq<Inbox>, id: u64) -> bool {
    id < boxes.len() && !boxes[id as int].closed_flag()
}

/// Mailbox `id` has no free place.
pub open spec fn full(boxes: Seq<Inbox>, id: u64) -> bool {
    boxes[id as int].queued().len() >= boxes[id as int].cap()
}

/// Some open target is full: publishing would not reach everyone.
pub open spec fn blocked(boxes: Seq<Inbox>, tg: Seq<u64>) -> bool {
    exists|k: int| 0 <= k < tg.len() && live(boxes, #[trigger] tg[k]) && full(boxes, tg[k])
}

/// `new` is `old` with `e` appended to every open target and nothing else changed.
pub open spec fn delivered(old: Seq<Inbox>, new: Seq<Inbox>, tg: Seq<u64>, e: EnvelopeView) -> bool {
    &&& new.len() == old.len()
    &&& forall|i: int|
        0 <= i < old.len() ==> {
            &&& (#[trigger] new[i]).queued() == if tg.contains(i as u64) && live(old, i as u64) {
                old[i].queued().push(e)
            } else {
                old[i].queued()
            }
            &&& new[i].cap() == old[i].cap()
            &&& new[i].closed_flag() == old[i].closed_flag()
            &&& new[i].reader_view() == old[i].reader_view()
        }
}

/// The subscriptions after subscribing mailbox `id` to the pattern text `text`.
pub open spec fn subscribed(s0: Seq<SubView>, text: Seq<char>, id: u64) -> Seq<SubView> {
    let p = pattern_of(text);
    let key = pattern_text_spec(p);
    if has_sub(s0, id, key) {
        s0
    } else {
        s0.push(SubView { inbox: id, pattern: p, text: key })
    }
}

/// The subscriptions after removing mailbox `id`'s subscription to the pattern text `text`.
pub open spec fn unsubscribed(s0: Seq<SubView>, text: Seq<char>, id: u64) -> Seq<SubView> {
    let key = pattern_text_spec(pattern_of(text));
    if valid_pattern(text) && has_sub(s0, id, key) {
        s0.remove(choose|i: int| subscriptions::is_first_sub(s0, id, key, i))
    } else {
        s0
    }
}

/// What publishing `e` does to the mailboxes `b0` (giving `b1`) and returns.
pub open spec fn publish_outcome(
    b0: Seq<Inbox>,
    b1: Seq<Inbox>,
    subs: Seq<SubView>,
    e: EnvelopeView,
    r: Result<(), Error>,
) -> bool {
    if !valid_topic(e.header.topic) {
        b1 == b0 && (r matches Err(Error::EnvelopeBuild(m)) && topic_error_msg(e.header.topic, m@))
    } else {
        let tg = targets(subs, split_on(e.header.topic, '.'));
        if blocked(b0, tg) {
            r == Err::<(), Error>(Error::MailboxFull) && b1 == b0
        } else {
            r is Ok && delivered(b0, b1, tg, e)
        }
    }
}

/// A publish changes only mailboxes that hold a subscription whose pattern
/// matches the topic; each of them gets the envelope appended, once.
pub proof fn law_publish_reaches_only_matching(
    b0: Seq<Inbox>,
    b1: Seq<Inbox>,
    subs: Seq<SubView>,
    e: EnvelopeView,
    r: Result<(), Error>,
    i: int,
)
    requires
        publish_outcome(b0, b1, subs, e, r),
        0 <= i < b0.len(),
        b1[i].queued() != b0[i].queued(),
    ensures
        exists|k: int|
            0 <= k < subs.len() && (#[trigger] subs[k]).inbox == i as u64 && crate::pattern::matches_spec(
                subs[k].pattern,
                split_on(e.header.topic, '.'),
            ),
        b1[i].queued() == b0[i].queued().push(e),
{
    let t = split_on(e.header.topic, '.');
    subscriptions::law_targets_exact(subs, t, i as u64);
}

/// A publish that no subscription matches succeeds and leaves every
/// mailbox as it was.
pub proof fn law_unmatched_publish_silent(
    b0: Seq<Inbox>,
    b1: Seq<Inbox>,
    subs: Seq<SubView>,
    e: EnvelopeView,
    r: Result<(), Error>,
)
    requires
        publish_outcome(b0, b1, subs, e, r),
        valid_topic(e.header.topic),
        targets(subs, split_on(e.header.topic, '.')).len() == 0,
    ensures
        r is Ok,
        b1.len() == b0.len(),
        forall|i: int| 0 <= i < b0.len() ==> (#[trigger] b1[i]).queued() == b0[i].queued(),
{
}

/// A publish that fails on a full mailbox leaves every mailbox as it was:
/// delivery is all or nothing.
pub proof fn law_full_publish_rolls_back(
    b0: Seq<Inbox>,
    b1: Seq<Inbox>,
    subs: Seq<SubView>,
    e: EnvelopeView,
    r: Result<(), Error>,
)
    requires
        publish_outcome(b0, b1, subs, e, r),
        r is Err,
    ensures
        b1 == b0,
{
}

/// Subscribing twice is subscribing once.
pub proof fn law_subscribe_idempotent(s: Seq<SubView>, text: Seq<char>, id: u64)
    ensures
        subscribed(subscribed(s, text, id), text, id) == subscribed(s, text, id),
{
    let key = pattern_text_spec(pattern_of(text));
    if !has_sub(s, id, key) {
        let s1 = subscribed(s, text, id);
        assert(s1[s.len() as int].inbox == id && s1[s.len() as int].text == key);
        assert(has_sub(s1, id, key));
    }
}

/// Unsubscribing undoes a subscription that was new: the table is as before.
pub proof fn law_unsubscribe_undoes_subscribe(s: Seq<SubView>, text: Seq<char>, id: u64)
    requires
        valid_pattern(text),
        !has_sub(s, id, pattern_text_spec(pattern_of(text))),
    ensures
        unsubscribed(subscribed(s, text, id), text, id) == s,
{
    let key = pattern_text_spec(pattern_of(text));
    let s1 = subscribed(s, text, id);
    let n = s.len() as int;
    assert(s1[n].inbox == id && s1[n].text == key);
    assert(has_sub(s1, id, key));
    assert(subscriptions::is_first_sub(s1, id, key, n)) by {
        assert forall|j: int| 0 <= j < n implies !((#[trigger] s1[j]).inbox == id && s1[j].text == key) by {
            assert(s1[j] == s[j]);
        }
    }
    let i = choose|i: int| subscriptions::is_first_sub(s1, id, key, i);
    subscriptions::lemma_first_sub_unique(s1, id, key, i, n);
    assert(s1.remove(n) =~= s);
}

/// A new subscription makes its mailbox a target of every topic its
/// pattern matches.
pub proof fn law_subscribed_is_target(s: Seq<SubView>, text: Seq<char>, id: u64, t: Seq<Seq<char>>)
    requires
        crate::pattern::matches_spec(pattern_of(text), t),
        !has_sub(s, id, pattern_text_spec(pattern_of(text))),
    ensures
        targets(subscribed(s, text, id), t).contains(id),
{
    let s1 = subscribed(s, text, id);
    assert(s1.drop_last() =~= s);
    let init = targets(s, t);
    if init.contains(id) {
        let j = choose|j: int| 0 <= j < init.len() && init[j] == id;
        assert(targets(s1, t)[j] == id);
    } else {
        assert(targets(s1, t) == init.push(id));
        assert(targets(s1, t)[init.len() as int] == id);
    }
}

/// Mailbox `id` holds no subscription made from the pattern text `text`
/// (a text that is no pattern was never subscribed).
pub open spec fn sub_gone(s: Seq<SubView>, text: Seq<char>, id: u64) -> bool {
    valid_pattern(text) ==> !has_sub(s, id, pattern_text_spec(pattern_of(text)))
}

/// Every subscription of `s1` is one of `s0`.
pub open spec fn subs_within(s1: Seq<SubView>, s0: Seq<SubView>) -> bool {
    forall|i: int| 0 <= i < s1.len() ==> s0.contains(#[trigger] s1[i])
}

/// Unsubscribing from unique subscriptions leaves none for that mailbox and
/// text, and only drops subscriptions.
pub proof fn lemma_unsubscribed_gone(s: Seq<SubView>, text: Seq<char>, id: u64)
    requires
        subscriptions::subs_unique(s),
    ensures
        sub_gone(unsubscribed(s, text, id), text, id),
        subs_within(unsubscribed(s, text, id), s),
        subscriptions::subs_unique(unsubscribed(s, text, id)),
{
    let key = pattern_text_spec(pattern_of(text));
    let s1 = unsubscribed(s, text, id);
    if valid_pattern(text) && has_sub(s, id, key) {
        let w = choose|i: int| 0 <= i < s.len() && (#[trigger] s[i]).inbox == id && s[i].text == key;
        assert(subscriptions::is_first_sub(s, id, key, w));
        let n = choose|i: int| subscriptions::is_first_sub(s, id, key, i);
        assert(s1 == s.remove(n));
        s.remove_ensures(n);
        assert forall|i: int| 0 <= i < s1.len() implies s.contains(#[trigger] s1[i]) by {
            if i < n {
                assert(s1[i] == s[i]);
            } else {
                assert(s1[i] == s[i + 1]);
            }
        }
        if has_sub(s1, id, key) {
            let i = choose|i: int| 0 <= i < s1.len() && (#[trigger] s1[i]).inbox == id && s1[i].text == key;
            if i < n {
                assert(s1[i] == s[i]);
            } else {
                assert(s1[i] == s[i + 1]);
                assert(s[n].inbox == s[i + 1].inbox && s[n].text == s[i + 1].text);
            }
        }
        assert forall|i: int, j: int| 0 <= i < j < s1.len() implies !((#[trigger] s1[i]).inbox == (
        #[trigger] s1[j]).inbox && s1[i].text == s1[j].text) by {
            let a = if i < n { i } else { i + 1 };
            let b = if j < n { j } else { j + 1 };
            assert(s1[i] == s[a] && s1[j] == s[b]);
        }
    } else {
        assert forall|i: int| 0 <= i < s1.len() implies s.contains(#[trigger] s1[i]) by {
            assert(s1[i] == s[i]);
        }
    }
}

/// A subscription absent from `s0` is absent from what `s0` shrinks to.
pub proof fn lemma_gone_within(s1: Seq<SubView>, s0: Seq<SubView>, text: Seq<char>, id: u64)
    requires
        subs_within(s1, s0),
        sub_gone(s0, text, id),
    ensures
        sub_gone(s1, text, id),
{
    let key = pattern_text_spec(pattern_of(text));
    if valid_pattern(text) && has_sub(s1, id, key) {
        let i = choose|i: int| 0 <= i < s1.len() && (#[trigger] s1[i]).inbox == id && s1[i].text == key;
        assert(s0.contains(s1[i]));
        let j = choose|j: int| 0 <= j < s0.len() && s0[j] == s1[i];
        assert(s0[j].inbox == id && s0[j].text == key);
    }
}

/// Shrinking is transitive.
pub proof fn lemma_within_trans(s2: Seq<SubView>, s1: Seq<SubView>, s0: Seq<SubView>)
    requires
        subs_within(s2, s1),
        subs_within(s1, s0),
    ensures
        subs_within(s2, s0),
{
    assert forall|i: int| 0 <= i < s2.len() implies s0.contains(#[trigger] s2[i]) by {
        assert(s1.contains(s2[i]));
        let j = choose|j: int| 0 <= j < s1.len() && s1[j] == s2[i];
        assert(s0.contains(s1[j]));
    }
}

/// Subscribing keeps every pattern the one its text denotes.
pub proof fn lemma_subscribed_parsed(s: Seq<SubView>, text: Seq<char>, id: u64)
    requires
        subscriptions::subs_parsed(s),
    ensures
        subscriptions::subs_parsed(subscribed(s, text, id)),
{
    subscriptions::law_pattern_text_round_trip(text);
    let s1 = subscribed(s, text, id);
    assert forall|i: int| 0 <= i < s1.len() implies (#[trigger] s1[i]).pattern == pattern_of(s1[i].text) by {
        if i < s.len() {
            assert(s1[i] == s[i]);
        }
    }
}

/// Once mailbox `id` is subscribed to `text` (anew or again), every topic
/// the pattern matches reaches it.
pub proof fn law_subscribed_reaches(s: Seq<SubView>, text: Seq<char>, id: u64, t: Seq<Seq<char>>)
    requires
        subscriptions::subs_parsed(s),
        crate::pattern::matches_spec(pattern_of(text), t),
    ensures
        targets(subscribed(s, text, id), t).contains(id),
        subscriptions::subs_parsed(subscribed(s, text, id)),
{
    let key = pattern_text_spec(pattern_of(text));
    subscriptions::law_pattern_text_round_trip(text);
    if has_sub(s, id, key) {
        let i = choose|i: int| 0 <= i < s.len() && (#[trigger] s[i]).inbox == id && s[i].text == key;
        assert(s[i].pattern == pattern_of(text));
        subscriptions::lemma_matching_sub_targeted(s, t, i);
    } else {
        law_subscribed_is_target(s, text, id, t);
        let s1 = subscribed(s, text, id);
        assert forall|i: int| 0 <= i < s1.len() implies (#[trigger] s1[i]).pattern == pattern_of(s1[i].text) by {
            if i < s.len() {
                assert(s1[i] == s[i]);
            }
        }
    }
}

/// `b1` is `b0` after noting `actor` as the reader of mailbox `h`: that
/// mailbox keeps its envelopes, capacity and closed flag and gets `actor`
/// as reader unless it had one; no other mailbox changes.
pub open spec fn reader_noted(b0: Seq<Inbox>, b1: Seq<Inbox>, h: u64, actor: Seq<char>) -> bool {
    if h >= b0.len() {
        b1 == b0
    } else {
        exists|b: Inbox|
            #![trigger b0.update(h as int, b)]
            b1 == b0.update(h as int, b) && b.reader_view() == match b0[h as int].reader_view() {
                Some(r) => Some(r),
                None => Some(actor),
            } && b.queued() == b0[h as int].queued() && b.cap() == b0[h as int].cap() && b.closed_flag()
                == b0[h as int].closed_flag()
    }
}

/// Each target occurs once.
pub proof fn lemma_targets_unique(v: Seq<SubView>, t: Seq<Seq<char>>)
    ensures
        targets(v, t).no_duplicates(),
    decreases v.len(),
{
    if v.len() > 0 {
        lemma_targets_unique(v.drop_last(), t);
        let init = targets(v.drop_last(), t);
        let e = v.last();
        if crate::pattern::matches_spec(e.pattern, t) && !init.contains(e.inbox) {
            assert forall|i: int, j: int|
                0 <= i < j < init.push(e.inbox).len() implies init.push(e.inbox)[i] != init.push(
                e.inbox,
            )[j] by {
                if j == init.len() {
                    assert(init[i] == init.push(e.inbox)[i]);
                }
            }
        }
    }
}

impl Bus {
    /// The subscriptions, oldest first.
    pub closed spec fn subs(&self) -> Seq<SubView> {
        self.subs.view()
    }

    /// The mailboxes, by number.
    pub closed spec fn boxes(&self) -> Seq<Inbox> {
        self.boxes@
    }

    /// Subscriptions are unique and every mailbox is well formed.
    pub open spec fn wf(&self) -> bool {
        &&& subscriptions::subs_unique(self.subs())
        &&& subscriptions::subs_parsed(self.subs())
        &&& forall|i: int| 0 <= i < self.boxes().len() ==> (#[trigger] self.boxes()[i]).wf()
    }

    /// A bus with no mailboxes and no subscriptions.
    pub fn new() -> (b: Bus)
        ensures
            b.subs() == Seq::<SubView>::empty(),
            b.boxes() == Seq::<Inbox>::empty(),
            b.wf(),
    {
        Bus { subs: Subscriptions::new(), boxes: Vec::new() }
    }

    /// Hands `inbox` to the bus; the handle names it from now on.
    pub fn attach(&mut self, inbox: Inbox) -> (h: InboxHandle)
        ensures
            h@ == old(self).boxes().len(),
            final(self).boxes() == old(self).boxes().push(inbox),
            final(self).subs() == old(self).subs(),
            old(self).wf() && inbox.wf() ==> final(self).wf(),
    {
        let id = self.boxes.len() as u64;
        let ghost before = self.boxes@;
        self.boxes.push(inbox);
        assert(self.boxes@ == before.push(inbox));
        proof {
            if old(self).wf() && inbox.wf() {
                assert forall|i: int| 0 <= i < self.boxes().len() implies (#[trigger] self.boxes()[i]).wf() by {
                    if i < before.len() {
                        assert(self.boxes()[i] == before[i]);
                        assert(old(self).boxes()[i] == before[i]);
                    }
                }
            }
        }
        InboxHandle { id }
    }

    /// Subscribes mailbox `inbox` to the pattern text `pattern`.
    pub fn subscribe(&mut self, pattern: &str, inbox: &InboxHandle) -> (r: Result<(), Error>)
        ensures
            r is Ok <==> valid_pattern(pattern@),
            r matches Err(e) ==> e matches Error::InvalidTopic(m) && pattern_error_msg(pattern@, m@),
            final(self).boxes() == old(self).boxes(),
            final(self).subs() == if r is Ok {
                subscribed(old(self).subs(), pattern@, inbox@)
            } else {
                old(self).subs()
            },
            old(self).wf() ==> final(self).wf(),
    {
        match parse_pattern(pattern) {
            Err(e) => Err(e.into_error()),
            Ok(p) => {
                self.subs.subscribe(&p, inbox.id);
                proof {
                    if old(self).wf() {
                        lemma_subscribed_parsed(old(self).subs(), pattern@, inbox@);
                    }
                }
                Ok(())
            },
        }
    }

    /// Removes the subscription of `inbox` to `pattern`; `Ok(false)` when there was none.
    pub fn unsubscribe(&mut self, pattern: &str, inbox: &InboxHandle) -> (r: Result<bool, Error>)
        ensures
            r is Ok <==> valid_pattern(pattern@),
            r matches Err(e) ==> e matches Error::InvalidTopic(m) && pattern_error_msg(pattern@, m@),
            r matches Ok(b) ==> b == has_sub(
                old(self).subs(),
                inbox@,
                pattern_text_spec(pattern_of(pattern@)),
            ),
            final(self).subs() == unsubscribed(old(self).subs(), pattern@, inbox@),
            final(self).boxes() == old(self).boxes(),
            old(self).wf() ==> final(self).wf(),
            old(self).wf() && r is Ok ==> !has_sub(
                final(self).subs(),
                inbox@,
                pattern_text_spec(pattern_of(pattern@)),
            ),
    {
        match parse_pattern(pattern) {
            Err(e) => Err(e.into_error()),
            Ok(p) => {
                let removed = self.subs.unsubscribe(&p, inbox.id);
                proof {
                    let key = pattern_text_spec(pattern_of(pattern@));
                    if removed {
                        let i = choose|i: int|
                            subscriptions::is_first_sub(old(self).subs(), inbox@, key, i)
                                && self.subs() == old(self).subs().remove(i);
                        let c = choose|c: int| subscriptions::is_first_sub(old(self).subs(), inbox@, key, c);
                        subscriptions::lemma_first_sub_unique(old(self).subs(), inbox@, key, i, c);
                    }
                }
                Ok(removed)
            },
        }
    }

    /// Delivers `e` to every open mailbox whose subscription matches its
    /// topic, each once. When one of them is full nothing is delivered.
    pub fn publish(&mut self, e: &Envelope) -> (r: Result<(), Error>)
        ensures
            final(self).subs() == old(self).subs(),
            publish_outcome(old(self).boxes(), final(self).boxes(), old(self).subs(), e@, r),
            old(self).wf() ==> final(self).wf(),
    {
        let parts = match split_topic(e.header.topic.as_str()) {
            Err(err) => return Err(err.into_error()),
            Ok(p) => p,
        };
        let tg = self.subs.snapshot_match(&parts);
        let ghost boxes0 = self.boxes@;
        let ghost subs0 = self.subs.view();
        let ghost wf0 = old(self).wf();
        assert(tg@ == targets(subs0, split_on(e.header.topic@, '.')));
        proof {
            lemma_targets_unique(self.subs.view(), split_on(e.header.topic@, '.'));
        }
        let n = self.boxes.len();
        let mut k: usize = 0;
        while k < tg.len()
            invariant
                self.boxes@ == boxes0,
                self.subs.view() == subs0,
                valid_topic(e.header.topic@),
                tg@ == targets(subs0, split_on(e.header.topic@, '.')),
                subs0 == old(self).subs(),
                boxes0 == old(self).boxes(),
                n == boxes0.len(),
                k <= tg@.len(),
                forall|j: int| 0 <= j < k ==> !(live(boxes0, #[trigger] tg@[j]) && full(boxes0, tg@[j])),
            decreases tg@.len() - k,
        {
            let id = tg[k];
            if id < n as u64 {
                let b = &self.boxes[id as usize];
                if !b.is_closed() && !b.has_room() {
                    assert(live(boxes0, tg@[k as int]) && full(boxes0, tg@[k as int]));
                    return Err(Error::MailboxFull);
                }
            }
            k = k + 1;
        }
        let mut k: usize = 0;
        while k < tg.len()
            invariant
                n == boxes0.len(),
                self.boxes@.len() == n,
                self.subs.view() == subs0,
                subs0 == old(self).subs(),
                boxes0 == old(self).boxes(),
                wf0 == old(self).wf(),
                wf0 ==> subscriptions::subs_unique(subs0),
                wf0 ==> forall|i: int| 0 <= i < n ==> (#[trigger] boxes0[i]).wf(),
                k <= tg@.len(),
                tg@.no_duplicates(),
                !blocked(boxes0, tg@),
                forall|i: int|
                    0 <= i < n ==> {
                        &&& (#[trigger] self.boxes@[i]).queued() == if tg@.take(k as int).contains(
                            i as u64,
                        ) && live(boxes0, i as u64) {
                            boxes0[i].queued().push(e@)
                        } else {
                            boxes0[i].queued()
                        }
                        &&& self.boxes@[i].cap() == boxes0[i].cap()
                        &&& self.boxes@[i].closed_flag() == boxes0[i].closed_flag()
                        &&& self.boxes@[i].reader_view() == boxes0[i].reader_view()
                        &&& boxes0[i].wf() ==> self.boxes@[i].wf()
                    },
            decreases tg@.len() - k,
        {
            let id = tg[k];
            let ghost prev = self.boxes@;
            if id < n as u64 {
                let idx = id as usize;
                proof {
                    if tg@.take(k as int).contains(id) {
                        let j = choose|j: int| 0 <= j < k && tg@.take(k as int)[j] == id;
                        assert(tg@[j] == tg@[k as int]);
                    }
                    assert(!tg@.take(k as int).contains(id));
                    if live(boxes0, id) {
                        assert(!full(boxes0, tg@[k as int]));
                    }
                }
                let copy = e.clone();
                let _ = self.boxes[idx].try_enqueue(copy);
            }
            proof {
                assert(tg@.take(k + 1) =~= tg@.take(k as int).push(id));
                assert forall|i: int| 0 <= i < n implies #[trigger] tg@.take(k + 1).contains(i as u64) == (
                tg@.take(k as int).contains(i as u64) || i as u64 == id) by {
                    if tg@.take(k as int).contains(i as u64) {
                        let j = choose|j: int| 0 <= j < k && tg@.take(k as int)[j] == i as u64;
                        assert(tg@.take(k + 1)[j] == i as u64);
                    }
                    if i as u64 == id {
                        assert(tg@.take(k + 1)[k as int] == id);
                    }
                }
            }
            k = k + 1;
        }
        assert(tg@.take(tg@.len() as int) =~= tg@);
        Ok(())
    }

    /// The mailbox `h` names, if it belongs to this bus.
    pub fn inbox(&self, h: &InboxHandle) -> (r: Option<&Inbox>)
        ensures
            match r {
                Some(b) => h@ < self.boxes().len() && *b == self.boxes()[h@ as int],
                None => h@ >= self.boxes().len(),
            },
    {
        if h.id < self.boxes.len() as u64 {
            Some(&self.boxes[h.id as usize])
        } else {
            None
        }
    }

    /// Takes the oldest envelope of mailbox `h`.
    pub fn try_recv(&mut self, h: &InboxHandle) -> (r: Option<Envelope>)
        ensures
            final(self).subs() == old(self).subs(),
            h@ >= old(self).boxes().len() ==> r is None && final(self).boxes() == old(self).boxes(),
            h@ < old(self).boxes().len() ==> {
                let b0 = old(self).boxes()[h@ as int];
                let b1 = final(self).boxes()[h@ as int];
                &&& final(self).boxes() == old(self).boxes().update(h@ as int, b1)
                &&& match r {
                    Some(x) => b0.queued().len() > 0 && x@ == b0.queued()[0] && b1.queued()
                        == b0.queued().drop_first() && x == b0.envelopes()[0],
                    None => b0.queued().len() == 0 && b1.queued() == b0.queued(),
                }
                &&& b1.cap() == b0.cap()
                &&& b1.closed_flag() == b0.closed_flag()
                &&& b1.reader_view() == b0.reader_view()
            },
            old(self).wf() ==> final(self).wf(),
    {
        if h.id < self.boxes.len() as u64 {
            let ghost before = self.boxes@;
            let r = self.boxes[h.id as usize].try_recv();
            assert(self.boxes@ =~= before.update(h@ as int, self.boxes@[h@ as int]));
            r
        } else {
            None
        }
    }

    /// Appends `e` to mailbox `h` unless it is closed, full or unknown.
    pub fn try_enqueue(&mut self, h: &InboxHandle, e: Envelope) -> (ok: bool)
        ensures
            final(self).subs() == old(self).subs(),
            h@ >= old(self).boxes().len() ==> !ok && final(self).boxes() == old(self).boxes(),
            h@ < old(self).boxes().len() ==> {
                let b0 = old(self).boxes()[h@ as int];
                let b1 = final(self).boxes()[h@ as int];
                &&& final(self).boxes() == old(self).boxes().update(h@ as int, b1)
                &&& ok == (!b0.closed_flag() && b0.queued().len() < b0.cap())
                &&& b1.queued() == if ok {
                    b0.queued().push(e@)
                } else {
                    b0.queued()
                }
                &&& b1.cap() == b0.cap()
                &&& b1.closed_flag() == b0.closed_flag()
                &&& b1.reader_view() == b0.reader_view()
            },
            old(self).wf() ==> final(self).wf(),
    {
        if h.id < self.boxes.len() as u64 {
            let ghost before = self.boxes@;
            let ok = self.boxes[h.id as usize].try_enqueue(e);
            assert(self.boxes@ =~= before.update(h@ as int, self.boxes@[h@ as int]));
            ok
        } else {
            false
        }
    }

    /// Closes mailbox `h`, dropping what it holds.
    pub fn close(&mut self, h: &InboxHandle)
        ensures
            final(self).subs() == old(self).subs(),
            h@ >= old(self).boxes().len() ==> final(self).boxes() == old(self).boxes(),
            h@ < old(self).boxes().len() ==> {
                let b0 = old(self).boxes()[h@ as int];
                let b1 = final(self).boxes()[h@ as int];
                &&& final(self).boxes() == old(self).boxes().update(h@ as int, b1)
                &&& b1.closed_flag()
                &&& b1.queued() == Seq::<EnvelopeView>::empty()
                &&& b1.cap() == b0.cap()
                &&& b1.reader_view() == b0.reader_view()
            },
            old(self).wf() ==> final(self).wf(),
    {
        if h.id < self.boxes.len() as u64 {
            let ghost before = self.boxes@;
            self.boxes[h.id as usize].close();
            assert(self.boxes@ =~= before.update(h@ as int, self.boxes@[h@ as int]));
        }
    }

    /// Notes `actor` as the reader of mailbox `h` unless one is noted already.
    pub fn note_reader(&mut self, h: &InboxHandle, actor: crate::envelope::ActorId)
        ensures
            final(self).subs() == old(self).subs(),
            h@ >= old(self).boxes().len() ==> final(self).boxes() == old(self).boxes(),
            h@ < old(self).boxes().len() ==> {
                let b0 = old(self).boxes()[h@ as int];
                let b1 = final(self).boxes()[h@ as int];
                &&& final(self).boxes() == old(self).boxes().update(h@ as int, b1)
                &&& b1.reader_view() == match b0.reader_view() {
                    Some(r) => Some(r),
                    None => Some(actor@),
                }
                &&& b1.queued() == b0.queued()
                &&& b1.cap() == b0.cap()
                &&& b1.closed_flag() == b0.closed_flag()
            },
            reader_noted(old(self).boxes(), final(self).boxes(), h@, actor@),
            old(self).wf() ==> final(self).wf(),
    {
        if h.id < self.boxes.len() as u64 {
            let ghost before = self.boxes@;
            self.boxes[h.id as usize].note_reader(actor);
            assert(self.boxes@ =~= before.update(h@ as int, self.boxes@[h@ as int]));
        }
    }
}

} // verus!
