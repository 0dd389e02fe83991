//! An actor that reads one mailbox and subscribes it to a list of patterns.

use crate::bus::subscriptions::SubView;
use crate::bus::{subscribed, Bus, InboxHandle};
use crate::envelope::id::ActorId;
use crate::envelope::Envelope;
use crate::pattern::{pattern_error_msg, strings_view, valid_pattern};
use crate::Error;
use vstd::prelude::*;

verus! {

/// A reader of `inbox`, subscribed to `patterns` when started.
#[derive(Debug)]
pub struct Subscriber {
    pub actor_id: ActorId,
    pub inbox: InboxHandle,
    pub patterns: Vec<String>,
}

/// The subscriptions after subscribing mailbox `id` to each pattern in turn.
pub open spec fn subscribe_all(s0: Seq<SubView>, pats: Seq<Seq<char>>, id: u64) -> Seq<SubView>
    decreases pats.len(),
{
    if pats.len() == 0 {
        s0
    } else {
        subscribed(subscribe_all(s0, pats.drop_last(), id), pats.last(), id)
    }
}

impl Subscriber {
    /// A subscriber for `inbox`, noted as its reader on `bus`.
    pub fn new(bus: &mut Bus, actor_id: ActorId, inbox: &InboxHandle, patterns: &[&str]) -> (s: Subscriber)
        ensures
            s.actor_id@ == actor_id@,
            s.inbox == *inbox,
            strings_view(s.patterns@) == patterns@.map_values(|p: &str| p@),
            final(bus).subs() == old(bus).subs(),
            inbox@ < old(bus).boxes().len() ==> final(bus).boxes()[inbox@ as int].reader_view() == match old(
                bus,
            ).boxes()[inbox@ as int].reader_view() {
                Some(r) => Some(r),
                None => Some(actor_id@),
            },
            crate::bus::reader_noted(old(bus).boxes(), final(bus).boxes(), inbox@, actor_id@),
            old(bus).wf() ==> final(bus).wf(),
    {
        bus.note_reader(inbox, actor_id.clone());
        let mut pats: Vec<String> = Vec::new();
        let mut i: usize = 0;
        while i < patterns.len()
            invariant
                i <= patterns@.len(),
                strings_view(pats@) == patterns@.map_values(|p: &str| p@).take(i as int),
            decreases patterns@.len() - i,
        {
            let ghost before = strings_view(pats@);
            pats.push(crate::text::to_string(patterns[i]));
            assert(strings_view(pats@) =~= before.push(patterns@[i as int]@));
            assert(patterns@.map_values(|p: &str| p@).take(i + 1) =~= patterns@.map_values(|p: &str| p@).take(i as int).push(patterns@[i as int]@));
            i = i + 1;
        }
        assert(patterns@.map_values(|p: &str| p@).take(patterns@.len() as int) =~= patterns@.map_values(|p: &str| p@));
        Subscriber { actor_id, inbox: *inbox, patterns: pats }
    }

    /// Subscribes the mailbox to every pattern, stopping at the first invalid one.
    pub fn start(&self, bus: &mut Bus) -> (r: crate::Result<()>)
        ensures
            final(bus).boxes() == old(bus).boxes(),
            r is Ok <==> forall|i: int| 0 <= i < self.patterns@.len() ==> valid_pattern(#[trigger] self.patterns@[i]@),
            r is Ok ==> final(bus).subs() == subscribe_all(old(bus).subs(), strings_view(self.patterns@), self.inbox@),
            r matches Err(e) ==> exists|k: int|
                #![trigger self.patterns@[k]]
                0 <= k < self.patterns@.len() && !valid_pattern(self.patterns@[k]@) && (forall|j: int|
                    0 <= j < k ==> valid_pattern(#[trigger] self.patterns@[j]@)) && final(bus).subs()
                    == subscribe_all(old(bus).subs(), strings_view(self.patterns@).take(k), self.inbox@) && (e matches Error::InvalidTopic(m) && pattern_error_msg(self.patterns@[k]@, m@)),
            old(bus).wf() ==> final(bus).wf(),
    {
        let ghost pv = strings_view(self.patterns@);
        let mut i: usize = 0;
        assert(pv.take(0) =~= Seq::<Seq<char>>::empty());
        while i < self.patterns.len()
            invariant
                pv == strings_view(self.patterns@),
                i <= self.patterns@.len(),
                forall|j: int| 0 <= j < i ==> valid_pattern(#[trigger] self.patterns@[j]@),
                bus.boxes() == old(bus).boxes(),
                bus.subs() == subscribe_all(old(bus).subs(), pv.take(i as int), self.inbox@),
                old(bus).wf() ==> bus.wf(),
            decreases self.patterns@.len() - i,
        {
            assert(pv.take(i + 1).drop_last() =~= pv.take(i as int));
            assert(pv[i as int] == self.patterns@[i as int]@);
            match bus.subscribe(self.patterns[i].as_str(), &self.inbox) {
                Err(e) => return Err(e),
                Ok(()) => {},
            }
            i = i + 1;
        }
        assert(pv.take(i as int) =~= pv);
        Ok(())
    }

    /// Takes the oldest envelope of the subscriber's mailbox.
    pub fn try_recv(&self, bus: &mut Bus) -> (r: Option<Envelope>)
        ensures
            final(bus).subs() == old(bus).subs(),
            self.inbox@ >= old(bus).boxes().len() ==> r is None && final(bus).boxes() == old(bus).boxes(),
            self.inbox@ < old(bus).boxes().len() ==> match r {
                Some(x) => old(bus).boxes()[self.inbox@ as int].queued().len() > 0 && x@ == old(
                    bus,
                ).boxes()[self.inbox@ as int].queued()[0] && final(bus).boxes()[self.inbox@ as int].queued()
                    == old(bus).boxes()[self.inbox@ as int].queued().drop_first(),
                None => old(bus).boxes()[self.inbox@ as int].queued().len() == 0,
            },
            old(bus).wf() ==> final(bus).wf(),
    {
        bus.try_recv(&self.inbox)
    }
}

} // verus!
