//! A bounded mailbox of envelopes, read in arrival order by one actor.

use crate::envelope::id::ActorId;
use crate::envelope::{envelope_eq, Envelope, EnvelopeView};
use std::collections::VecDeque;
use vstd::prelude::*;

verus! {

/// A bounded FIFO of envelopes. Closing drops what is queued and refuses
/// everything afterwards.
#[derive(Debug)]
pub struct Inbox {
    capacity: usize,
    items: VecDeque<Envelope>,
    closed: bool,
    reader: Option<ActorId>,
}

/// The views of a sequence of envelopes.
pub open spec fn envelopes_view(s: Seq<Envelope>) -> Seq<EnvelopeView> {
    s.map_values(|e: Envelope| e@)
}

impl Inbox {
    /// Never more than the capacity, nothing queued once closed.
    pub closed spec fn wf(&self) -> bool {
        &&& self.capacity >= 1
        &&& self.items@.len() <= self.capacity
        &&& self.closed ==> self.items@.len() == 0
    }

    /// The envelopes waiting, oldest first.
    pub closed spec fn queued(&self) -> Seq<EnvelopeView> {
        envelopes_view(self.items@)
    }

    /// The queued envelopes themselves, oldest first.
    pub closed spec fn envelopes(&self) -> Seq<Envelope> {
        self.items@
    }

    /// How many envelopes fit at once.
    pub closed spec fn cap(&self) -> nat {
        self.capacity as nat
    }

    /// Whether the mailbox has been closed.
    pub closed spec fn closed_flag(&self) -> bool {
        self.closed
    }

    /// The actor first noted as the reader, if any.
    pub closed spec fn reader_view(&self) -> Option<Seq<char>> {
        match self.reader {
            Some(a) => Some(a@),
            None => None,
        }
    }

    /// An open, empty mailbox holding at most `capacity` envelopes.
    pub fn new(capacity: usize) -> (b: Inbox)
        requires
            capacity >= 1,
        ensures
            b.cap() == capacity,
            b.queued() == Seq::<EnvelopeView>::empty(),
            !b.closed_flag(),
            b.reader_view() is None,
            b.wf(),
    {
        let b = Inbox { capacity, items: VecDeque::new(), closed: false, reader: None };
        assert(b.queued() =~= Seq::<EnvelopeView>::empty());
        b
    }

    /// Whether the mailbox has been closed.
    pub fn is_closed(&self) -> (r: bool)
        ensures
            r == self.closed_flag(),
    {
        self.closed
    }

    /// Records `actor` as the reader unless one is already noted (a soft
    /// constraint: a second reader is not refused).
    pub fn note_reader(&mut self, actor: ActorId)
        ensures
            final(self).reader_view() == match old(self).reader_view() {
                Some(r) => Some(r),
                None => Some(actor@),
            },
            final(self).queued() == old(self).queued(),
            final(self).cap() == old(self).cap(),
            final(self).closed_flag() == old(self).closed_flag(),
            old(self).wf() ==> final(self).wf(),
    {
        if self.reader.is_none() {
            self.reader = Some(actor);
        }
    }

    /// Free places: none once closed.
    fn remaining(&self) -> (r: usize)
        ensures
            r == if self.closed_flag() || self.queued().len() >= self.cap() {
                0
            } else {
                (self.cap() - self.queued().len()) as nat
            },
    {
        if self.closed || self.items.len() >= self.capacity {
            0
        } else {
            self.capacity - self.items.len()
        }
    }

    /// Whether nothing is queued.
    pub fn is_empty(&self) -> (r: bool)
        ensures
            r == (self.queued().len() == 0),
    {
        self.items.len() == 0
    }

    /// Appends `e` unless the mailbox is closed or full.
    pub fn try_enqueue(&mut self, e: Envelope) -> (ok: bool)
        ensures
            ok == (!old(self).closed_flag() && old(self).queued().len() < old(self).cap()),
            final(self).queued() == if ok {
                old(self).queued().push(e@)
            } else {
                old(self).queued()
            },
            final(self).cap() == old(self).cap(),
            final(self).closed_flag() == old(self).closed_flag(),
            final(self).reader_view() == old(self).reader_view(),
            old(self).wf() ==> final(self).wf(),
    {
        if self.closed || self.items.len() >= self.capacity {
            return false;
        }
        let ghost before = self.items@;
        self.items.push_back(e);
        assert(envelopes_view(self.items@) =~= envelopes_view(before).push(e@));
        true
    }

    /// Takes the oldest envelope.
    pub fn try_recv(&mut self) -> (r: Option<Envelope>)
        ensures
            match r {
                Some(x) => old(self).queued().len() > 0 && x@ == old(self).queued()[0]
                    && final(self).queued() == old(self).queued().drop_first() && x == old(self).envelopes()[0],
                None => old(self).queued().len() == 0 && final(self).queued() == old(self).queued(),
            },
            final(self).cap() == old(self).cap(),
            final(self).closed_flag() == old(self).closed_flag(),
            final(self).reader_view() == old(self).reader_view(),
            old(self).wf() ==> final(self).wf(),
    {
        let ghost before = self.items@;
        let r = self.items.pop_front();
        proof {
            if r is Some {
                assert(envelopes_view(self.items@) =~= envelopes_view(before).drop_first());
            }
        }
        r
    }

    /// Removes the newest envelope if it equals `e`.
    pub fn try_drop_last(&mut self, e: &Envelope) -> (dropped: bool)
        ensures
            dropped == (old(self).queued().len() > 0 && old(self).queued().last() == e@),
            final(self).queued() == if dropped {
                old(self).queued().drop_last()
            } else {
                old(self).queued()
            },
            final(self).cap() == old(self).cap(),
            final(self).closed_flag() == old(self).closed_flag(),
            final(self).reader_view() == old(self).reader_view(),
            old(self).wf() ==> final(self).wf(),
    {
        let n = self.items.len();
        if n == 0 {
            return false;
        }
        if !envelope_eq(&self.items[n - 1], e) {
            return false;
        }
        let ghost before = self.items@;
        let _ = self.items.pop_back();
        assert(envelopes_view(self.items@) =~= envelopes_view(before).drop_last());
        true
    }

    /// Whether one more envelope fits.
    pub fn has_room(&self) -> (r: bool)
        ensures
            r == (!self.closed_flag() && self.queued().len() < self.cap()),
    {
        self.remaining() >= 1
    }

    /// Closes the mailbox, dropping what is queued; closing twice is harmless.
    pub fn close(&mut self)
        ensures
            final(self).closed_flag(),
            final(self).queued() == Seq::<EnvelopeView>::empty(),
            final(self).cap() == old(self).cap(),
            final(self).reader_view() == old(self).reader_view(),
            old(self).wf() ==> final(self).wf(),
    {
        if self.closed {
            self.items.clear();
            assert(self.queued() =~= Seq::<EnvelopeView>::empty());
            return;
        }
        self.items.clear();
        self.closed = true;
        assert(self.queued() =~= Seq::<EnvelopeView>::empty());
    }
}

} // verus!
