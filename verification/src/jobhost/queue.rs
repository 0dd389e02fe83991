//! The bounded queue of business envelopes waiting to become jobs.

use crate::envelope::{Envelope, EnvelopeView};
use crate::inbox::envelopes_view;
use crate::Error;
use std::collections::VecDeque;
use vstd::prelude::*;

verus! {

/// How many envelopes a host queues unless told otherwise.
pub const DEFAULT_QUEUE_LIMIT: usize = 512;

/// A first-in first-out queue holding at most `limit` envelopes.
#[derive(Debug)]
pub struct EnvelopeQueue {
    limit: usize,
    items: VecDeque<Envelope>,
}

impl EnvelopeQueue {
    /// The queued envelopes, oldest first.
    pub closed spec fn queued(&self) -> Seq<EnvelopeView> {
        envelopes_view(self.items@)
    }

    /// The most envelopes the queue holds.
    pub closed spec fn cap(&self) -> nat {
        self.limit as nat
    }

    /// An empty queue holding at most `limit` envelopes.
    pub fn new(limit: usize) -> (q: EnvelopeQueue)
        requires
            limit >= 1,
        ensures
            q.queued() == Seq::<EnvelopeView>::empty(),
            q.cap() == limit,
    {
        let q = EnvelopeQueue { limit, items: VecDeque::new() };
        assert(q.queued() =~= Seq::<EnvelopeView>::empty());
        q
    }

    /// Whether nothing is queued.
    pub fn is_empty(&self) -> (r: bool)
        ensures
            r == (self.queued().len() == 0),
    {
        self.items.len() == 0
    }

    /// Whether the queue is full.
    pub fn at_limit(&self) -> (r: bool)
        ensures
            r == (self.queued().len() >= self.cap()),
    {
        self.items.len() >= self.limit
    }

    /// Appends `e`, or fails with `QueueFull` when the queue is full.
    pub fn offer(&mut self, e: Envelope) -> (r: Result<(), Error>)
        ensures
            final(self).cap() == old(self).cap(),
            old(self).queued().len() >= old(self).cap() ==> r == Err::<(), Error>(Error::QueueFull)
                && final(self).queued() == old(self).queued(),
            old(self).queued().len() < old(self).cap() ==> r is Ok && final(self).queued() == old(
                self,
            ).queued().push(e@),
    {
        if self.at_limit() {
            return Err(Error::QueueFull);
        }
        let ghost before = self.items@;
        let ghost ev = e@;
        self.items.push_back(e);
        assert(envelopes_view(self.items@) =~= envelopes_view(before).push(ev));
        Ok(())
    }

    /// Takes the oldest envelope; the queue must not be empty.
    pub fn popleft(&mut self) -> (e: Envelope)
        requires
            old(self).queued().len() > 0,
        ensures
            e@ == old(self).queued()[0],
            final(self).queued() == old(self).queued().drop_first(),
            final(self).cap() == old(self).cap(),
    {
        let ghost before = self.items@;
        let e = self.items.pop_front().unwrap();
        assert(envelopes_view(self.items@) =~= envelopes_view(before).drop_first());
        e
    }
}

} // verus!
