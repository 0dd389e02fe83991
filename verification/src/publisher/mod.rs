//! A publish-only actor: it has no mailbox.

use crate::bus::{publish_outcome, Bus};
use crate::envelope::id::ActorId;
use crate::envelope::Envelope;
use vstd::prelude::*;

verus! {

/// An actor that only sends.
#[derive(Debug)]
pub struct Publisher {
    pub actor_id: ActorId,
}

impl Publisher {
    /// A publisher acting as `actor_id`.
    pub fn new(actor_id: ActorId) -> (p: Publisher)
        ensures
            p.actor_id == actor_id,
    {
        Publisher { actor_id }
    }

    /// Publishes `envelope` on `bus`.
    pub fn publish(&self, bus: &mut Bus, envelope: &Envelope) -> (r: crate::Result<()>)
        ensures
            final(bus).subs() == old(bus).subs(),
            publish_outcome(old(bus).boxes(), final(bus).boxes(), old(bus).subs(), envelope@, r),
            old(bus).wf() ==> final(bus).wf(),
    {
        bus.publish(envelope)
    }
}

} // verus!
