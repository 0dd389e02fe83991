//! Envelopes: a four-fact header (id, topic, sender, cause) and a payload.

pub mod error;
pub mod id;
pub mod topic;
pub mod value;

pub use error::EnvelopeBuildError;
pub use id::{topic_segment, ActorId, EnvelopeId};
pub use topic::{is_name, split_topic, topic_suffix};
pub use value::Value;

use crate::idgen::IdGen;
use crate::text::split_on;
use topic::{topic_error_msg, valid_topic};
use value::{clone_value, deep, value_eq, ValueView};
use vstd::prelude::*;

verus! {

/// The four facts every envelope carries.
#[derive(Debug, PartialEq, Eq, Default)]
pub struct Header {
    pub id: EnvelopeId,
    pub topic: String,
    pub from: ActorId,
    pub cause: EnvelopeId,
}

/// A header and a payload.
#[derive(Debug, PartialEq, Default)]
pub struct Envelope {
    pub header: Header,
    pub payload: Value,
}

/// The mathematical content of a header.
pub struct HeaderView {
    pub id: Seq<char>,
    pub topic: Seq<char>,
    pub from: Seq<char>,
    pub cause: Seq<char>,
}

/// The mathematical content of an envelope.
pub struct EnvelopeView {
    pub header: HeaderView,
    pub payload: ValueView,
}

impl View for Header {
    type V = HeaderView;

    open spec fn view(&self) -> HeaderView {
        HeaderView { id: self.id@, topic: self.topic@, from: self.from@, cause: self.cause@ }
    }
}

impl View for Envelope {
    type V = EnvelopeView;

    open spec fn view(&self) -> EnvelopeView {
        EnvelopeView { header: self.header@, payload: deep(self.payload) }
    }
}

impl Clone for Header {
    fn clone(&self) -> (r: Self)
        ensures
            r@ == self@,
    {
        Header {
            id: self.id.clone(),
            topic: self.topic.clone(),
            from: self.from.clone(),
            cause: self.cause.clone(),
        }
    }
}

impl Clone for Envelope {
    fn clone(&self) -> (r: Self)
        ensures
            r@ == self@,
    {
        Envelope { header: self.header.clone(), payload: clone_value(&self.payload) }
    }
}

/// Whether two envelopes have the same view.
pub fn envelope_eq(a: &Envelope, b: &Envelope) -> (r: bool)
    ensures
        r == (a@ == b@),
{
    a.header.id.0 == b.header.id.0 && a.header.topic == b.header.topic && a.header.from.0
        == b.header.from.0 && a.header.cause.0 == b.header.cause.0 && value_eq(
        &a.payload,
        &b.payload,
    )
}

/// How `make_envelope` picks the id and the cause.
#[derive(Default)]
pub struct MakeOptions<'a> {
    pub cause: Option<EnvelopeId>,
    pub id: Option<EnvelopeId>,
    pub id_gen: Option<&'a mut dyn IdGen>,
}

/// The envelope made from these parts once the id is fixed: the cause
/// defaults to the id (a root envelope).
pub open spec fn built(
    topic: Seq<char>,
    payload: ValueView,
    from: Seq<char>,
    cause: Option<Seq<char>>,
    id: Seq<char>,
) -> EnvelopeView {
    EnvelopeView {
        header: HeaderView {
            id,
            topic,
            from,
            cause: match cause {
                Some(c) => c,
                None => id,
            },
        },
        payload,
    }
}

/// The view of an optional id.
pub open spec fn opt_view(o: Option<EnvelopeId>) -> Option<Seq<char>> {
    match o {
        Some(x) => Some(x@),
        None => None,
    }
}

/// Builds an envelope once its id is known.
pub fn build_envelope(
    topic: &str,
    payload: Value,
    from: ActorId,
    cause: Option<EnvelopeId>,
    id: EnvelopeId,
) -> (r: Result<Envelope, EnvelopeBuildError>)
    ensures
        r is Ok <==> valid_topic(topic@),
        r matches Ok(e) ==> e@ == built(topic@, deep(payload), from@, opt_view(cause), id@),
        r matches Err(e) ==> topic_error_msg(topic@, e.0@),
{
    match split_topic(topic) {
        Err(e) => Err(e),
        Ok(_) => {
            let c = match cause {
                Some(c) => c,
                None => id.clone(),
            };
            Ok(
                Envelope {
                    header: Header { id, topic: crate::text::to_string(topic), from, cause: c },
                    payload,
                },
            )
        },
    }
}

/// Makes an envelope on a checked topic. The id is `opts.id`, else one drawn
/// from `opts.id_gen`; the cause is `opts.cause`, else the id itself.
pub fn make_envelope(topic: &str, payload: Value, from: ActorId, opts: MakeOptions<'_>) -> (r:
    Result<Envelope, EnvelopeBuildError>)
    ensures
        r is Ok <==> valid_topic(topic@) && (opts.id is Some || opts.id_gen is Some),
        r matches Ok(e) ==> {
            &&& e.header@.topic == topic@
            &&& e.header@.from == from@
            &&& e@.payload == deep(payload)
            &&& opts.id matches Some(i) ==> e.header.id@ == i@
            &&& e.header.cause@ == match opts.cause {
                Some(c) => c@,
                None => e.header.id@,
            }
        },
        r matches Err(e) ==> if !valid_topic(topic@) {
            topic_error_msg(topic@, e.0@)
        } else {
            e.0@ == "make_envelope requires id or id_gen"@
        },
{
    if let Err(e) = split_topic(topic) {
        return Err(e);
    }
    let eid = match opts.id {
        Some(id) => id,
        None => match opts.id_gen {
            Some(gen) => gen.next_envelope_id(),
            None => {
                return Err(
                    EnvelopeBuildError(crate::text::to_string("make_envelope requires id or id_gen")),
                );
            },
        },
    };
    build_envelope(topic, payload, from, opts.cause, eid)
}

/// `make_envelope` with an explicit generator for the id.
pub fn make_envelope_with(
    topic: &str,
    payload: Value,
    from: ActorId,
    cause: Option<EnvelopeId>,
    id: Option<EnvelopeId>,
    gen: &mut dyn IdGen,
) -> (r: Result<Envelope, EnvelopeBuildError>)
    ensures
        r is Ok <==> valid_topic(topic@),
        r matches Ok(e) ==> {
            &&& e.header@.topic == topic@
            &&& e.header@.from == from@
            &&& e@.payload == deep(payload)
            &&& id matches Some(i) ==> e.header.id@ == i@
            &&& e.header.cause@ == match cause {
                Some(c) => c@,
                None => e.header.id@,
            }
        },
        r matches Err(e) ==> topic_error_msg(topic@, e.0@),
{
    if let Err(e) = split_topic(topic) {
        return Err(e);
    }
    let eid = match id {
        Some(i) => i,
        None => gen.next_envelope_id(),
    };
    build_envelope(topic, payload, from, cause, eid)
}

} // verus!
