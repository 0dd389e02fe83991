//! The four-way check that an envelope answers a registered request:
//! request id, topic suffix, expected topic and cause all agree, and the
//! payload carries a result body.

use crate::envelope::id::EnvelopeId;
use crate::envelope::topic::topic_suffix;
use crate::envelope::Envelope;
use crate::idgen::IdGen;
use crate::result::body::{result_body, result_request_id, spec_request_id, spec_result_body};
use crate::text::split_on;
use vstd::prelude::*;

verus! {

/// The lifecycle of a registered request.
#[derive(Debug, Clone, Copy, PartialEq, Eq, Structural)]
pub enum State {
    Pending,
    Resolved,
    TimedOut,
    Failed,
}

/// What the registry holds for one request.
#[derive(Debug)]
pub struct Entry {
    pub expected_topic: String,
    pub cause: EnvelopeId,
    pub state: State,
}

/// The mathematical content of an entry.
pub struct EntryView {
    pub expected_topic: Seq<char>,
    pub cause: Seq<char>,
    pub state: State,
}

impl View for Entry {
    type V = EntryView;

    open spec fn view(&self) -> EntryView {
        EntryView { expected_topic: self.expected_topic@, cause: self.cause@, state: self.state }
    }
}

impl Clone for Entry {
    fn clone(&self) -> (r: Self)
        ensures
            r@ == self@,
    {
        Entry { expected_topic: self.expected_topic.clone(), cause: self.cause.clone(), state: self.state }
    }
}

/// `env` answers request `rid` registered as `e`, given the segment `seg`
/// of `rid`.
pub open spec fn quad_spec(
    rid: Seq<char>,
    e: EntryView,
    env: Envelope,
    seg: Result<String, crate::Error>,
) -> bool {
    &&& spec_request_id(env) == Some(rid)
    &&& seg matches Ok(s) && env.header.topic@.len() > 0 && split_on(env.header.topic@, '.').last()
        == s@
    &&& env.header.topic@ == e.expected_topic
    &&& env.header.cause@ == e.cause
    &&& spec_result_body(env) is Some
}

/// The four-way check once the segment of `request_id` is known.
pub fn quad_ok_with(
    request_id: &EnvelopeId,
    entry: &Entry,
    env: &Envelope,
    seg: &Result<String, crate::Error>,
) -> (r: bool)
    ensures
        r == quad_spec(request_id@, entry@, *env, *seg),
{
    match result_request_id(env) {
        Some(id) => {
            if !id.same(request_id) {
                return false;
            }
        },
        None => return false,
    }
    let s = match seg {
        Ok(s) => s,
        Err(_) => return false,
    };
    let suffix = match topic_suffix(env.header.topic.as_str()) {
        Ok(x) => x,
        Err(_) => return false,
    };
    crate::text::str_eq(suffix, s.as_str()) && env.header.topic == entry.expected_topic
        && env.header.cause.same(&entry.cause) && result_body(env).is_some()
}

/// Whether `env` answers request `request_id` registered as `entry`, with
/// the segment that `gen` gives the request id.
pub fn quad_ok<G: IdGen + ?Sized>(request_id: &EnvelopeId, entry: &Entry, env: &Envelope, gen: &G) -> (r: bool)
    ensures
        r ==> spec_request_id(*env) == Some(request_id@) && env.header.topic@ == entry@.expected_topic
            && env.header.cause@ == entry@.cause && spec_result_body(*env) is Some,
{
    match result_request_id(env) {
        Some(id) => {
            if !id.same(request_id) {
                return false;
            }
        },
        None => return false,
    }
    let seg = gen.topic_segment(request_id);
    quad_ok_with(request_id, entry, env, &seg)
}

} // verus!
