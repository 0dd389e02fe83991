//! The result topic of a request: the result prefix and the request id's segment.

use crate::envelope::id::EnvelopeId;
use crate::idgen::IdGen;
use vstd::prelude::*;

verus! {

/// `result_prefix.segment`, the topic a request's result travels on.
pub fn result_topic_from(result_prefix: &str, segment: &str) -> (r: String)
    ensures
        r@ == result_prefix@.push('.') + segment@,
{
    crate::text::join2(result_prefix, '.', segment)
}

/// The result topic for `request_id`, with the segment `gen` gives it.
pub fn result_topic_of<G: IdGen + ?Sized>(request_id: &EnvelopeId, result_prefix: &str, gen: &G) -> (r: Result<
    String,
    crate::Error,
>)
    ensures
        r matches Ok(t) ==> exists|seg: Seq<char>| t@ == result_prefix@.push('.') + seg,
{
    match gen.topic_segment(request_id) {
        Err(e) => Err(e),
        Ok(seg) => Ok(result_topic_from(result_prefix, seg.as_str())),
    }
}

} // verus!
