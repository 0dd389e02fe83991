//! Recognising the result of a request by its shape and topic.

use crate::envelope::topic::topic_suffix;
use crate::envelope::Envelope;
use crate::idgen::IdGen;
use crate::result::body::{result_body, result_request_id, spec_request_id, spec_result_body};
use crate::text::split_on;
use vstd::prelude::*;

verus! {

/// The envelope carries a request id and a result body, and its topic ends
/// with `segment` (the topic segment of that request id).
pub open spec fn looks_like_spec(env: Envelope, segment: Result<String, crate::Error>) -> bool {
    &&& spec_request_id(env) is Some
    &&& spec_result_body(env) is Some
    &&& segment matches Ok(s) && env.header.topic@.len() > 0 && split_on(env.header.topic@, '.').last()
        == s@
}

/// `looks_like_result_envelope` once the segment of the request id is known.
pub fn looks_like_result_with(env: &Envelope, segment: &Result<String, crate::Error>) -> (r: bool)
    ensures
        r == looks_like_spec(*env, *segment),
{
    if result_request_id(env).is_none() {
        return false;
    }
    if result_body(env).is_none() {
        return false;
    }
    let seg = match segment {
        Ok(s) => s,
        Err(_) => return false,
    };
    match topic_suffix(env.header.topic.as_str()) {
        Ok(suffix) => crate::text::str_eq(suffix, seg.as_str()),
        Err(_) => false,
    }
}

/// Whether `env` is the result of a request: it names a request id, carries
/// a result body, and its topic ends with the segment `gen` gives that id.
pub fn looks_like_result_envelope<G: IdGen + ?Sized>(env: &Envelope, gen: &G) -> (r: bool)
    ensures
        r ==> spec_request_id(*env) is Some && spec_result_body(*env) is Some,
{
    let request_id = match result_request_id(env) {
        Some(id) => id,
        None => return false,
    };
    if result_body(env).is_none() {
        return false;
    }
    let seg = gen.topic_segment(&request_id);
    looks_like_result_with(env, &seg)
}

} // verus!
