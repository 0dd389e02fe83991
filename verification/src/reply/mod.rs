//! Answering a request: the result envelope goes to the result topic of the
//! request's id, keeps the request's cause, and carries the request id.

use crate::bus::subscriptions::targets;
use crate::bus::{delivered, publish_outcome, Bus};
use crate::envelope::id::{ActorId, EnvelopeId};
use crate::envelope::topic::{split_topic, topic_error_msg, valid_topic};
use crate::envelope::value::{clone_value, deep, Value, ValueView};
use crate::envelope::{build_envelope, built, Envelope, EnvelopeView};
use crate::idgen::IdGen;
use crate::text::split_on;
use crate::Error;
use vstd::prelude::*;

verus! {

/// The payload of the answer to request `request_id`: `{request_id, result}`.
pub open spec fn reply_payload(request_id: Seq<char>, body: ValueView) -> ValueView {
    ValueView::Object(seq![("request_id"@, ValueView::Str(request_id)), ("result"@, body)])
}

/// The answer envelope once its topic and id are fixed.
pub open spec fn reply_envelope(
    request: Envelope,
    body: Value,
    topic: Seq<char>,
    from: Seq<char>,
    id: Seq<char>,
) -> EnvelopeView {
    built(topic, reply_payload(request.header.id@, deep(body)), from, Some(request.header.cause@), id)
}

/// The answer to `request`, on `prefix.seg` with id `id`, reached every open target.
pub open spec fn reply_delivered(
    b0: Seq<crate::inbox::Inbox>,
    b1: Seq<crate::inbox::Inbox>,
    subs: Seq<crate::bus::subscriptions::SubView>,
    request: Envelope,
    body: Value,
    prefix: Seq<char>,
    from: Seq<char>,
    seg: Seq<char>,
    id: Seq<char>,
) -> bool {
    let t = prefix.push('.') + seg;
    &&& valid_topic(t)
    &&& delivered(b0, b1, targets(subs, split_on(t, '.')), reply_envelope(request, body, t, from, id))
}

/// Publishes the answer to `request` on `topic` with envelope id `id`.
pub fn publish_reply(
    bus: &mut Bus,
    request: &Envelope,
    body: &Value,
    topic: &str,
    from: ActorId,
    id: EnvelopeId,
) -> (r: Result<(), Error>)
    ensures
        final(bus).subs() == old(bus).subs(),
        !valid_topic(topic@) ==> (r matches Err(Error::EnvelopeBuild(m)) && topic_error_msg(topic@, m@))
            && final(bus).boxes() == old(bus).boxes(),
        valid_topic(topic@) ==> publish_outcome(
            old(bus).boxes(),
            final(bus).boxes(),
            old(bus).subs(),
            reply_envelope(*request, *body, topic@, from@, id@),
            r,
        ),
        old(bus).wf() ==> final(bus).wf(),
{
    let mut pairs: Vec<(String, Value)> = Vec::new();
    pairs.push((crate::text::to_string("request_id"), Value::Str(request.header.id.0.clone())));
    pairs.push((crate::text::to_string("result"), clone_value(body)));
    let ghost pv = pairs@;
    assert(pv.len() == 2);
    assert(pv[0].0@ == "request_id"@ && deep(pv[0].1) == ValueView::Str(request.header.id@));
    assert(pv[1].0@ == "result"@ && deep(pv[1].1) == deep(*body));
    let payload = Value::Object(pairs);
    proof {
        let s = deep(payload)->Object_0;
        assert(s.len() == 2);
        assert(s[0] == ("request_id"@, ValueView::Str(request.header.id@)));
        assert(s[1] == ("result"@, deep(*body)));
        assert(s =~= seq![("request_id"@, ValueView::Str(request.header.id@)), ("result"@, deep(*body))]);
    }
    let envelope = match build_envelope(topic, payload, from, Some(request.header.cause.clone()), id) {
        Err(e) => return Err(e.into_error()),
        Ok(e) => e,
    };
    bus.publish(&envelope)
}

/// `reply` once the segment of the request's id is known: a failed segment
/// is returned as it is; otherwise the answer goes to `result_prefix.seg`,
/// with an id drawn from `gen`, unless that topic is invalid or an open
/// target mailbox is full.
pub fn reply_with<G: IdGen + ?Sized>(
    bus: &mut Bus,
    request: &Envelope,
    body: &Value,
    result_prefix: &str,
    from: ActorId,
    segment: Result<String, Error>,
    gen: &mut G,
) -> (r: Result<(), Error>)
    ensures
        final(bus).subs() == old(bus).subs(),
        old(bus).wf() ==> final(bus).wf(),
        match segment {
            Err(e) => r == Err::<(), Error>(e) && final(bus).boxes() == old(bus).boxes(),
            Ok(seg) => {
                let t = result_prefix@.push('.') + seg@;
                if !valid_topic(t) {
                    (r matches Err(Error::EnvelopeBuild(m)) && topic_error_msg(t, m@)) && final(bus).boxes()
                        == old(bus).boxes()
                } else if crate::bus::blocked(old(bus).boxes(), targets(old(bus).subs(), split_on(t, '.'))) {
                    r == Err::<(), Error>(Error::MailboxFull) && final(bus).boxes() == old(bus).boxes()
                } else {
                    r is Ok && exists|id: Seq<char>|
                        #[trigger] reply_delivered(
                            old(bus).boxes(),
                            final(bus).boxes(),
                            old(bus).subs(),
                            *request,
                            *body,
                            result_prefix@,
                            from@,
                            seg@,
                            id,
                        )
                }
            },
        },
{
    let seg = match segment {
        Err(e) => return Err(e),
        Ok(s) => s,
    };
    let topic = crate::registry::topic::result_topic_from(result_prefix, seg.as_str());
    if let Err(e) = split_topic(topic.as_str()) {
        return Err(e.into_error());
    }
    let id = gen.next_envelope_id();
    let ghost idv = id@;
    let r = publish_reply(bus, request, body, topic.as_str(), from, id);
    proof {
        if r is Ok {
            assert(reply_delivered(
                old(bus).boxes(),
                bus.boxes(),
                old(bus).subs(),
                *request,
                *body,
                result_prefix@,
                from@,
                seg@,
                idv,
            ));
        }
    }
    r
}

/// Answers `request` with `body` on `result_prefix.segment`, the segment
/// being the one `gen` gives the request's id; the answer's id is drawn
/// from `gen`.
pub fn reply<G: IdGen + ?Sized>(
    bus: &mut Bus,
    request: &Envelope,
    body: &Value,
    result_prefix: &str,
    from: ActorId,
    gen: &mut G,
) -> (r: Result<(), Error>)
    ensures
        final(bus).subs() == old(bus).subs(),
        r is Err ==> final(bus).boxes() == old(bus).boxes(),
        r is Ok ==> exists|seg: Seq<char>, id: Seq<char>|
            #[trigger] reply_delivered(
                old(bus).boxes(),
                final(bus).boxes(),
                old(bus).subs(),
                *request,
                *body,
                result_prefix@,
                from@,
                seg,
                id,
            ),
        r is Ok ==> exists|seg: Seq<char>, id: Seq<char>, s: String|
            #[trigger] reply_delivered(
                old(bus).boxes(),
                final(bus).boxes(),
                old(bus).subs(),
                *request,
                *body,
                result_prefix@,
                from@,
                seg,
                id,
            ) && s@ == seg && #[trigger] old(gen).segment_for(request.header.id@, Ok(s)),
        old(bus).wf() ==> final(bus).wf(),
{
    let segment = gen.topic_segment(&request.header.id);
    let ghost sg = segment;
    let ghost fv = from@;
    let r = reply_with(bus, request, body, result_prefix, from, segment, gen);
    proof {
        if r is Ok {
            let seg = sg->Ok_0@;
            let id = choose|id: Seq<char>|
                #[trigger] reply_delivered(
                    old(bus).boxes(),
                    bus.boxes(),
                    old(bus).subs(),
                    *request,
                    *body,
                    result_prefix@,
                    fv,
                    seg,
                    id,
                );
            assert(reply_delivered(
                old(bus).boxes(),
                bus.boxes(),
                old(bus).subs(),
                *request,
                *body,
                result_prefix@,
                fv,
                seg,
                id,
            ));
            assert(sg->Ok_0@ == seg && old(gen).segment_for(request.header.id@, Ok(sg->Ok_0)));
        }
    }
    r
}

} // verus!
