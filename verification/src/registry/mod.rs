//! The request registry: each outgoing request is registered as Pending
//! under its id, with the topic and cause its result must carry; a result
//! resolves it once, and finishing forgets it.

pub mod quad;
pub mod topic;

pub use quad::{quad_ok, Entry, EntryView, State};
pub use topic::result_topic_of;

use crate::bus::subscriptions::pattern_text_spec;
use crate::bus::{publish_outcome, subscribed, unsubscribed, Bus, InboxHandle};
use crate::envelope::id::{ActorId, EnvelopeId};
use crate::envelope::topic::{topic_error_msg, topic_suffix, valid_topic};
use crate::envelope::value::{deep, Value};
use crate::envelope::{build_envelope, built, Envelope};
use crate::idgen::IdGen;
use crate::pattern::{pattern_error_msg, valid_pattern};
use crate::result::body::{result_request_id, spec_request_id};
use crate::text::{debug_str, split_on};
use crate::Error;
use quad::{quad_ok_with, quad_spec};
use crate::keyed::{
    drop_key, first_get, key_map, keys_unique, lemma_drop_key_absent, lemma_drop_key_map,
    lemma_drop_key_unique, lemma_first_get_none_all, lemma_first_get_prefix, lemma_push_map,
    lemma_push_unique,
};
use vstd::prelude::*;

verus! {

/// What `resolve_only` found.
#[derive(Debug, Default)]
pub struct ResolveOutcome {
    pub state: Option<State>,
    pub request_id: Option<EnvelopeId>,
    pub fresh: bool,
}

/// What `start_request` sends and expects back.
#[derive(Debug)]
pub struct StartParams {
    pub request_prefix: String,
    pub result_prefix: String,
    pub payload: Value,
    pub from: ActorId,
    pub cause: EnvelopeId,
    pub request_id: Option<EnvelopeId>,
}

/// Request `req` went out with topic segment `seg`: its topic is
/// `request_prefix.seg`; the registry `r1` is `r0` with it Pending under
/// its id, awaiting `result_prefix.seg` with cause `cause`; mailbox `inbox`
/// is subscribed to that result topic (`s0` to `s1`); and `req` was
/// delivered to every mailbox its topic reaches (`b0` to `b1`).
pub open spec fn issued(
    r0: Map<Seq<char>, EntryView>,
    r1: Map<Seq<char>, EntryView>,
    b0: Seq<crate::inbox::Inbox>,
    s0: Seq<crate::bus::subscriptions::SubView>,
    b1: Seq<crate::inbox::Inbox>,
    s1: Seq<crate::bus::subscriptions::SubView>,
    inbox: u64,
    request_prefix: Seq<char>,
    result_prefix: Seq<char>,
    cause: Seq<char>,
    seg: Seq<char>,
    req: crate::envelope::EnvelopeView,
) -> bool {
    let rt = result_prefix.push('.') + seg;
    &&& req.header.topic == request_prefix.push('.') + seg
    &&& req.header.cause == cause
    &&& r1 == r0.insert(req.header.id, pending_entry(rt, cause))
    &&& s1 == subscribed(s0, rt, inbox)
    &&& crate::bus::delivered(b0, b1, crate::bus::subscriptions::targets(s1, split_on(req.header.topic, '.')), req)
}

/// Entries as (id, entry) views.
pub open spec fn ev_seq(v: Seq<(EnvelopeId, Entry)>) -> Seq<(Seq<char>, EntryView)> {
    v.map_values(|p: (EnvelopeId, Entry)| (p.0@, p.1@))
}

/// The new entry of a request awaiting its result.
pub open spec fn pending_entry(topic: Seq<char>, cause: Seq<char>) -> EntryView {
    EntryView { expected_topic: topic, cause, state: State::Pending }
}

/// The registry after one resolution attempt with `env`, and what it reports
/// (state, fresh); `seg` is the segment of the request id.
pub open spec fn resolve_effect(
    m: Map<Seq<char>, EntryView>,
    env: Envelope,
    seg: Result<String, Error>,
) -> (Map<Seq<char>, EntryView>, Option<State>, bool) {
    match spec_request_id(env) {
        None => (m, None, false),
        Some(k) => if !m.contains_key(k) {
            (m, None, false)
        } else {
            let e = m[k];
            if !quad_spec(k, e, env, seg) {
                (m, None, false)
            } else if e.state != State::Pending {
                (m, Some(e.state), false)
            } else {
                (
                    m.insert(
                        k,
                        EntryView { expected_topic: e.expected_topic, cause: e.cause, state: State::Resolved },
                    ),
                    Some(State::Resolved),
                    true,
                )
            }
        },
    }
}

/// What a successful four-way check shows whatever the segment was.
pub open spec fn quad_ok_facts(k: Seq<char>, e: EntryView, env: Envelope) -> bool {
    &&& env.header.topic@ == e.expected_topic
    &&& env.header.cause@ == e.cause
    &&& crate::result::body::spec_result_body(env) is Some
}

/// The message of a mismatched expected topic.
pub open spec fn expect_mismatch_msg(topic: Seq<char>, seg: Seq<char>) -> Seq<char> {
    "expected_topic "@ + debug_str(topic) + " does not end with topic_segment(request_id) "@
        + debug_str(seg)
}

/// A result answers its request once: once a resolution was fresh, the same
/// result resolves nothing more and reports the request as Resolved.
pub proof fn law_answered_once(m: Map<Seq<char>, EntryView>, env: Envelope, seg: Result<String, Error>)
    requires
        resolve_effect(m, env, seg).2,
    ensures
        ({
            let m2 = resolve_effect(m, env, seg).0;
            let again = resolve_effect(m2, env, seg);
            &&& again.0 == m2
            &&& again.1 == Some(State::Resolved)
            &&& !again.2
        }),
{
}

/// A settled request stays settled: a result for a request that is no
/// longer Pending changes nothing and is not fresh.
pub proof fn law_settled_absorbing(m: Map<Seq<char>, EntryView>, env: Envelope, seg: Result<String, Error>)
    requires
        spec_request_id(env) matches Some(k) && m.contains_key(k) && m[k].state != State::Pending,
    ensures
        resolve_effect(m, env, seg).0 == m,
        !resolve_effect(m, env, seg).2,
{
}

/// A resolution touches at most the request the result names, and only
/// its state, from Pending to Resolved.
pub proof fn law_resolution_is_local(m: Map<Seq<char>, EntryView>, env: Envelope, seg: Result<String, Error>)
    ensures
        ({
            let m2 = resolve_effect(m, env, seg).0;
            &&& m2.dom() == m.dom()
            &&& forall|k: Seq<char>|
                #[trigger] m.contains_key(k) && m2[k] != m[k] ==> spec_request_id(env) == Some(k) && m[k].state
                    == State::Pending && m2[k] == (EntryView {
                    expected_topic: m[k].expected_topic,
                    cause: m[k].cause,
                    state: State::Resolved,
                })
        }),
{
    let m2 = resolve_effect(m, env, seg).0;
    if let Some(k) = spec_request_id(env) {
        if m.contains_key(k) && resolve_effect(m, env, seg).2 {
            assert(m2.dom() =~= m.dom());
        }
    }
}

/// The registry of outstanding requests.
#[derive(Debug, Default)]
pub struct Registry {
    entries: Vec<(EnvelopeId, Entry)>,
    bound: bool,
}

impl Registry {
    /// The entries as a map from request id.
    pub closed spec fn view(&self) -> Map<Seq<char>, EntryView> {
        key_map(ev_seq(self.entries@))
    }

    /// Whether an id generator has been bound (by a request or by a host).
    pub closed spec fn is_bound(&self) -> bool {
        self.bound
    }

    /// No request id is held twice.
    pub closed spec fn wf(&self) -> bool {
        keys_unique(ev_seq(self.entries@))
    }

    /// An empty registry, not yet bound to an id generator.
    pub fn new() -> (r: Registry)
        ensures
            r@ == Map::<Seq<char>, EntryView>::empty(),
            !r.is_bound(),
            r.wf(),
    {
        let r = Registry { entries: Vec::new(), bound: false };
        assert(r@ =~= Map::<Seq<char>, EntryView>::empty());
        r
    }

    /// Marks the registry as bound to an id generator.
    pub(crate) fn bind_id_gen(&mut self)
        ensures
            final(self)@ == old(self)@,
            final(self).is_bound(),
            final(self).wf() == old(self).wf(),
    {
        self.bound = true;
    }

    fn find(&self, id: &EnvelopeId) -> (r: Option<usize>)
        ensures
            match r {
                Some(i) => i < self.entries@.len() && self.entries@[i as int].0@ == id@ && self@.contains_key(id@)
                    && self@[id@] == self.entries@[i as int].1@,
                None => !self@.contains_key(id@),
            },
    {
        let ghost v = ev_seq(self.entries@);
        let mut i: usize = 0;
        assert(v.take(0) =~= Seq::<(Seq<char>, EntryView)>::empty());
        while i < self.entries.len()
            invariant
                v == ev_seq(self.entries@),
                i <= self.entries@.len(),
                first_get(v.take(i as int), id@) is None,
            decreases self.entries@.len() - i,
        {
            assert(v.take(i + 1).drop_last() =~= v.take(i as int));
            assert(v[i as int] == (self.entries@[i as int].0@, self.entries@[i as int].1@));
            if self.entries[i].0.same(id) {
                proof {
                    lemma_first_get_prefix(v, i + 1, id@);
                }
                return Some(i);
            }
            i = i + 1;
        }
        assert(v.take(i as int) =~= v);
        None
    }

    /// The entries without `id`.
    fn without(&self, id: &EnvelopeId) -> (r: Vec<(EnvelopeId, Entry)>)
        ensures
            ev_seq(r@) == drop_key(ev_seq(self.entries@), id@),
    {
        let ghost v = ev_seq(self.entries@);
        let mut out: Vec<(EnvelopeId, Entry)> = Vec::new();
        let mut i: usize = 0;
        assert(v.take(0) =~= Seq::<(Seq<char>, EntryView)>::empty());
        while i < self.entries.len()
            invariant
                v == ev_seq(self.entries@),
                i <= self.entries@.len(),
                ev_seq(out@) == drop_key(v.take(i as int), id@),
            decreases self.entries@.len() - i,
        {
            assert(v.take(i + 1).drop_last() =~= v.take(i as int));
            assert(v[i as int] == (self.entries@[i as int].0@, self.entries@[i as int].1@));
            if !self.entries[i].0.same(id) {
                let ghost before = ev_seq(out@);
                let k = self.entries[i].0.clone();
                let e = self.entries[i].1.clone();
                out.push((k, e));
                assert(ev_seq(out@) =~= before.push(v[i as int]));
            }
            i = i + 1;
        }
        assert(v.take(i as int) =~= v);
        out
    }

    /// Forgets `id`.
    fn drop_entry(&mut self, id: &EnvelopeId)
        ensures
            final(self)@ == old(self)@.remove(id@),
            final(self).is_bound() == old(self).is_bound(),
            old(self).wf() ==> final(self).wf(),
    {
        let kept = self.without(id);
        proof {
            lemma_drop_key_map(ev_seq(self.entries@), id@);
            if self.wf() {
                lemma_drop_key_unique(ev_seq(self.entries@), id@);
            }
        }
        self.entries = kept;
    }

    /// Registers `id` with `entry`, replacing what it held.
    fn put(&mut self, id: EnvelopeId, entry: Entry)
        ensures
            final(self)@ == old(self)@.insert(id@, entry@),
            final(self).is_bound() == old(self).is_bound(),
            old(self).wf() ==> final(self).wf(),
    {
        let mut kept = self.without(&id);
        let ghost d = ev_seq(kept@);
        proof {
            lemma_drop_key_map(ev_seq(self.entries@), id@);
            lemma_drop_key_absent(ev_seq(self.entries@), id@);
            lemma_push_map(d, id@, entry@);
            lemma_first_get_none_all(d, id@);
            if self.wf() {
                lemma_drop_key_unique(ev_seq(self.entries@), id@);
                lemma_push_unique(d, id@, entry@);
            }
        }
        let ghost idv = id@;
        let ghost ev = entry@;
        kept.push((id, entry));
        assert(ev_seq(kept@) =~= d.push((idv, ev)));
        self.entries = kept;
        assert(self@ =~= old(self)@.remove(idv).insert(idv, ev));
    }

    /// The state of request `request_id`, if registered.
    pub fn state(&self, request_id: &EnvelopeId) -> (r: Option<State>)
        ensures
            r == if self@.contains_key(request_id@) {
                Some(self@[request_id@].state)
            } else {
                None
            },
    {
        match self.find(request_id) {
            Some(i) => Some(self.entries[i].1.state),
            None => None,
        }
    }

    /// Moves a Pending request to `state`; any other state is kept.
    fn set_terminal(&mut self, request_id: &EnvelopeId, state: State)
        ensures
            final(self)@ == if old(self)@.contains_key(request_id@) && old(self)@[request_id@].state
                == State::Pending {
                old(self)@.insert(
                    request_id@,
                    EntryView {
                        expected_topic: old(self)@[request_id@].expected_topic,
                        cause: old(self)@[request_id@].cause,
                        state,
                    },
                )
            } else {
                old(self)@
            },
            final(self).is_bound() == old(self).is_bound(),
            old(self).wf() ==> final(self).wf(),
    {
        if let Some(i) = self.find(request_id) {
            if self.entries[i].1.state == State::Pending {
                let e = Entry {
                    expected_topic: self.entries[i].1.expected_topic.clone(),
                    cause: self.entries[i].1.cause.clone(),
                    state,
                };
                self.put(request_id.clone(), e);
            }
        }
    }

    /// Marks a Pending request as timed out.
    pub(crate) fn timeout(&mut self, request_id: &EnvelopeId)
        ensures
            final(self)@ == if old(self)@.contains_key(request_id@) && old(self)@[request_id@].state
                == State::Pending {
                old(self)@.insert(
                    request_id@,
                    EntryView {
                        expected_topic: old(self)@[request_id@].expected_topic,
                        cause: old(self)@[request_id@].cause,
                        state: State::TimedOut,
                    },
                )
            } else {
                old(self)@
            },
            final(self).is_bound() == old(self).is_bound(),
            old(self).wf() ==> final(self).wf(),
    {
        self.set_terminal(request_id, State::TimedOut);
    }

    /// Forgets request `request_id`, first unsubscribing `inbox` from its
    /// expected topic.
    pub fn finish_safe(&mut self, bus: &mut Bus, inbox: &InboxHandle, request_id: &EnvelopeId)
        ensures
            final(self)@ == old(self)@.remove(request_id@),
            final(self).is_bound() == old(self).is_bound(),
            old(self).wf() ==> final(self).wf(),
            final(bus).boxes() == old(bus).boxes(),
            final(bus).subs() == if old(self)@.contains_key(request_id@) {
                unsubscribed(old(bus).subs(), old(self)@[request_id@].expected_topic, inbox@)
            } else {
                old(bus).subs()
            },
            old(bus).wf() ==> final(bus).wf(),
            old(bus).wf() ==> crate::bus::subs_within(final(bus).subs(), old(bus).subs()),
            old(bus).wf() && old(self)@.contains_key(request_id@) ==> crate::bus::sub_gone(
                final(bus).subs(),
                old(self)@[request_id@].expected_topic,
                inbox@,
            ),
    {
        if let Some(i) = self.find(request_id) {
            let topic = self.entries[i].1.expected_topic.clone();
            let _ = bus.unsubscribe(topic.as_str(), inbox);
        }
        self.drop_entry(request_id);
        proof {
            if old(bus).wf() {
                if old(self)@.contains_key(request_id@) {
                    crate::bus::lemma_unsubscribed_gone(
                        old(bus).subs(),
                        old(self)@[request_id@].expected_topic,
                        inbox@,
                    );
                } else {
                    assert(crate::bus::subs_within(bus.subs(), old(bus).subs())) by {
                        assert forall|i: int| 0 <= i < bus.subs().len() implies old(bus).subs().contains(
                            #[trigger] bus.subs()[i],
                        ) by {
                            assert(bus.subs()[i] == old(bus).subs()[i]);
                        }
                    }
                }
            }
        }
    }

    /// Registers `request` as Pending, expecting its result on
    /// `expected_topic`, which must end with `segment` (the request id's
    /// topic segment).
    fn expect_with(
        &mut self,
        request: &Envelope,
        expected_topic: &str,
        segment: Result<String, Error>,
    ) -> (r: Result<(), Error>)
        ensures
            final(self).is_bound() == old(self).is_bound(),
            old(self).wf() ==> final(self).wf(),
            match segment {
                Err(e) => r == Err::<(), Error>(e) && final(self)@ == old(self)@,
                Ok(seg) => if expected_topic@.len() == 0 {
                    (r matches Err(Error::EnvelopeBuild(m)) && m@ == "empty topic"@) && final(self)@
                        == old(self)@
                } else if split_on(expected_topic@, '.').last() != seg@ {
                    (r matches Err(Error::State(m)) && m@ == expect_mismatch_msg(expected_topic@, seg@))
                        && final(self)@ == old(self)@
                } else {
                    r is Ok && final(self)@ == old(self)@.insert(
                        request.header.id@,
                        pending_entry(expected_topic@, request.header.cause@),
                    )
                },
            },
    {
        let seg = match segment {
            Err(e) => return Err(e),
            Ok(s) => s,
        };
        let suffix = match topic_suffix(expected_topic) {
            Err(e) => return Err(e.into_error()),
            Ok(s) => s,
        };
        if !crate::text::str_eq(suffix, seg.as_str()) {
            let a = crate::text::debug_quote(expected_topic);
            let b = crate::text::debug_quote(seg.as_str());
            let m1 = crate::text::concat2("expected_topic ", a.as_str());
            let m2 = crate::text::concat2(m1.as_str(), " does not end with topic_segment(request_id) ");
            let m3 = crate::text::concat2(m2.as_str(), b.as_str());
            assert(m3@ =~= expect_mismatch_msg(expected_topic@, seg@));
            return Err(Error::State(m3));
        }
        let entry = Entry {
            expected_topic: crate::text::to_string(expected_topic),
            cause: request.header.cause.clone(),
            state: State::Pending,
        };
        self.put(request.header.id.clone(), entry);
        Ok(())
    }

    /// One resolution attempt with `env`, once the segment of its request
    /// id is known (see `resolve_effect`).
    pub fn resolve_with(&mut self, env: &Envelope, seg: &Result<String, Error>) -> (o: ResolveOutcome)
        ensures
            ({
                let (m, st, fresh) = resolve_effect(old(self)@, *env, *seg);
                &&& final(self)@ == m
                &&& o.state == st
                &&& o.fresh == fresh
            }),
            match spec_request_id(*env) {
                Some(k) => o.request_id matches Some(id) && id@ == k,
                None => o.request_id is None,
            },
            final(self).is_bound() == old(self).is_bound(),
            old(self).wf() ==> final(self).wf(),
    {
        let request_id = result_request_id(env);
        let rid = match &request_id {
            Some(r) => r,
            None => return ResolveOutcome { state: None, request_id: None, fresh: false },
        };
        let i = match self.find(rid) {
            Some(i) => i,
            None => return ResolveOutcome { state: None, request_id, fresh: false },
        };
        if !quad_ok_with(rid, &self.entries[i].1, env, seg) {
            return ResolveOutcome { state: None, request_id, fresh: false };
        }
        let st = self.entries[i].1.state;
        if st != State::Pending {
            return ResolveOutcome { state: Some(st), request_id, fresh: false };
        }
        let e = Entry {
            expected_topic: self.entries[i].1.expected_topic.clone(),
            cause: self.entries[i].1.cause.clone(),
            state: State::Resolved,
        };
        let key = rid.clone();
        self.put(key, e);
        ResolveOutcome { state: Some(State::Resolved), request_id, fresh: true }
    }

    /// Checks `env` against the registry: a result that answers a Pending
    /// request resolves it (`fresh`); one that answers a settled request
    /// reports its state. Fails when no id generator was ever bound.
    pub fn resolve_only<G: IdGen + ?Sized>(&mut self, env: &Envelope, gen: &G) -> (r: Result<ResolveOutcome, Error>)
        ensures
            r is Err <==> !old(self).is_bound(),
            r matches Err(e) ==> (e matches Error::State(m) && m@ == "IdGen bound by start_request or JobHost.handle"@),
            r is Err ==> final(self)@ == old(self)@,
            r matches Ok(o) ==> {
                &&& match spec_request_id(*env) {
                    Some(k) => o.request_id matches Some(id) && id@ == k,
                    None => o.request_id is None,
                }
                &&& o.fresh ==> (spec_request_id(*env) matches Some(k) && old(self)@.contains_key(k)
                    && old(self)@[k].state == State::Pending && o.state == Some(State::Resolved)
                    && final(self)@ == old(self)@.insert(
                    k,
                    EntryView {
                        expected_topic: old(self)@[k].expected_topic,
                        cause: old(self)@[k].cause,
                        state: State::Resolved,
                    },
                ))
                &&& !o.fresh ==> final(self)@ == old(self)@ && (o.state is None || (spec_request_id(*env) matches Some(k) && old(self)@.contains_key(k) && o.state == Some(old(self)@[k].state)))
                &&& o.state is Some ==> (spec_request_id(*env) matches Some(k) && old(self)@.contains_key(k)
                    && quad_ok_facts(k, old(self)@[k], *env))
                &&& !o.fresh && o.state is Some ==> (spec_request_id(*env) matches Some(k) && old(self)@[k].state
                    != State::Pending)
            },
            final(self).is_bound() == old(self).is_bound(),
            old(self).wf() ==> final(self).wf(),
    {
        if !self.bound {
            return Err(Error::State(crate::text::to_string("IdGen bound by start_request or JobHost.handle")));
        }
        let seg = match result_request_id(env) {
            Some(rid) => match self.find(&rid) {
                Some(_) => gen.topic_segment(&rid),
                None => Err(Error::State(String::new())),
            },
            None => Err(Error::State(String::new())),
        };
        Ok(self.resolve_with(env, &seg))
    }

    /// Issues a request once its id and the id's topic segment are known
    /// (`check` is the segment asked for a second time, when registering).
    /// The request goes to `request_prefix.segment`; its result is expected
    /// on `result_prefix.segment`, to which `inbox` is subscribed.
    pub fn start_request_with(
        &mut self,
        bus: &mut Bus,
        inbox: &InboxHandle,
        eid: EnvelopeId,
        segment: Result<String, Error>,
        check: Result<String, Error>,
        params: StartParams,
    ) -> (r: Result<Envelope, Error>)
        ensures
            final(self).is_bound(),
            old(self).wf() ==> final(self).wf(),
            old(bus).wf() ==> final(bus).wf(),
            match segment {
                Err(e) => r == Err::<Envelope, Error>(e) && final(self)@ == old(self)@ && final(bus).boxes()
                    == old(bus).boxes() && final(bus).subs() == old(bus).subs(),
                Ok(seg) => {
                    let t = params.request_prefix@.push('.') + seg@;
                    let rt = params.result_prefix@.push('.') + seg@;
                    let subs1 = subscribed(old(bus).subs(), rt, inbox@);
                    let req = built(t, deep(params.payload), params.from@, Some(params.cause@), eid@);
                    let tg = crate::bus::subscriptions::targets(subs1, split_on(t, '.'));
                    if !valid_topic(t) {
                        (r matches Err(Error::EnvelopeBuild(m)) && topic_error_msg(t, m@)) && final(self)@
                            == old(self)@ && final(bus).boxes() == old(bus).boxes() && final(bus).subs()
                            == old(bus).subs()
                    } else if check is Err {
                        r == Err::<Envelope, Error>(check->Err_0) && final(self)@ == old(self)@
                            && final(bus).boxes() == old(bus).boxes() && final(bus).subs() == old(bus).subs()
                    } else if split_on(rt, '.').last() != check->Ok_0@ {
                        (r matches Err(Error::State(m)) && m@ == expect_mismatch_msg(rt, check->Ok_0@))
                            && final(self)@ == old(self)@ && final(bus).boxes() == old(bus).boxes()
                            && final(bus).subs() == old(bus).subs()
                    } else if !valid_pattern(rt) {
                        (r matches Err(Error::InvalidTopic(m)) && pattern_error_msg(rt, m@)) && final(self)@
                            == old(self)@.remove(eid@) && final(bus).boxes() == old(bus).boxes()
                            && final(bus).subs() == old(bus).subs()
                    } else if crate::bus::blocked(old(bus).boxes(), tg) {
                        r == Err::<Envelope, Error>(Error::MailboxFull) && final(self)@ == old(self)@.remove(
                            eid@,
                        ) && final(bus).boxes() == old(bus).boxes() && final(bus).subs() == unsubscribed(
                            subs1,
                            rt,
                            inbox@,
                        )
                    } else {
                        &&& r matches Ok(e) && e@ == req
                        &&& final(self)@ == old(self)@.insert(eid@, pending_entry(rt, params.cause@))
                        &&& final(bus).subs() == subs1
                        &&& crate::bus::delivered(old(bus).boxes(), final(bus).boxes(), tg, req)
                    }
                },
            },
    {
        self.bound = true;
        let seg = match segment {
            Err(e) => return Err(e),
            Ok(s) => s,
        };
        let request_topic = crate::text::join2(params.request_prefix.as_str(), '.', seg.as_str());
        let request = match build_envelope(
            request_topic.as_str(),
            params.payload,
            params.from.clone(),
            Some(params.cause.clone()),
            eid.clone(),
        ) {
            Err(e) => return Err(e.into_error()),
            Ok(req) => req,
        };
        let result_topic = crate::text::join2(params.result_prefix.as_str(), '.', seg.as_str());
        proof {
            crate::text::lemma_split_len(result_topic@, '.');
        }
        match self.expect_with(&request, result_topic.as_str(), check) {
            Err(e) => return Err(e),
            Ok(()) => {},
        }
        match bus.subscribe(result_topic.as_str(), inbox) {
            Err(err) => {
                self.drop_entry(&eid);
                assert(self@ =~= old(self)@.remove(eid@));
                return Err(err);
            },
            Ok(()) => {},
        }
        match bus.publish(&request) {
            Err(err) => {
                self.set_terminal(&eid, State::Failed);
                self.finish_safe(bus, inbox, &eid);
                assert(self@ =~= old(self)@.remove(eid@));
                return Err(err);
            },
            Ok(()) => {},
        }
        Ok(request)
    }

    /// Issues a request: picks its id (`params.request_id` or a fresh one
    /// from `gen`), registers it as Pending, subscribes `inbox` to its result
    /// topic and publishes it. On failure the registration is undone.
    pub fn start_request<G: IdGen + ?Sized>(
        &mut self,
        bus: &mut Bus,
        inbox: &InboxHandle,
        gen: &mut G,
        params: StartParams,
    ) -> (r: Result<Envelope, Error>)
        ensures
            final(self).is_bound(),
            old(self).wf() ==> final(self).wf(),
            old(bus).wf() ==> final(bus).wf(),
            r matches Ok(req) ==> {
                &&& req.header.cause@ == params.cause@
                &&& req.header.from@ == params.from@
                &&& req@.payload == deep(params.payload)
                &&& params.request_id matches Some(i) ==> req.header.id@ == i@
                &&& final(self)@ == old(self)@.insert(
                    req.header.id@,
                    pending_entry(final(self)@[req.header.id@].expected_topic, params.cause@),
                )
                &&& exists|seg: Seq<char>|
                    #[trigger] issued(
                        old(self)@,
                        final(self)@,
                        old(bus).boxes(),
                        old(bus).subs(),
                        final(bus).boxes(),
                        final(bus).subs(),
                        inbox@,
                        params.request_prefix@,
                        params.result_prefix@,
                        params.cause@,
                        seg,
                        req@,
                    )
            },
            r is Err ==> final(self)@ == old(self)@ || exists|k: Seq<char>| final(self)@ == old(self)@.remove(k),
            r is Err ==> final(bus).boxes() == old(bus).boxes(),
    {
        let eid = match &params.request_id {
            Some(id) => id.clone(),
            None => gen.next_envelope_id(),
        };
        let segment = gen.topic_segment(&eid);
        let check = gen.topic_segment(&eid);
        let ghost e0 = eid@;
        let r = self.start_request_with(bus, inbox, eid, segment, check, params);
        proof {
            if r is Ok {
                assert(self@[e0] == pending_entry(self@[e0].expected_topic, params.cause@));
                let seg = segment->Ok_0@;
                assert(issued(
                    old(self)@,
                    self@,
                    old(bus).boxes(),
                    old(bus).subs(),
                    bus.boxes(),
                    bus.subs(),
                    inbox@,
                    params.request_prefix@,
                    params.result_prefix@,
                    params.cause@,
                    seg,
                    r->Ok_0@,
                ));
            }
        }
        r
    }
}

} // verus!
