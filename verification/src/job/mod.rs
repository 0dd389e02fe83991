//! Jobs: the unit of work a host runs for one root envelope. A job issues
//! requests, is told of their results stage by stage, answers its root and
//! finishes once; its hooks are supplied by the user.

use crate::bus::{Bus, InboxHandle};
use crate::clock::Clock;
use crate::envelope::id::{ActorId, EnvelopeId};
use crate::envelope::value::{deep, Value, ValueView};
use crate::envelope::{Envelope, EnvelopeView};
use crate::idgen::IdGen;
use crate::keyed::Keyed;
use crate::registry::{pending_entry, Registry, StartParams, State};
use crate::result::body::{entry, err_payload, result_body, result_request_id, spec_request_id, spec_result_body};
use crate::Error;
use std::collections::VecDeque;
use vstd::prelude::*;

verus! {

/// How many requests a job may have outstanding unless told otherwise.
pub const DEFAULT_MAX_INFLIGHT: usize = 100;

/// The stage result a timed-out request delivers:
/// `{ok: false, error: "request_timeout"}`.
pub fn timeout_body() -> (r: Value)
    ensures
        entry(r, "ok"@) == Some(Value::Bool(false)),
        entry(r, "error"@) matches Some(Value::Str(s)) && s@ == "request_timeout"@,
        r matches Value::Object(p) && crate::envelope::value::keys_sorted(p@) && forall|key: Seq<char>|
            #[trigger] crate::envelope::value::lookup(p@, key) is Some <==> (key == "ok"@ || key == "error"@),
{
    let detail: Vec<(&str, Value)> = Vec::new();
    match err_payload("request_timeout", detail.as_slice()) {
        Ok(v) => {
            proof {
                let p = v->Object_0@;
                assert forall|key: Seq<char>|
                    #[trigger] crate::envelope::value::lookup(p, key) is Some <==> (key == "ok"@ || key
                        == "error"@) by {
                    if key != "ok"@ && key != "error"@ {
                        assert(crate::result::body::opt_deep(crate::envelope::value::lookup(p, key))
                            == crate::result::body::detail_deep(detail@, 0, key));
                    }
                }
            }
            v
        },
        Err(_) => {
            assert(false);
            Value::Null
        },
    }
}

/// What a job asks of another actor: the stage its result belongs to, the
/// request topic prefix, the result topic prefix and the payload.
pub struct RequestSpec {
    pub stage: String,
    pub request_prefix: String,
    pub result_prefix: String,
    pub payload: Value,
}

/// How a job ended.
#[derive(Debug)]
pub struct FinishInfo {
    pub ok: bool,
    pub error: Option<String>,
    pub answer: Option<Value>,
}

/// The content of a `FinishInfo`.
pub struct FinishInfoView {
    pub ok: bool,
    pub error: Option<Seq<char>>,
    pub answer: Option<ValueView>,
}

impl View for FinishInfo {
    type V = FinishInfoView;

    open spec fn view(&self) -> FinishInfoView {
        FinishInfoView {
            ok: self.ok,
            error: match self.error {
                Some(e) => Some(e@),
                None => None,
            },
            answer: match self.answer {
                Some(a) => Some(deep(a)),
                None => None,
            },
        }
    }
}

impl FinishInfo {
    /// A successful end with `answer`.
    pub fn ok_answer(answer: Value) -> (f: FinishInfo)
        ensures
            f.ok,
            f.error is None,
            f.answer == Some(answer),
    {
        FinishInfo { ok: true, error: None, answer: Some(answer) }
    }

    /// A failed end with message `msg`.
    pub fn err_msg(msg: &str) -> (f: FinishInfo)
        ensures
            !f.ok,
            f.error matches Some(m) && m@ == msg@,
            f.answer is None,
    {
        FinishInfo { ok: false, error: Some(crate::text::to_string(msg)), answer: None }
    }
}

impl Default for FinishInfo {
    fn default() -> (f: FinishInfo)
        ensures
            !f.ok,
            f.error is None,
            f.answer is None,
    {
        FinishInfo { ok: false, error: None, answer: None }
    }
}

/// An outstanding request: the stage its result belongs to and when it
/// times out (0: never).
pub(crate) struct Inflight {
    pub stage: String,
    pub deadline_ms: i64,
}

/// The content of an outstanding request.
pub struct InflightView {
    pub stage: Seq<char>,
    pub deadline_ms: i64,
}

impl View for Inflight {
    type V = InflightView;

    closed spec fn view(&self) -> InflightView {
        InflightView { stage: self.stage@, deadline_ms: self.deadline_ms }
    }
}

/// A request asked for while a stage result was being handled; it is
/// issued, under the id it was promised, once the handler returns.
pub(crate) struct Deferred {
    pub stage: String,
    pub request_prefix: String,
    pub result_prefix: String,
    pub payload: Value,
    pub request_id: EnvelopeId,
}

/// The content of a deferred request.
pub struct DeferredView {
    pub stage: Seq<char>,
    pub request_prefix: Seq<char>,
    pub result_prefix: Seq<char>,
    pub payload: ValueView,
    pub request_id: Seq<char>,
}

impl View for Deferred {
    type V = DeferredView;

    closed spec fn view(&self) -> DeferredView {
        DeferredView {
            stage: self.stage@,
            request_prefix: self.request_prefix@,
            result_prefix: self.result_prefix@,
            payload: deep(self.payload),
            request_id: self.request_id@,
        }
    }
}

/// The deferred requests as views.
pub(crate) open spec fn deferred_view(s: Seq<Deferred>) -> Seq<DeferredView> {
    s.map_values(|d: Deferred| d@)
}

/// A job for one root envelope.
pub struct Job {
    pub root: Envelope,
    pub(crate) finished: bool,
    pub(crate) inflight: Keyed<Inflight>,
    pub(crate) deferred: VecDeque<Deferred>,
    pub(crate) max_inflight: usize,
    pub(crate) outcome: Ghost<Option<FinishInfoView>>,
}

impl Job {
    /// How the job ended, once it was finished through `finish`.
    pub closed spec fn ended(&self) -> Option<FinishInfoView> {
        self.outcome@
    }

    /// The job's root envelope.
    pub closed spec fn root_env(&self) -> Envelope {
        self.root
    }

    /// Whether the job has finished.
    pub closed spec fn is_done(&self) -> bool {
        self.finished
    }

    /// The outstanding requests by id.
    pub closed spec fn pending(&self) -> Map<Seq<char>, InflightView> {
        self.inflight@
    }

    /// How many entries the outstanding-request store holds.
    pub closed spec fn pending_count(&self) -> nat {
        self.inflight.order().len()
    }

    /// The ids of the outstanding requests, oldest first.
    pub closed spec fn pending_order(&self) -> Seq<Seq<char>> {
        self.inflight.order()
    }

    /// The requests waiting to be issued, in order.
    pub closed spec fn waiting(&self) -> Seq<DeferredView> {
        deferred_view(self.deferred@)
    }

    /// The most requests the job may have outstanding.
    pub closed spec fn limit(&self) -> nat {
        self.max_inflight as nat
    }

    /// The job's internal consistency: no request held twice, a limit of
    /// at least one, and no more outstanding requests than the limit.
    pub closed spec fn wf(&self) -> bool {
        &&& self.inflight.wf()
        &&& self.max_inflight >= 1
        &&& self.inflight.order().len() <= self.max_inflight
    }

    /// The keys held are those of the map.
    pub proof fn lemma_pending_order(&self)
        ensures
            forall|k: Seq<char>| self.pending().contains_key(k) <==> self.pending_order().contains(k),
    {
        self.inflight.lemma_order_dom();
    }

    /// A fresh job for `root`, with the default limit.
    pub fn new(root: Envelope) -> (j: Job)
        ensures
            j.root_env() == root,
            !j.is_done(),
            j.pending() == Map::<Seq<char>, InflightView>::empty(),
            j.pending_count() == 0,
            j.waiting() == Seq::<DeferredView>::empty(),
            j.limit() == DEFAULT_MAX_INFLIGHT,
            j.ended() is None,
            j.wf(),
    {
        let j = Job {
            root,
            finished: false,
            inflight: Keyed::new(),
            deferred: VecDeque::new(),
            max_inflight: DEFAULT_MAX_INFLIGHT,
            outcome: Ghost(None),
        };
        assert(j.waiting() =~= Seq::<DeferredView>::empty());
        j
    }

    /// Sets the limit on outstanding requests (at least one).
    pub fn set_max_inflight(&mut self, n: usize)
        requires
            n >= 1,
        ensures
            final(self).limit() == n,
            final(self).root_env() == old(self).root_env(),
            final(self).is_done() == old(self).is_done(),
            final(self).pending() == old(self).pending(),
            final(self).pending_count() == old(self).pending_count(),
            final(self).waiting() == old(self).waiting(),
            old(self).wf() && old(self).pending_count() <= n ==> final(self).wf(),
    {
        self.max_inflight = n;
    }

    /// Whether the job has finished.
    pub fn is_finished(&self) -> (r: bool)
        ensures
            r == self.is_done(),
    {
        self.finished
    }

    /// Whether the job, unfinished, awaits the result of request `id`.
    pub fn awaits(&self, id: &EnvelopeId) -> (r: bool)
        ensures
            r == (self.pending().contains_key(id@) && !self.is_done()),
    {
        !self.finished && self.inflight.contains(id)
    }

    /// Fails once the job has finished: a finished job asks nothing more.
    pub fn ensure_requestable(&self) -> (r: Result<(), Error>)
        ensures
            r is Ok <==> !self.is_done(),
            r matches Err(e) ==> e matches Error::State(m) && m@ == "job not requestable"@,
    {
        if self.finished {
            return Err(Error::State(crate::text::to_string("job not requestable")));
        }
        Ok(())
    }
}

/// Called once when a job begins.
pub trait BeginHook {
    fn on_begin(&mut self, ctx: &mut JobCtx<'_, '_>) -> Result<(), Error>;
}

/// Called with each stage result a job receives.
pub trait StageHook {
    fn on_stage_result(&mut self, ctx: &mut JobCtx<'_, '_>, stage: &str, body: &Value) -> Result<(), Error>;
}

/// Called once when a job finishes.
pub trait FinishedHook {
    /// Is handed the finished job and exactly the `FinishInfo` it was
    /// finished with.
    fn on_finished(&mut self, ctx: &mut FinishCtx<'_, '_>, info: &FinishInfo) -> Result<(), Error>
        requires
            old(ctx).the_job().ended() == Some(info@),
            old(ctx).the_job().is_done(),
    ;
}

/// A job's hooks; each may be absent.
pub struct Hooks {
    pub on_begin: Option<Box<dyn BeginHook>>,
    pub on_stage_result: Option<Box<dyn StageHook>>,
    pub on_finished: Option<Box<dyn FinishedHook>>,
}

impl Hooks {
    /// No hooks at all.
    pub fn none() -> (h: Hooks)
        ensures
            h.on_begin is None,
            h.on_stage_result is None,
            h.on_finished is None,
    {
        Hooks { on_begin: None, on_stage_result: None, on_finished: None }
    }
}

/// Who a host is: its actor id, its mailbox and the timeout it gives each
/// request (0: none). Jobs read it and never change it.
pub struct HostIdent {
    pub(crate) actor_id: ActorId,
    pub(crate) inbox: InboxHandle,
    pub(crate) request_timeout_ms: i64,
}

/// The part of a host that jobs change: its request registry, and whether
/// a stage result is being handled.
pub struct HostCore {
    pub(crate) registry: Registry,
    pub(crate) in_continuation: bool,
}

/// What a begin or stage hook may act through.
pub struct JobCtx<'a, 'g> {
    pub job: &'a mut Job,
    pub(crate) ident: &'a HostIdent,
    pub(crate) core: &'a mut HostCore,
    pub(crate) bus: &'a mut Bus,
    pub(crate) gen: &'a mut &'g mut dyn IdGen,
    pub(crate) clock: &'a &'g dyn Clock,
    pub(crate) on_finished: &'a mut Option<Box<dyn FinishedHook>>,
}

/// What a finished hook may act through: the finished job, read only, and
/// the means to answer its root.
pub struct FinishCtx<'a, 'g> {
    pub job: &'a Job,
    pub(crate) actor_id: &'a ActorId,
    pub(crate) bus: &'a mut Bus,
    pub(crate) gen: &'a mut &'g mut dyn IdGen,
}

impl<'a, 'g> FinishCtx<'a, 'g> {
    /// The finished job.
    pub closed spec fn the_job(&self) -> Job {
        *self.job
    }

    /// The host's actor id.
    pub closed spec fn actor(&self) -> Seq<char> {
        self.actor_id@
    }

    /// The bus.
    pub closed spec fn the_bus(&self) -> Bus {
        *self.bus
    }

    /// Whether the host's id generator gives `r` as the segment of `id`.
    pub closed spec fn gen_segment_for(&self, id: Seq<char>, r: Result<String, Error>) -> bool {
        (**self.gen).segment_for(id, r)
    }

    /// Answers the job's root with `body` on `result_prefix.segment`.
    pub fn reply(&mut self, result_prefix: &str, body: &Value) -> (r: Result<(), Error>)
        ensures
            final(self).the_job() == old(self).the_job(),
            final(self).actor() == old(self).actor(),
            final(self).the_bus().subs() == old(self).the_bus().subs(),
            r is Err ==> final(self).the_bus().boxes() == old(self).the_bus().boxes(),
            r is Ok ==> exists|seg: Seq<char>, id: Seq<char>|
                #[trigger] crate::reply::reply_delivered(
                    old(self).the_bus().boxes(),
                    final(self).the_bus().boxes(),
                    old(self).the_bus().subs(),
                    old(self).the_job().root_env(),
                    *body,
                    result_prefix@,
                    old(self).actor(),
                    seg,
                    id,
                ),
            r is Ok ==> exists|seg: Seq<char>, id: Seq<char>, s: String|
                #[trigger] crate::reply::reply_delivered(
                    old(self).the_bus().boxes(),
                    final(self).the_bus().boxes(),
                    old(self).the_bus().subs(),
                    old(self).the_job().root_env(),
                    *body,
                    result_prefix@,
                    old(self).actor(),
                    seg,
                    id,
                ) && s@ == seg && #[trigger] old(self).gen_segment_for(old(self).the_job().root_env().header.id@, Ok(s)),
            old(self).the_bus().wf() ==> final(self).the_bus().wf(),
    {
        let from = self.actor_id.clone();
        let ghost fv = from@;
        let ghost b0 = self.bus.boxes();
        let ghost s0 = self.bus.subs();
        let r = crate::reply::reply(self.bus, &self.job.root, body, result_prefix, from, &mut **self.gen);
        proof {
            if r is Ok {
                let (seg3, id3, s3) = choose|seg: Seq<char>, id: Seq<char>, s: String|
                    #[trigger] crate::reply::reply_delivered(
                        b0,
                        self.bus.boxes(),
                        s0,
                        self.job.root,
                        *body,
                        result_prefix@,
                        fv,
                        seg,
                        id,
                    ) && s@ == seg && #[trigger] (**old(self).gen).segment_for(self.job.root.header.id@, Ok(s));
                assert(crate::reply::reply_delivered(
                    old(self).the_bus().boxes(),
                    self.the_bus().boxes(),
                    old(self).the_bus().subs(),
                    old(self).the_job().root_env(),
                    *body,
                    result_prefix@,
                    fv,
                    seg3,
                    id3,
                ));
                assert(old(self).gen_segment_for(old(self).the_job().root_env().header.id@, Ok(s3)));
                let (seg, id) = choose|seg: Seq<char>, id: Seq<char>|
                    #[trigger] crate::reply::reply_delivered(
                        b0,
                        self.bus.boxes(),
                        s0,
                        self.job.root,
                        *body,
                        result_prefix@,
                        from@,
                        seg,
                        id,
                    );
                assert(crate::reply::reply_delivered(
                    old(self).the_bus().boxes(),
                    self.the_bus().boxes(),
                    old(self).the_bus().subs(),
                    old(self).the_job().root_env(),
                    *body,
                    result_prefix@,
                    old(self).actor(),
                    seg,
                    id,
                ));
            }
        }
        r
    }
}


/// `a + b`, held at the bounds of `i64`.
pub open spec fn sat_add(a: i64, b: i64) -> i64 {
    if a + b > i64::MAX {
        i64::MAX
    } else if a + b < i64::MIN {
        i64::MIN
    } else {
        (a + b) as i64
    }
}

/// `a + b`, held at the bounds of `i64`.
pub fn saturating_add_i64(a: i64, b: i64) -> (r: i64)
    ensures
        r == sat_add(a, b),
{
    if b > 0 && a > i64::MAX - b {
        i64::MAX
    } else if b < 0 && a < i64::MIN - b {
        i64::MIN
    } else {
        a + b
    }
}

/// Whether an outstanding request is past its deadline at `now`.
pub open spec fn is_due(e: InflightView, now: i64) -> bool {
    e.deadline_ms != 0 && now >= e.deadline_ms
}

/// The keys `ids[..n]`, as a set.
pub open spec fn key_set(ids: Seq<EnvelopeId>, n: int) -> Set<Seq<char>> {
    Set::new(|k: Seq<char>| exists|j: int| 0 <= j < n && #[trigger] ids[j]@ == k)
}

impl Job {
    /// The ids of the outstanding requests due at `now`, oldest first.
    pub fn due_ids(&self, now: i64) -> (r: Vec<EnvelopeId>)
        ensures
            forall|i: int| 0 <= i < r@.len() ==> self.pending().contains_key(#[trigger] r@[i]@),
            self.wf() ==> forall|i: int| 0 <= i < r@.len() ==> is_due(self.pending()[#[trigger] r@[i]@], now),
            self.wf() ==> forall|k: Seq<char>|
                self.pending().contains_key(k) && is_due(self.pending()[k], now) ==> exists|i: int|
                    0 <= i < r@.len() && (#[trigger] r@[i])@ == k,
    {
        let mut out: Vec<EnvelopeId> = Vec::new();
        let mut i: usize = 0;
        let n = self.inflight.len();
        while i < n
            invariant
                n == self.inflight.order().len(),
                i <= n,
                forall|a: int| 0 <= a < out@.len() ==> self.pending().contains_key(#[trigger] out@[a]@),
                self.wf() ==> forall|a: int| 0 <= a < out@.len() ==> is_due(self.pending()[#[trigger] out@[a]@], now),
                self.wf() ==> forall|j: int|
                    0 <= j < i && is_due(self.pending()[self.inflight.order()[j]], now) ==> exists|a: int|
                        0 <= a < out@.len() && (#[trigger] out@[a])@ == #[trigger] self.inflight.order()[j],
            decreases n - i,
        {
            let (k, e) = self.inflight.entry_at(i);
            if e.deadline_ms != 0 && now >= e.deadline_ms {
                let ghost before = out@;
                out.push(k.clone());
                proof {
                    assert(out@[before.len() as int]@ == k@);
                    assert forall|j: int|
                        0 <= j < i + 1 && self.wf() && is_due(self.pending()[self.inflight.order()[j]], now) implies exists|a: int|
                        0 <= a < out@.len() && (#[trigger] out@[a])@ == self.inflight.order()[j] by {
                        if j < i {
                            let a = choose|a: int| 0 <= a < before.len() && (#[trigger] before[a])@ == self.inflight.order()[j];
                            assert(out@[a] == before[a]);
                        } else {
                            assert(out@[before.len() as int]@ == self.inflight.order()[j]);
                        }
                    }
                }
            }
            i = i + 1;
        }
        proof {
            if self.wf() {
                self.lemma_pending_order();
                assert forall|k: Seq<char>|
                    self.pending().contains_key(k) && is_due(self.pending()[k], now) implies exists|i: int|
                    0 <= i < out@.len() && (#[trigger] out@[i])@ == k by {
                    assert(self.pending_order().contains(k));
                    let j = choose|j: int| 0 <= j < self.inflight.order().len() && self.inflight.order()[j] == k;
                    assert(is_due(self.pending()[self.inflight.order()[j]], now));
                }
            }
        }
        out
    }
}

impl HostIdent {
    /// The host's actor id.
    pub closed spec fn actor(&self) -> Seq<char> {
        self.actor_id@
    }

    /// The host's mailbox.
    pub closed spec fn mailbox(&self) -> InboxHandle {
        self.inbox
    }

    /// The timeout given to each request (0: none).
    pub closed spec fn timeout_ms(&self) -> i64 {
        self.request_timeout_ms
    }
}

impl HostCore {
    /// The host's request registry.
    pub closed spec fn reg(&self) -> Registry {
        self.registry
    }

    /// Whether a stage result is being handled (requests are then deferred).
    pub closed spec fn continuing(&self) -> bool {
        self.in_continuation
    }
}

impl<'a, 'g> JobCtx<'a, 'g> {
    /// The job.
    pub closed spec fn the_job(&self) -> Job {
        *self.job
    }

    /// Who the host is.
    pub closed spec fn the_ident(&self) -> HostIdent {
        *self.ident
    }

    /// The host state.
    pub closed spec fn the_core(&self) -> HostCore {
        *self.core
    }

    /// The bus.
    pub closed spec fn the_bus(&self) -> Bus {
        *self.bus
    }

    /// Whether the host's id generator gives `r` as the segment of `id`.
    pub closed spec fn gen_segment_for(&self, id: Seq<char>, r: Result<String, Error>) -> bool {
        (**self.gen).segment_for(id, r)
    }

    /// Whether the host's clock may show time `t`.
    pub closed spec fn clock_shows(&self, t: i64) -> bool {
        (**self.clock).shows(t)
    }

    /// Whether the job has a finished hook.
    pub closed spec fn has_finished_hook(&self) -> bool {
        *self.on_finished is Some
    }

    /// Runs the begin hook, if any.
    pub fn begin(&mut self, hook: &mut Option<Box<dyn BeginHook>>) -> (r: Result<(), Error>)
        ensures
            *old(hook) is None ==> r is Ok && final(self).the_job() == old(self).the_job()
                && final(self).the_core() == old(self).the_core() && final(self).the_bus() == old(self).the_bus(),
    {
        match hook {
            None => Ok(()),
            Some(h) => h.on_begin(self),
        }
    }

    /// Answers the job's root with `body` on `result_prefix.segment`.
    pub fn reply(&mut self, result_prefix: &str, body: &Value) -> (r: Result<(), Error>)
        ensures
            final(self).the_job() == old(self).the_job(),
            final(self).the_core() == old(self).the_core(),
            final(self).the_bus().subs() == old(self).the_bus().subs(),
            r is Err ==> final(self).the_bus().boxes() == old(self).the_bus().boxes(),
            r is Ok ==> exists|seg: Seq<char>, id: Seq<char>|
                #[trigger] crate::reply::reply_delivered(
                    old(self).the_bus().boxes(),
                    final(self).the_bus().boxes(),
                    old(self).the_bus().subs(),
                    old(self).the_job().root_env(),
                    *body,
                    result_prefix@,
                    old(self).the_ident().actor(),
                    seg,
                    id,
                ),
            r is Ok ==> exists|seg: Seq<char>, id: Seq<char>, s: String|
                #[trigger] crate::reply::reply_delivered(
                    old(self).the_bus().boxes(),
                    final(self).the_bus().boxes(),
                    old(self).the_bus().subs(),
                    old(self).the_job().root_env(),
                    *body,
                    result_prefix@,
                    old(self).the_ident().actor(),
                    seg,
                    id,
                ) && s@ == seg && #[trigger] old(self).gen_segment_for(old(self).the_job().root_env().header.id@, Ok(s)),
            old(self).the_bus().wf() ==> final(self).the_bus().wf(),
    {
        let from = self.ident.actor_id.clone();
        let ghost fv = from@;
        let ghost b0 = self.bus.boxes();
        let ghost s0 = self.bus.subs();
        let r = crate::reply::reply(self.bus, &self.job.root, body, result_prefix, from, &mut **self.gen);
        proof {
            if r is Ok {
                let (seg3, id3, s3) = choose|seg: Seq<char>, id: Seq<char>, s: String|
                    #[trigger] crate::reply::reply_delivered(
                        b0,
                        self.bus.boxes(),
                        s0,
                        self.job.root,
                        *body,
                        result_prefix@,
                        fv,
                        seg,
                        id,
                    ) && s@ == seg && #[trigger] (**old(self).gen).segment_for(self.job.root.header.id@, Ok(s));
                assert(crate::reply::reply_delivered(
                    old(self).the_bus().boxes(),
                    self.the_bus().boxes(),
                    old(self).the_bus().subs(),
                    old(self).the_job().root_env(),
                    *body,
                    result_prefix@,
                    fv,
                    seg3,
                    id3,
                ));
                assert(old(self).gen_segment_for(old(self).the_job().root_env().header.id@, Ok(s3)));
                let (seg, id) = choose|seg: Seq<char>, id: Seq<char>|
                    #[trigger] crate::reply::reply_delivered(
                        b0,
                        self.bus.boxes(),
                        s0,
                        self.job.root,
                        *body,
                        result_prefix@,
                        from@,
                        seg,
                        id,
                    );
                assert(crate::reply::reply_delivered(
                    old(self).the_bus().boxes(),
                    self.the_bus().boxes(),
                    old(self).the_bus().subs(),
                    old(self).the_job().root_env(),
                    *body,
                    result_prefix@,
                    old(self).the_ident().actor(),
                    seg,
                    id,
                ));
            }
        }
        r
    }

    /// Drops every outstanding request: each is timed out and forgotten by
    /// the registry, its result topic unsubscribed.
    fn drop_inflight(job: &mut Job, ident: &HostIdent, core: &mut HostCore, bus: &mut Bus)
        ensures
            final(job).pending() == Map::<Seq<char>, InflightView>::empty(),
            final(job).root_env() == old(job).root_env(),
            final(job).ended() == old(job).ended(),
            final(job).is_done() == old(job).is_done(),
            final(job).waiting() == old(job).waiting(),
            final(job).limit() == old(job).limit(),
            final(job).pending_count() <= old(job).pending_count(),
            old(job).wf() ==> final(job).wf(),
            final(core).reg()@ == old(core).reg()@.remove_keys(
                old(job).pending().dom(),
            ),
            final(core).reg().is_bound() == old(core).reg().is_bound(),
            old(core).reg().wf() ==> final(core).reg().wf(),
            final(core).continuing() == old(core).continuing(),
            final(bus).boxes() == old(bus).boxes(),
            old(bus).wf() ==> final(bus).wf(),
            old(bus).wf() ==> subs_released(
                old(bus).subs(),
                final(bus).subs(),
                old(core).reg()@,
                old(job).pending().dom(),
                ident.mailbox()@,
            ),
    {
        let ids = job.inflight.keys();
        let ghost p0 = job.inflight@;
        let ghost r0 = core.registry@;
        let ghost c0 = job.inflight.order().len();
        let inbox = ident.inbox;
        let mut i: usize = 0;
        proof {
            lemma_released_none(old(bus).subs(), r0, inbox@);
            assert(key_set(ids@, 0) =~= Set::<Seq<char>>::empty());
        }
        assert(p0.remove_keys(key_set(ids@, 0)) =~= p0);
        assert(r0.remove_keys(key_set(ids@, 0)) =~= r0);
        while i < ids.len()
            invariant
                i <= ids@.len(),
                ids@.len() == old(job).inflight.order().len(),
                forall|j: int| 0 <= j < ids@.len() ==> (#[trigger] ids@[j])@ == old(job).inflight.order()[j],
                p0 == old(job).inflight@,
                r0 == old(core).registry@,
                c0 == old(job).inflight.order().len(),
                inbox == ident.inbox,
                job.inflight@ == p0.remove_keys(key_set(ids@, i as int)),
                core.registry@ == r0.remove_keys(key_set(ids@, i as int)),
                job.inflight.order().len() <= c0,
                old(job).inflight.wf() ==> job.inflight.wf(),
                job.root == old(job).root,
                job.finished == old(job).finished,
                job.deferred == old(job).deferred,
                job.max_inflight == old(job).max_inflight,
                job.outcome == old(job).outcome,
                core.registry.is_bound() == old(core).registry.is_bound(),
                old(core).registry.wf() ==> core.registry.wf(),
                core.in_continuation == old(core).in_continuation,
                bus.boxes() == old(bus).boxes(),
                old(bus).wf() ==> bus.wf(),
                old(bus).wf() ==> subs_released(old(bus).subs(), bus.subs(), r0, key_set(ids@, i as int), inbox@),
            decreases ids@.len() - i,
        {
            let id = &ids[i];
            let _ = job.inflight.remove(id);
            match core.registry.state(id) {
                Some(State::Pending) => core.registry.timeout(id),
                _ => {},
            }
            let ghost s_i = bus.subs();
            let ghost reg_i = core.registry@;
            core.registry.finish_safe(bus, &inbox, id);
            proof {
                if old(bus).wf() {
                    let k = ids@[i as int]@;
                    if r0.contains_key(k) {
                        if key_set(ids@, i as int).contains(k) {
                            crate::bus::lemma_gone_within(bus.subs(), s_i, r0[k].expected_topic, inbox@);
                        } else {
                            assert(reg_i.contains_key(k));
                            assert(reg_i[k].expected_topic == r0[k].expected_topic);
                        }
                    }
                    lemma_released_step(old(bus).subs(), s_i, bus.subs(), r0, key_set(ids@, i as int), k, inbox@);
                }
                assert(key_set(ids@, i + 1) =~= key_set(ids@, i as int).insert(ids@[i as int]@)) by {
                    assert forall|k: Seq<char>| key_set(ids@, i + 1).contains(k) implies key_set(ids@, i as int).insert(ids@[i as int]@).contains(k) by {
                        let j = choose|j: int| 0 <= j < i + 1 && #[trigger] ids@[j]@ == k;
                        if j < i {
                            assert(key_set(ids@, i as int).contains(k));
                        }
                    }
                    assert forall|k: Seq<char>| key_set(ids@, i as int).insert(ids@[i as int]@).contains(k) implies key_set(ids@, i + 1).contains(k) by {
                        if k == ids@[i as int]@ {
                            assert(ids@[i as int]@ == k);
                        } else {
                            let j = choose|j: int| 0 <= j < i && #[trigger] ids@[j]@ == k;
                            assert(ids@[j]@ == k);
                        }
                    }
                }
                assert(job.inflight@ =~= p0.remove_keys(key_set(ids@, i + 1)));
                assert(core.registry@ =~= r0.remove_keys(key_set(ids@, i + 1)));
            }
            i = i + 1;
        }
        proof {
            old(job).inflight.lemma_order_dom();
            assert(key_set(ids@, ids@.len() as int) =~= p0.dom()) by {
                assert forall|k: Seq<char>| p0.dom().contains(k) implies key_set(ids@, ids@.len() as int).contains(k) by {
                    assert(old(job).inflight.order().contains(k));
                    let j = choose|j: int| 0 <= j < old(job).inflight.order().len() && old(job).inflight.order()[j] == k;
                    assert(ids@[j]@ == k);
                }
                assert forall|k: Seq<char>| key_set(ids@, ids@.len() as int).contains(k) implies p0.dom().contains(k) by {
                    let j = choose|j: int| 0 <= j < ids@.len() && #[trigger] ids@[j]@ == k;
                    assert(old(job).inflight.order()[j] == k);
                    assert(old(job).inflight.order().contains(k));
                }
            }
            assert(job.inflight@ =~= Map::<Seq<char>, InflightView>::empty());
        }
    }

    /// Finishes the job once: it stops asking, drops what it still awaits,
    /// and runs the finished hook. Finishing a finished job does nothing.
    pub fn finish(&mut self, info: FinishInfo) -> (r: Result<(), Error>)
        ensures
            old(self).the_job().is_done() ==> r is Ok && final(self).the_job() == old(self).the_job()
                && final(self).the_core() == old(self).the_core() && final(self).the_bus() == old(self).the_bus(),
            !old(self).the_job().is_done() ==> {
                &&& final(self).the_job().is_done()
                &&& final(self).the_job().ended() == Some(info@)
                &&& final(self).the_job().pending() == Map::<Seq<char>, InflightView>::empty()
                &&& final(self).the_job().waiting() == Seq::<DeferredView>::empty()
                &&& final(self).the_job().root_env() == old(self).the_job().root_env()
                &&& final(self).the_job().limit() == old(self).the_job().limit()
                &&& old(self).the_job().wf() ==> final(self).the_job().wf()
                &&& final(self).the_core().reg()@ == old(self).the_core().reg()@.remove_keys(
                    old(self).the_job().pending().dom(),
                )
                &&& final(self).the_core().reg().is_bound() == old(self).the_core().reg().is_bound()
                &&& old(self).the_core().reg().wf() ==> final(self).the_core().reg().wf()
                &&& final(self).the_core().continuing() == old(self).the_core().continuing()
                &&& !old(self).has_finished_hook() ==> r is Ok && final(self).the_bus().boxes() == old(
                    self,
                ).the_bus().boxes() && (old(self).the_bus().wf() ==> final(self).the_bus().wf())
                &&& !old(self).has_finished_hook() && old(self).the_bus().wf() ==> subs_released(
                    old(self).the_bus().subs(),
                    final(self).the_bus().subs(),
                    old(self).the_core().reg()@,
                    old(self).the_job().pending().dom(),
                    old(self).the_ident().mailbox()@,
                )
            },
    {
        let ghost had_hook = self.has_finished_hook();
        if self.job.finished {
            return Ok(());
        }
        self.job.finished = true;
        self.job.outcome = Ghost(Some(info@));
        self.job.deferred.clear();
        Self::drop_inflight(self.job, self.ident, self.core, self.bus);
        proof {
            assert(self.job.waiting() =~= Seq::<DeferredView>::empty());
        }
        let mut hook = match self.on_finished.take() {
            None => return Ok(()),
            Some(h) => h,
        };
        assert(had_hook);
        let res = {
            let mut fctx = FinishCtx {
                job: &*self.job,
                actor_id: &self.ident.actor_id,
                bus: &mut *self.bus,
                gen: &mut *self.gen,
            };
            hook.on_finished(&mut fctx, &info)
        };
        *self.on_finished = Some(hook);
        res
    }
}

/// The deadline of a request issued at `now` with timeout `timeout` (0: none).
pub open spec fn deadline_for(now: i64, timeout: i64) -> i64 {
    if timeout == 0 {
        0
    } else {
        sat_add(now, timeout)
    }
}

/// The deadline of a request issued when the clock reads `now`, with
/// timeout `timeout` (0: none).
pub fn deadline_at(now: i64, timeout: i64) -> (d: i64)
    ensures
        d == deadline_for(now, timeout),
{
    if timeout == 0 {
        0
    } else {
        saturating_add_i64(now, timeout)
    }
}

/// A request issued with a positive timeout `timeout` while a hand-driven
/// clock reads `n` (the only time it shows) is not due at `n`, nor at any
/// time before `n + timeout`, and is due from `n + timeout` on.
pub proof fn law_deadline_from_reading(
    c: crate::clock::ManualClock,
    now: i64,
    timeout: i64,
    stage: Seq<char>,
    later: i64,
)
    requires
        crate::clock::Clock::shows(&c, now),
        timeout > 0,
        c.reading() + timeout <= i64::MAX,
    ensures
        now == c.reading(),
        deadline_for(now, timeout) == c.reading() + timeout,
        !is_due(InflightView { stage, deadline_ms: deadline_for(now, timeout) }, c.reading()),
        is_due(InflightView { stage, deadline_ms: deadline_for(now, timeout) }, later) <==> (later >= c.reading()
            + timeout && c.reading() + timeout != 0),
{
}

/// Without a timeout a request gets no deadline, and a request without a
/// deadline is never due, whatever the clock reads.
pub proof fn law_no_timeout_never_due(issued_at: i64, stage: Seq<char>, now: i64)
    ensures
        deadline_for(issued_at, 0) == 0,
        !is_due(InflightView { stage, deadline_ms: deadline_for(issued_at, 0) }, now),
{
}

/// The host mailbox `inbox` gave up the result subscription of every
/// request of `ks` that registry `reg0` held, and no other subscription
/// appeared (`s0` to `s1`).
pub open spec fn subs_released(
    s0: Seq<crate::bus::subscriptions::SubView>,
    s1: Seq<crate::bus::subscriptions::SubView>,
    reg0: Map<Seq<char>, crate::registry::EntryView>,
    ks: Set<Seq<char>>,
    inbox: u64,
) -> bool {
    &&& crate::bus::subs_within(s1, s0)
    &&& forall|k: Seq<char>|
        ks.contains(k) && #[trigger] reg0.contains_key(k) ==> crate::bus::sub_gone(s1, reg0[k].expected_topic, inbox)
}

/// Releasing nothing keeps the table.
pub proof fn lemma_released_none(
    s: Seq<crate::bus::subscriptions::SubView>,
    reg0: Map<Seq<char>, crate::registry::EntryView>,
    inbox: u64,
)
    ensures
        subs_released(s, s, reg0, Set::empty(), inbox),
{
    assert forall|i: int| 0 <= i < s.len() implies s.contains(#[trigger] s[i]) by {}
}

/// Releasing `ks`, then one more request `k` whose entry in `reg_mid` has
/// the topic it had in `reg0`, releases `ks` with `k`.
pub proof fn lemma_released_step(
    s0: Seq<crate::bus::subscriptions::SubView>,
    s1: Seq<crate::bus::subscriptions::SubView>,
    s2: Seq<crate::bus::subscriptions::SubView>,
    reg0: Map<Seq<char>, crate::registry::EntryView>,
    ks: Set<Seq<char>>,
    k: Seq<char>,
    inbox: u64,
)
    requires
        subs_released(s0, s1, reg0, ks, inbox),
        crate::bus::subs_within(s2, s1),
        reg0.contains_key(k) ==> crate::bus::sub_gone(s2, reg0[k].expected_topic, inbox),
    ensures
        subs_released(s0, s2, reg0, ks.insert(k), inbox),
{
    crate::bus::lemma_within_trans(s2, s1, s0);
    assert forall|x: Seq<char>|
        ks.insert(k).contains(x) && #[trigger] reg0.contains_key(x) implies crate::bus::sub_gone(
        s2,
        reg0[x].expected_topic,
        inbox,
    ) by {
        if x != k {
            crate::bus::lemma_gone_within(s2, s1, reg0[x].expected_topic, inbox);
        }
    }
}

/// The continuation flag is the same.
pub open spec fn core_kept(a: HostCore, b: HostCore) -> bool {
    a.continuing() == b.continuing()
}

/// The job's root, finish flag, waiting requests and limit are the same.
pub open spec fn job_kept(a: Job, b: Job) -> bool {
    &&& a.root_env() == b.root_env()
    &&& a.is_done() == b.is_done()
    &&& a.waiting() == b.waiting()
    &&& a.limit() == b.limit()
}

/// The registry either stayed or lost one request.
pub open spec fn reg_kept_or_lost(a: Map<Seq<char>, crate::registry::EntryView>, b: Map<Seq<char>, crate::registry::EntryView>) -> bool {
    a == b || exists|k: Seq<char>| a == b.remove(k)
}

impl<'a, 'g> JobCtx<'a, 'g> {
    /// Issues a request now: registers it, subscribes to its result topic,
    /// publishes it and records it as outstanding with its deadline.
    fn issue<G: IdGen + ?Sized, C: Clock + ?Sized>(
        job: &mut Job,
        ident: &HostIdent,
        core: &mut HostCore,
        bus: &mut Bus,
        gen: &mut G,
        clock: &C,
        spec: RequestSpec,
        request_id: Option<EnvelopeId>,
    ) -> (r: Result<EnvelopeId, Error>)
        ensures
            job_kept(*final(job), *old(job)),
            core_kept(*final(core), *old(core)),
            old(job).wf() ==> final(job).wf(),
            old(core).reg().wf() ==> final(core).reg().wf(),
            old(core).reg().is_bound() ==> final(core).reg().is_bound(),
            old(bus).wf() ==> final(bus).wf(),
            old(job).is_done() ==> (r matches Err(Error::State(m)) && m@ == "job not requestable"@)
                && *final(job) == *old(job) && *final(core) == *old(core) && *final(bus) == *old(bus),
            !old(job).is_done() && old(job).pending_count() >= old(job).limit() ==> r == Err::<EnvelopeId, Error>(
                Error::MaxInflight,
            ) && *final(job) == *old(job) && *final(core) == *old(core) && *final(bus) == *old(bus),
            !old(job).is_done() && old(job).pending_count() < old(job).limit() ==> match r {
                Ok(id) => {
                    &&& exists|now: i64|
                        (ident.timeout_ms() != 0 ==> clock.shows(now)) && final(job).pending() == old(job).pending().insert(
                            id@,
                            InflightView { stage: spec.stage@, deadline_ms: #[trigger] deadline_for(now, ident.timeout_ms()) },
                        )
                    &&& final(job).pending_count() <= old(job).pending_count() + 1
                    &&& final(core).reg()@ == old(core).reg()@.insert(
                        id@,
                        pending_entry(final(core).reg()@[id@].expected_topic, old(job).root_env().header.cause@),
                    )
                    &&& request_id matches Some(q) ==> id@ == q@
                    &&& exists|seg: Seq<char>, req: EnvelopeView|
                        #[trigger] crate::registry::issued(
                            old(core).reg()@,
                            final(core).reg()@,
                            old(bus).boxes(),
                            old(bus).subs(),
                            final(bus).boxes(),
                            final(bus).subs(),
                            ident.mailbox()@,
                            spec.request_prefix@,
                            spec.result_prefix@,
                            old(job).root_env().header.cause@,
                            seg,
                            req,
                        ) && req.header.id == id@ && req.header.from == ident.actor() && req.payload == deep(
                            spec.payload,
                        )
                },
                Err(_) => final(job).pending() == old(job).pending() && final(job).pending_count()
                    == old(job).pending_count() && reg_kept_or_lost(final(core).reg()@, old(core).reg()@)
                    && final(bus).boxes() == old(bus).boxes(),
            },
    {
        match job.ensure_requestable() {
            Err(e) => return Err(e),
            Ok(()) => {},
        }
        if job.inflight.len() >= job.max_inflight {
            return Err(Error::MaxInflight);
        }
        let ghost params_rp = spec.request_prefix@;
        let ghost params_xp = spec.result_prefix@;
        let params = StartParams {
            request_prefix: spec.request_prefix,
            result_prefix: spec.result_prefix,
            payload: spec.payload,
            from: ident.actor_id.clone(),
            cause: job.root.header.cause.clone(),
            request_id,
        };
        let inbox = ident.inbox;
        let child = match core.registry.start_request(bus, &inbox, gen, params) {
            Err(e) => return Err(e),
            Ok(c) => c,
        };
        let timeout = ident.request_timeout_ms;
        let now = if timeout == 0 {
            0
        } else {
            clock.now_ms()
        };
        let deadline = deadline_at(now, timeout);
        assert(deadline == deadline_for(now, ident.timeout_ms()));
        let child_id = child.header.id.clone();
        proof {
            let seg = choose|seg: Seq<char>|
                #[trigger] crate::registry::issued(
                    old(core).reg()@,
                    core.reg()@,
                    old(bus).boxes(),
                    old(bus).subs(),
                    bus.boxes(),
                    bus.subs(),
                    inbox@,
                    params_rp,
                    params_xp,
                    old(job).root_env().header.cause@,
                    seg,
                    child@,
                );
            assert(crate::registry::issued(
                old(core).reg()@,
                core.reg()@,
                old(bus).boxes(),
                old(bus).subs(),
                bus.boxes(),
                bus.subs(),
                ident.mailbox()@,
                params_rp,
                params_xp,
                old(job).root_env().header.cause@,
                seg,
                child@,
            ));
        }
        job.inflight.insert(child.header.id, Inflight { stage: spec.stage, deadline_ms: deadline });
        Ok(child_id)
    }

    /// Promises a request: it gets its id now and is issued once the stage
    /// result being handled has been dealt with.
    fn defer<G: IdGen + ?Sized>(job: &mut Job, gen: &mut G, spec: RequestSpec) -> (r: Result<EnvelopeId, Error>)
        ensures
            final(job).root_env() == old(job).root_env(),
            final(job).is_done() == old(job).is_done(),
            final(job).limit() == old(job).limit(),
            final(job).pending() == old(job).pending(),
            final(job).pending_count() == old(job).pending_count(),
            old(job).wf() ==> final(job).wf(),
            old(job).is_done() ==> (r matches Err(Error::State(m)) && m@ == "job not requestable"@)
                && *final(job) == *old(job),
            !old(job).is_done() && old(job).pending_count() + old(job).waiting().len() >= old(job).limit()
                ==> r == Err::<EnvelopeId, Error>(Error::MaxInflight) && *final(job) == *old(job),
            !old(job).is_done() && old(job).pending_count() + old(job).waiting().len() < old(job).limit()
                ==> (r matches Ok(id) && final(job).waiting() == old(job).waiting().push(
                DeferredView {
                    stage: spec.stage@,
                    request_prefix: spec.request_prefix@,
                    result_prefix: spec.result_prefix@,
                    payload: deep(spec.payload),
                    request_id: id@,
                },
            )),
    {
        match job.ensure_requestable() {
            Err(e) => return Err(e),
            Ok(()) => {},
        }
        let n = job.inflight.len();
        let w = job.deferred.len();
        let m = job.max_inflight;
        if n >= m || w >= m - n {
            return Err(Error::MaxInflight);
        }
        let eid = gen.next_envelope_id();
        let ghost d0 = job.deferred@;
        job.deferred.push_back(
            Deferred {
                stage: spec.stage,
                request_prefix: spec.request_prefix,
                result_prefix: spec.result_prefix,
                payload: spec.payload,
                request_id: eid.clone(),
            },
        );
        assert(deferred_view(job.deferred@) =~= deferred_view(d0).push(job.deferred@.last()@));
        Ok(eid)
    }

    /// Asks another actor: at once, or, while a stage result is being
    /// handled, once that handling is over (the id is given now either way).
    pub fn request(&mut self, spec: RequestSpec) -> (r: Result<EnvelopeId, Error>)
        ensures
            old(self).the_job().is_done() ==> (r matches Err(Error::State(m)) && m@ == "job not requestable"@)
                && final(self).the_job() == old(self).the_job() && final(self).the_core() == old(self).the_core()
                && final(self).the_bus() == old(self).the_bus(),
            old(self).the_core().continuing() ==> {
                &&& final(self).the_core() == old(self).the_core()
                &&& final(self).the_bus() == old(self).the_bus()
                &&& final(self).the_job().pending() == old(self).the_job().pending()
                &&& !old(self).the_job().is_done() && old(self).the_job().pending_count()
                    + old(self).the_job().waiting().len() >= old(self).the_job().limit() ==> r
                    == Err::<EnvelopeId, Error>(Error::MaxInflight) && final(self).the_job() == old(self).the_job()
                &&& !old(self).the_job().is_done() && old(self).the_job().pending_count()
                    + old(self).the_job().waiting().len() < old(self).the_job().limit() ==> (r matches Ok(id)
                    && final(self).the_job().waiting() == old(self).the_job().waiting().push(
                    DeferredView {
                        stage: spec.stage@,
                        request_prefix: spec.request_prefix@,
                        result_prefix: spec.result_prefix@,
                        payload: deep(spec.payload),
                        request_id: id@,
                    },
                ))
            },
            !old(self).the_core().continuing() ==> {
                &&& job_kept(final(self).the_job(), old(self).the_job())
                &&& core_kept(final(self).the_core(), old(self).the_core())
                &&& !old(self).the_job().is_done() && old(self).the_job().pending_count()
                    >= old(self).the_job().limit() ==> r == Err::<EnvelopeId, Error>(Error::MaxInflight)
                &&& !old(self).the_job().is_done() && old(self).the_job().pending_count()
                    >= old(self).the_job().limit() ==> final(self).the_job() == old(self).the_job()
                    && final(self).the_core() == old(self).the_core() && final(self).the_bus() == old(self).the_bus()
                &&& r matches Ok(id) ==> exists|now: i64|
                    (old(self).the_ident().timeout_ms() != 0 ==> old(self).clock_shows(now))
                        && final(self).the_job().pending().contains_key(id@)
                        && final(self).the_job().pending()[id@].deadline_ms == #[trigger] deadline_for(
                        now,
                        old(self).the_ident().timeout_ms(),
                    )
                &&& r matches Ok(id) ==> final(self).the_job().pending().contains_key(id@)
                    && final(self).the_job().pending()[id@].stage == spec.stage@
                    && final(self).the_core().reg()@.contains_key(id@)
                    && final(self).the_core().reg()@[id@].state == State::Pending
                &&& r matches Ok(id) ==> exists|seg: Seq<char>, req: EnvelopeView|
                    #[trigger] crate::registry::issued(
                        old(self).the_core().reg()@,
                        final(self).the_core().reg()@,
                        old(self).the_bus().boxes(),
                        old(self).the_bus().subs(),
                        final(self).the_bus().boxes(),
                        final(self).the_bus().subs(),
                        old(self).the_ident().mailbox()@,
                        spec.request_prefix@,
                        spec.result_prefix@,
                        old(self).the_job().root_env().header.cause@,
                        seg,
                        req,
                    ) && req.header.id == id@ && req.header.from == old(self).the_ident().actor() && req.payload
                        == deep(spec.payload)
                &&& r is Err ==> final(self).the_bus().boxes() == old(self).the_bus().boxes()
            },
            old(self).the_job().wf() ==> final(self).the_job().wf(),
            old(self).the_core().reg().wf() ==> final(self).the_core().reg().wf(),
            old(self).the_bus().wf() ==> final(self).the_bus().wf(),
    {
        if self.core.in_continuation {
            Self::defer(self.job, &mut **self.gen, spec)
        } else {
            let ghost stage = spec.stage@;
            let ghost rp = spec.request_prefix@;
            let ghost xp = spec.result_prefix@;
            let ghost pl = deep(spec.payload);
            let r = Self::issue(self.job, self.ident, self.core, self.bus, &mut **self.gen, &**self.clock, spec, None);
            proof {
                if r is Ok {
                    let id = r->Ok_0;
                    let (seg, req) = choose|seg: Seq<char>, req: EnvelopeView|
                        #[trigger] crate::registry::issued(
                            old(self).the_core().reg()@,
                            self.core.reg()@,
                            old(self).the_bus().boxes(),
                            old(self).the_bus().subs(),
                            self.bus.boxes(),
                            self.bus.subs(),
                            self.ident.mailbox()@,
                            rp,
                            xp,
                            old(self).the_job().root_env().header.cause@,
                            seg,
                            req,
                        ) && req.header.id == id@ && req.header.from == self.ident.actor() && req.payload == pl;
                    assert(crate::registry::issued(
                        old(self).the_core().reg()@,
                        self.the_core().reg()@,
                        old(self).the_bus().boxes(),
                        old(self).the_bus().subs(),
                        self.the_bus().boxes(),
                        self.the_bus().subs(),
                        old(self).the_ident().mailbox()@,
                        rp,
                        xp,
                        old(self).the_job().root_env().header.cause@,
                        seg,
                        req,
                    ));
                    if !old(self).the_job().is_done() && old(self).the_job().pending_count() < old(self).the_job().limit() {
                        let now = choose|now: i64|
                            (self.ident.timeout_ms() != 0 ==> (**self.clock).shows(now))
                                && self.job.pending() == old(self).the_job().pending().insert(
                                id@,
                                InflightView { stage, deadline_ms: #[trigger] deadline_for(now, old(self).the_ident().timeout_ms()) },
                            );
                        assert(self.job.pending()[id@].stage == stage);
                        assert(self.job.pending()[id@].deadline_ms == deadline_for(now, old(self).the_ident().timeout_ms()));
                    }
                }
            }
            r
        }
    }
}

/// The deferred requests `ws` were issued one after another, in order:
/// the registry went through `regs`, the mailboxes through `bxs` and the
/// subscriptions through `sbs`, step `i` issuing `ws[i]` under its promised
/// id, from `from`, with cause `cause`, subscribing mailbox `inbox`.
pub open spec fn issued_in_order(
    regs: Seq<Map<Seq<char>, crate::registry::EntryView>>,
    bxs: Seq<Seq<crate::inbox::Inbox>>,
    sbs: Seq<Seq<crate::bus::subscriptions::SubView>>,
    inbox: u64,
    from: Seq<char>,
    cause: Seq<char>,
    ws: Seq<DeferredView>,
) -> bool {
    &&& regs.len() == ws.len() + 1
    &&& bxs.len() == ws.len() + 1
    &&& sbs.len() == ws.len() + 1
    &&& forall|i: int|
        #![trigger ws[i]]
        0 <= i < ws.len() ==> exists|seg: Seq<char>, req: EnvelopeView|
            #[trigger] crate::registry::issued(
                regs[i],
                regs[i + 1],
                bxs[i],
                sbs[i],
                bxs[i + 1],
                sbs[i + 1],
                inbox,
                ws[i].request_prefix,
                ws[i].result_prefix,
                cause,
                seg,
                req,
            ) && req.header.id == ws[i].request_id && req.header.from == from && req.payload == ws[i].payload
}

impl<'a, 'g> JobCtx<'a, 'g> {
    /// Issues the deferred requests in order, under the ids they were
    /// promised, until none is left or the job has finished.
    pub(crate) fn flush_deferred<G: IdGen + ?Sized, C: Clock + ?Sized>(
        job: &mut Job,
        ident: &HostIdent,
        core: &mut HostCore,
        bus: &mut Bus,
        gen: &mut G,
        clock: &C,
    ) -> (r: Result<(), Error>)
        ensures
            r is Ok ==> final(job).waiting().len() == 0 || final(job).is_done(),
            final(job).root_env() == old(job).root_env(),
            final(job).is_done() == old(job).is_done(),
            final(job).limit() == old(job).limit(),
            final(job).waiting().len() <= old(job).waiting().len(),
            old(job).waiting().len() == 0 || old(job).is_done() ==> r is Ok && *final(job) == *old(job)
                && *final(core) == *old(core) && *final(bus) == *old(bus),
            core_kept(*final(core), *old(core)),
            old(job).wf() ==> final(job).wf(),
            old(core).reg().wf() ==> final(core).reg().wf(),
            old(bus).wf() ==> final(bus).wf(),
            r is Ok ==> forall|k: Seq<char>| old(job).pending().contains_key(k) ==> #[trigger] final(job).pending().contains_key(k),
            r is Ok && !old(job).is_done() ==> forall|i: int|
                0 <= i < old(job).waiting().len() ==> final(job).pending().contains_key(
                    #[trigger] old(job).waiting()[i].request_id,
                ),
            r is Ok && !old(job).is_done() ==> exists|
                regs: Seq<Map<Seq<char>, crate::registry::EntryView>>,
                bxs: Seq<Seq<crate::inbox::Inbox>>,
                sbs: Seq<Seq<crate::bus::subscriptions::SubView>>,
            |
                #[trigger] issued_in_order(
                    regs,
                    bxs,
                    sbs,
                    ident.mailbox()@,
                    ident.actor(),
                    old(job).root_env().header.cause@,
                    old(job).waiting(),
                ) && regs[0] == old(core).reg()@ && regs.last() == final(core).reg()@
                    && bxs[0] == old(bus).boxes() && bxs.last() == final(bus).boxes()
                    && sbs[0] == old(bus).subs() && sbs.last() == final(bus).subs(),
    {
        if job.deferred.len() == 0 || job.finished {
            proof {
                if !old(job).is_done() {
                    let regs = seq![core.reg()@];
                    let bxs = seq![bus.boxes()];
                    let sbs = seq![bus.subs()];
                    assert(issued_in_order(
                        regs,
                        bxs,
                        sbs,
                        ident.mailbox()@,
                        ident.actor(),
                        old(job).root_env().header.cause@,
                        old(job).waiting(),
                    ));
                }
            }
            return Ok(());
        }
        let ghost w0 = job.waiting();
        let ghost n: int = 0;
        let ghost mut regs = seq![core.reg()@];
        let ghost mut bxs = seq![bus.boxes()];
        let ghost mut sbs = seq![bus.subs()];
        assert(w0.skip(0) =~= w0);
        assert(w0.take(0) =~= Seq::<DeferredView>::empty());
        while job.deferred.len() > 0 && !job.finished
            invariant
                w0 == old(job).waiting(),
                !job.finished,
                0 <= n <= w0.len(),
                issued_in_order(regs, bxs, sbs, ident.mailbox()@, ident.actor(), job.root_env().header.cause@, w0.take(n)),
                regs[0] == old(core).reg()@,
                regs.last() == core.reg()@,
                bxs[0] == old(bus).boxes(),
                bxs.last() == bus.boxes(),
                sbs[0] == old(bus).subs(),
                sbs.last() == bus.subs(),
                job.waiting() == w0.skip(n),
                forall|i: int| 0 <= i < n ==> job.pending().contains_key(#[trigger] w0[i].request_id),
                forall|k: Seq<char>| old(job).pending().contains_key(k) ==> #[trigger] job.pending().contains_key(k),
                job.root == old(job).root,
                job.finished == old(job).finished,
                job.max_inflight == old(job).max_inflight,
                job.deferred@.len() <= old(job).deferred@.len(),
                core_kept(*core, *old(core)),
                old(job).wf() ==> job.wf(),
                old(core).reg().wf() ==> core.reg().wf(),
                old(bus).wf() ==> bus.wf(),
            decreases job.deferred@.len(),
        {
            let ghost d0 = job.deferred@;
            let ghost p0 = job.pending();
            assert forall|k: Seq<char>| old(job).pending().contains_key(k) implies #[trigger] p0.contains_key(k) by {
                assert(job.pending().contains_key(k));
            }
            let nxt = match job.deferred.pop_front() {
                Some(d) => d,
                None => {
                    return Ok(());
                },
            };
            proof {
                assert(deferred_view(job.deferred@) =~= deferred_view(d0).drop_first());
                assert(nxt@ == deferred_view(d0)[0]);
                assert(w0.skip(n)[0] == w0[n]);
                assert(w0.skip(n).drop_first() =~= w0.skip(n + 1));
            }
            let ghost q = nxt.request_id@;
            let spec = RequestSpec {
                stage: nxt.stage,
                request_prefix: nxt.request_prefix,
                result_prefix: nxt.result_prefix,
                payload: nxt.payload,
            };
            let ghost d1 = job.deferred@;
            let ghost p1 = job.pending();
            let ghost reg_b = core.reg()@;
            let ghost bx_b = bus.boxes();
            let ghost sb_b = bus.subs();
            let ghost wn = w0[n];
            assert(p1 == p0);
            let res = Self::issue(job, ident, core, bus, gen, clock, spec, Some(nxt.request_id));
            match res {
                Err(e) => return Err(e),
                Ok(id) => {
                    proof {
                        let (seg, req) = choose|seg: Seq<char>, req: EnvelopeView|
                            #[trigger] crate::registry::issued(
                                reg_b,
                                core.reg()@,
                                bx_b,
                                sb_b,
                                bus.boxes(),
                                bus.subs(),
                                ident.mailbox()@,
                                wn.request_prefix,
                                wn.result_prefix,
                                job.root_env().header.cause@,
                                seg,
                                req,
                            ) && req.header.id == id@ && req.header.from == ident.actor() && req.payload
                                == wn.payload;
                        let regs2 = regs.push(core.reg()@);
                        let bxs2 = bxs.push(bus.boxes());
                        let sbs2 = sbs.push(bus.subs());
                        let ws2 = w0.take(n + 1);
                        assert(ws2 =~= w0.take(n).push(wn));
                        assert forall|i: int| #![trigger ws2[i]] 0 <= i < ws2.len() implies exists|seg: Seq<char>, req: EnvelopeView|
                            #[trigger] crate::registry::issued(
                                regs2[i],
                                regs2[i + 1],
                                bxs2[i],
                                sbs2[i],
                                bxs2[i + 1],
                                sbs2[i + 1],
                                ident.mailbox()@,
                                ws2[i].request_prefix,
                                ws2[i].result_prefix,
                                job.root_env().header.cause@,
                                seg,
                                req,
                            ) && req.header.id == ws2[i].request_id && req.header.from == ident.actor()
                                && req.payload == ws2[i].payload by {
                            if i < n {
                                assert(regs2[i] == regs[i] && regs2[i + 1] == regs[i + 1]);
                                assert(bxs2[i] == bxs[i] && bxs2[i + 1] == bxs[i + 1]);
                                assert(sbs2[i] == sbs[i] && sbs2[i + 1] == sbs[i + 1]);
                                assert(ws2[i] == w0.take(n)[i]);
                            } else {
                                assert(crate::registry::issued(
                                    regs2[i],
                                    regs2[i + 1],
                                    bxs2[i],
                                    sbs2[i],
                                    bxs2[i + 1],
                                    sbs2[i + 1],
                                    ident.mailbox()@,
                                    ws2[i].request_prefix,
                                    ws2[i].result_prefix,
                                    job.root_env().header.cause@,
                                    seg,
                                    req,
                                ));
                            }
                        }
                        regs = regs2;
                        bxs = bxs2;
                        sbs = sbs2;
                        assert(id@ == q);
                        let now = choose|now: i64|
                            job.pending() == p1.insert(
                                id@,
                                InflightView { stage: job.pending()[id@].stage, deadline_ms: #[trigger] deadline_for(now, ident.timeout_ms()) },
                            );
                        assert(job.pending().contains_key(q));
                        assert forall|k: Seq<char>| old(job).pending().contains_key(k) implies #[trigger] job.pending().contains_key(k) by {
                            assert(p1.contains_key(k));
                        }
                        assert forall|i: int| 0 <= i < n + 1 implies job.pending().contains_key(#[trigger] w0[i].request_id) by {
                            if i < n {
                                assert(p1.contains_key(w0[i].request_id));
                            }
                        }
                        n = n + 1;
                    }
                },
            }
            assert(deferred_view(job.deferred@).len() == deferred_view(d1).len());
            assert(job.deferred@.len() == d1.len());
        }
        Ok(())
    }

    /// Hands a stage result to the stage hook, with requests deferred
    /// meanwhile, then issues what was deferred.
    pub(crate) fn emit(&mut self, stage: &str, body: &Value, hook: &mut Option<Box<dyn StageHook>>) -> (r: Result<(), Error>)
        ensures
            final(self).the_core().continuing() == old(self).the_core().continuing(),
            *old(hook) is None ==> {
                &&& *final(hook) is None
                &&& final(self).the_ident() == old(self).the_ident()
                &&& final(self).the_job().root_env() == old(self).the_job().root_env()
                &&& final(self).the_job().is_done() == old(self).the_job().is_done()
                &&& final(self).the_job().limit() == old(self).the_job().limit()
                &&& old(self).the_job().wf() ==> final(self).the_job().wf()
                &&& r is Ok ==> final(self).the_job().waiting().len() == 0 || final(self).the_job().is_done()
                &&& r is Ok && !old(self).the_job().is_done() ==> forall|i: int|
                    0 <= i < old(self).the_job().waiting().len() ==> final(self).the_job().pending().contains_key(
                        #[trigger] old(self).the_job().waiting()[i].request_id,
                    )
                &&& old(self).the_job().waiting().len() == 0 || old(self).the_job().is_done() ==> r is Ok
                    && final(self).the_job() == old(self).the_job() && final(self).the_core() == old(
                    self,
                ).the_core() && final(self).the_bus() == old(self).the_bus()
                &&& r is Ok && !old(self).the_job().is_done() ==> exists|
                    regs: Seq<Map<Seq<char>, crate::registry::EntryView>>,
                    bxs: Seq<Seq<crate::inbox::Inbox>>,
                    sbs: Seq<Seq<crate::bus::subscriptions::SubView>>,
                |
                    #[trigger] issued_in_order(
                        regs,
                        bxs,
                        sbs,
                        old(self).the_ident().mailbox()@,
                        old(self).the_ident().actor(),
                        old(self).the_job().root_env().header.cause@,
                        old(self).the_job().waiting(),
                    ) && regs[0] == old(self).the_core().reg()@ && regs.last() == final(self).the_core().reg()@
                        && bxs[0] == old(self).the_bus().boxes() && bxs.last() == final(self).the_bus().boxes()
                        && sbs[0] == old(self).the_bus().subs() && sbs.last() == final(self).the_bus().subs()
            },
    {
        let ghost hook_none = *hook is None;
        let prev = self.core.in_continuation;
        self.core.in_continuation = true;
        let res = match hook {
            None => Ok(()),
            Some(h) => h.on_stage_result(self, stage, body),
        };
        let ghost reg0 = self.core.reg()@;
        let ghost w0 = self.job.waiting();
        let ghost done0 = self.job.is_done();
        let ghost cause0 = self.job.root_env().header.cause@;
        let ghost bx0 = self.bus.boxes();
        let ghost sb0 = self.bus.subs();
        let res = match res {
            Err(e) => Err(e),
            Ok(()) => Self::flush_deferred(self.job, self.ident, self.core, self.bus, &mut **self.gen, &**self.clock),
        };
        self.core.in_continuation = prev;
        proof {
            if hook_none && res is Ok && !done0 {
                let (regs, bxs, sbs) = choose|
                    regs: Seq<Map<Seq<char>, crate::registry::EntryView>>,
                    bxs: Seq<Seq<crate::inbox::Inbox>>,
                    sbs: Seq<Seq<crate::bus::subscriptions::SubView>>,
                |
                    #[trigger] issued_in_order(regs, bxs, sbs, self.ident.mailbox()@, self.ident.actor(), cause0, w0)
                        && regs[0] == reg0 && regs.last() == self.core.reg()@ && bxs[0] == bx0 && bxs.last()
                        == self.bus.boxes() && sbs[0] == sb0 && sbs.last() == self.bus.subs();
                assert(issued_in_order(
                    regs,
                    bxs,
                    sbs,
                    old(self).the_ident().mailbox()@,
                    old(self).the_ident().actor(),
                    old(self).the_job().root_env().header.cause@,
                    old(self).the_job().waiting(),
                ));
            }
        }
        res
    }

    /// Forgets outstanding request `child_id` (its result has come): the
    /// job no longer awaits it and the registry drops it. Gives the stage
    /// to run when the job awaited it and has not finished.
    pub(crate) fn settle_child(job: &mut Job, ident: &HostIdent, core: &mut HostCore, bus: &mut Bus, child_id: &EnvelopeId) -> (r: Option<String>)
        ensures
            final(job).pending() == old(job).pending().remove(child_id@),
            job_kept(*final(job), *old(job)),
            final(job).pending_count() <= old(job).pending_count(),
            old(job).wf() ==> final(job).wf(),
            final(core).reg()@ == old(core).reg()@.remove(child_id@),
            core_kept(*final(core), *old(core)),
            final(core).reg().is_bound() == old(core).reg().is_bound(),
            old(core).reg().wf() ==> final(core).reg().wf(),
            final(bus).boxes() == old(bus).boxes(),
            old(bus).wf() ==> final(bus).wf(),
            r is Some <==> old(job).pending().contains_key(child_id@) && !old(job).is_done(),
            r matches Some(st) ==> st@ == old(job).pending()[child_id@].stage,
            old(bus).wf() ==> subs_released(
                old(bus).subs(),
                final(bus).subs(),
                old(core).reg()@,
                Set::empty().insert(child_id@),
                ident.mailbox()@,
            ),
    {
        proof {
            lemma_released_none(old(bus).subs(), old(core).reg()@, ident.mailbox()@);
        }
        let entry = job.inflight.remove(child_id);
        let inbox = ident.inbox;
        core.registry.finish_safe(bus, &inbox, child_id);
        proof {
            if old(bus).wf() {
                lemma_released_step(
                    old(bus).subs(),
                    old(bus).subs(),
                    bus.subs(),
                    old(core).reg()@,
                    Set::empty(),
                    child_id@,
                    ident.mailbox()@,
                );
            }
        }
        match entry {
            None => None,
            Some(e) => if job.finished {
                None
            } else {
                Some(e.stage)
            },
        }
    }

    /// Takes the result `env` of one of the job's requests: the request is
    /// forgotten, and, if the job awaited it and is not finished, its stage
    /// runs with the result body.
    pub fn deliver_child_result(&mut self, env: &Envelope, hook: &mut Option<Box<dyn StageHook>>) -> (r: Result<(), Error>)
        ensures
            spec_request_id(*env) is None || spec_result_body(*env) is None ==> r is Ok && final(self).the_job()
                == old(self).the_job() && final(self).the_core() == old(self).the_core() && final(self).the_bus()
                == old(self).the_bus(),
            match spec_request_id(*env) {
                Some(k) => spec_result_body(*env) is Some && (!old(self).the_job().pending().contains_key(k)
                    || old(self).the_job().is_done()) ==> {
                    &&& r is Ok
                    &&& final(self).the_job().pending() == old(self).the_job().pending().remove(k)
                    &&& job_kept(final(self).the_job(), old(self).the_job())
                    &&& final(self).the_core().reg()@ == old(self).the_core().reg()@.remove(k)
                    &&& core_kept(final(self).the_core(), old(self).the_core())
                    &&& final(self).the_bus().boxes() == old(self).the_bus().boxes()
                    &&& old(self).the_bus().wf() ==> subs_released(
                        old(self).the_bus().subs(),
                        final(self).the_bus().subs(),
                        old(self).the_core().reg()@,
                        Set::empty().insert(k),
                        old(self).the_ident().mailbox()@,
                    )
                },
                None => true,
            },
            match spec_request_id(*env) {
                Some(k) => spec_result_body(*env) is Some && old(self).the_job().pending().contains_key(k)
                    && !old(self).the_job().is_done() && *old(hook) is None ==> {
                    &&& *final(hook) is None
                    &&& final(self).the_job().root_env() == old(self).the_job().root_env()
                    &&& final(self).the_job().is_done() == old(self).the_job().is_done()
                    &&& final(self).the_job().limit() == old(self).the_job().limit()
                    &&& old(self).the_job().wf() ==> final(self).the_job().wf()
                    &&& old(self).the_job().waiting().len() == 0 ==> {
                        &&& r is Ok
                        &&& final(self).the_job().pending() == old(self).the_job().pending().remove(k)
                        &&& job_kept(final(self).the_job(), old(self).the_job())
                        &&& final(self).the_core().reg()@ == old(self).the_core().reg()@.remove(k)
                        &&& final(self).the_bus().boxes() == old(self).the_bus().boxes()
                        &&& old(self).the_bus().wf() ==> subs_released(
                            old(self).the_bus().subs(),
                            final(self).the_bus().subs(),
                            old(self).the_core().reg()@,
                            Set::empty().insert(k),
                            old(self).the_ident().mailbox()@,
                        )
                    }
                    &&& r is Ok ==> final(self).the_job().waiting().len() == 0 && forall|i: int|
                        0 <= i < old(self).the_job().waiting().len() ==> final(self).the_job().pending().contains_key(
                            #[trigger] old(self).the_job().waiting()[i].request_id,
                        )
                },
                None => true,
            },
            final(self).the_core().continuing() == old(self).the_core().continuing(),
    {
        let child_id = match result_request_id(env) {
            None => return Ok(()),
            Some(c) => c,
        };
        let body = match result_body(env) {
            None => return Ok(()),
            Some(b) => b,
        };
        match Self::settle_child(self.job, self.ident, self.core, self.bus, &child_id) {
            None => Ok(()),
            Some(stage) => self.emit(stage.as_str(), body, hook),
        }
    }

    /// Times out outstanding request `id`: the job no longer awaits it and
    /// the registry drops it. Gives its stage when the job has not finished.
    fn expire_one(job: &mut Job, ident: &HostIdent, core: &mut HostCore, bus: &mut Bus, id: &EnvelopeId) -> (r: Option<String>)
        ensures
            !old(job).pending().contains_key(id@) ==> r is None && *final(job) == *old(job) && *final(core)
                == *old(core) && *final(bus) == *old(bus),
            old(job).pending().contains_key(id@) ==> {
                &&& final(job).pending() == old(job).pending().remove(id@)
                &&& final(core).reg()@ == old(core).reg()@.remove(id@)
                &&& r == if old(job).is_done() {
                    None::<String>
                } else {
                    Some(r->Some_0)
                }
                &&& r matches Some(st) ==> st@ == old(job).pending()[id@].stage
            },
            job_kept(*final(job), *old(job)),
            final(job).pending_count() <= old(job).pending_count(),
            old(job).wf() ==> final(job).wf(),
            core_kept(*final(core), *old(core)),
            final(core).reg().is_bound() == old(core).reg().is_bound(),
            old(core).reg().wf() ==> final(core).reg().wf(),
            final(bus).boxes() == old(bus).boxes(),
            old(bus).wf() ==> final(bus).wf(),
            old(bus).wf() && old(job).pending().contains_key(id@) ==> subs_released(
                old(bus).subs(),
                final(bus).subs(),
                old(core).reg()@,
                Set::empty().insert(id@),
                ident.mailbox()@,
            ),
    {
        if !job.inflight.contains(id) {
            return None;
        }
        let entry = match job.inflight.remove(id) {
            None => return None,
            Some(e) => e,
        };
        match core.registry.state(id) {
            Some(State::Pending) => core.registry.timeout(id),
            _ => {},
        }
        let inbox = ident.inbox;
        let ghost s_mid = bus.subs();
        core.registry.finish_safe(bus, &inbox, id);
        proof {
            if old(bus).wf() {
                lemma_released_step(
                    old(bus).subs(),
                    old(bus).subs(),
                    bus.subs(),
                    old(core).reg()@,
                    Set::empty(),
                    id@,
                    ident.mailbox()@,
                );
            }
        }
        if job.finished {
            None
        } else {
            Some(entry.stage)
        }
    }

    /// Times out every outstanding request due at `now`; the stage of each
    /// runs with a timeout body while the job is not finished.
    pub fn expire_due(&mut self, now: i64, hook: &mut Option<Box<dyn StageHook>>) -> (r: Result<(), Error>)
        ensures
            old(self).the_job().wf() && (forall|k: Seq<char>|
                #[trigger] old(self).the_job().pending().contains_key(k) ==> !is_due(
                    old(self).the_job().pending()[k],
                    now,
                )) ==> r is Ok && final(self).the_job() == old(self).the_job() && final(self).the_core() == old(
                self,
            ).the_core() && final(self).the_bus() == old(self).the_bus(),
            old(self).the_job().wf() && (old(self).the_job().is_done() || (*old(hook) is None && old(
                self,
            ).the_job().waiting().len() == 0)) ==> {
                let ds = due_set(old(self).the_job().pending(), now);
                &&& r is Ok
                &&& final(self).the_job().pending() == old(self).the_job().pending().remove_keys(ds)
                &&& job_kept(final(self).the_job(), old(self).the_job())
                &&& final(self).the_core().reg()@ == old(self).the_core().reg()@.remove_keys(ds)
                &&& final(self).the_bus().boxes() == old(self).the_bus().boxes()
                &&& old(self).the_bus().wf() ==> subs_released(
                    old(self).the_bus().subs(),
                    final(self).the_bus().subs(),
                    old(self).the_core().reg()@,
                    ds,
                    old(self).the_ident().mailbox()@,
                )
            },
            final(self).the_core().continuing() == old(self).the_core().continuing(),
    {
        let due = self.job.due_ids(now);
        let ghost p0 = self.job.pending();
        let ghost r0 = self.core.registry@;
        let ghost quiet = old(self).the_job().wf() && (old(self).the_job().is_done() || (*old(hook) is None
            && old(self).the_job().waiting().len() == 0));
        proof {
            if old(self).the_job().wf() {
                assert(key_set(due@, due@.len() as int) =~= due_set(p0, now)) by {
                    assert forall|k: Seq<char>| due_set(p0, now).contains(k) implies key_set(due@, due@.len() as int).contains(k) by {
                        let j = choose|j: int| 0 <= j < due@.len() && (#[trigger] due@[j])@ == k;
                        assert(due@[j]@ == k);
                    }
                    assert forall|k: Seq<char>| key_set(due@, due@.len() as int).contains(k) implies due_set(p0, now).contains(k) by {
                        let j = choose|j: int| 0 <= j < due@.len() && #[trigger] due@[j]@ == k;
                        assert(p0.contains_key(due@[j]@));
                    }
                }
            }
            assert(p0.remove_keys(key_set(due@, 0)) =~= p0);
            assert(r0.remove_keys(key_set(due@, 0)) =~= r0);
            assert(key_set(due@, 0) =~= Set::<Seq<char>>::empty());
            lemma_released_none(old(self).the_bus().subs(), r0, old(self).the_ident().mailbox()@);
        }
        if due.len() == 0 {
            return Ok(());
        }
        let ghost none_due = old(self).the_job().wf() && (forall|k: Seq<char>|
            #[trigger] old(self).the_job().pending().contains_key(k) ==> !is_due(
                old(self).the_job().pending()[k],
                now,
            ));
        proof {
            if old(self).the_job().wf() {
                assert(self.job.pending().contains_key(due@[0]@));
                assert(is_due(self.job.pending()[due@[0]@], now));
            }
        }
        let mut i: usize = 0;
        while i < due.len()
            invariant
                !none_due,
                none_due == (old(self).the_job().wf() && (forall|k: Seq<char>|
                    #[trigger] old(self).the_job().pending().contains_key(k) ==> !is_due(
                        old(self).the_job().pending()[k],
                        now,
                    ))),
                i <= due@.len(),
                self.core.in_continuation == old(self).core.in_continuation,
                p0 == old(self).the_job().pending(),
                r0 == old(self).the_core().reg()@,
                forall|j: int| 0 <= j < due@.len() ==> p0.contains_key(#[trigger] due@[j]@),
                quiet == (old(self).the_job().wf() && (old(self).the_job().is_done() || (*old(hook) is None
                    && old(self).the_job().waiting().len() == 0))),
                quiet ==> {
                    &&& self.job.pending() == p0.remove_keys(key_set(due@, i as int))
                    &&& job_kept(*self.job, old(self).the_job())
                    &&& self.job.wf()
                    &&& self.core.registry@ == r0.remove_keys(key_set(due@, i as int))
                    &&& self.bus.boxes() == old(self).the_bus().boxes()
                    &&& (self.job.is_done() || (*hook is None && self.job.waiting().len() == 0))
                    &&& old(self).the_bus().wf() ==> self.bus.wf() && subs_released(
                        old(self).the_bus().subs(),
                        self.bus.subs(),
                        r0,
                        key_set(due@, i as int),
                        old(self).the_ident().mailbox()@,
                    )
                    &&& self.the_ident() == old(self).the_ident()
                },
            decreases due@.len() - i,
        {
            let ghost pb = self.job.pending();
            let ghost rb = self.core.registry@;
            let ghost sb = self.bus.subs();
            match Self::expire_one(self.job, self.ident, self.core, self.bus, &due[i]) {
                None => {},
                Some(stage) => {
                    let tb = timeout_body();
                    match self.emit(stage.as_str(), &tb, hook) {
                        Err(e) => return Err(e),
                        Ok(()) => {},
                    }
                },
            }
            proof {
                if quiet && old(self).the_bus().wf() {
                    let k = due@[i as int]@;
                    if pb.contains_key(k) {
                        assert(rb.contains_key(k) == r0.contains_key(k));
                        if r0.contains_key(k) {
                            assert(rb[k] == r0[k]);
                        }
                    } else {
                        assert(key_set(due@, i as int).contains(k));
                        assert(self.bus.subs() == sb);
                        assert(crate::bus::subs_within(sb, sb)) by {
                            assert forall|j: int| 0 <= j < sb.len() implies sb.contains(#[trigger] sb[j]) by {}
                        }
                        if r0.contains_key(k) {
                            crate::bus::lemma_gone_within(sb, sb, r0[k].expected_topic, old(self).the_ident().mailbox()@);
                        }
                    }
                    lemma_released_step(
                        old(self).the_bus().subs(),
                        sb,
                        self.bus.subs(),
                        r0,
                        key_set(due@, i as int),
                        k,
                        old(self).the_ident().mailbox()@,
                    );
                }
                if quiet {
                    let k = due@[i as int]@;
                    assert(p0.contains_key(k));
                    assert(key_set(due@, i + 1) =~= key_set(due@, i as int).insert(k)) by {
                        assert forall|x: Seq<char>| key_set(due@, i + 1).contains(x) implies key_set(due@, i as int).insert(k).contains(x) by {
                            let j = choose|j: int| 0 <= j < i + 1 && #[trigger] due@[j]@ == x;
                            if j < i {
                                assert(key_set(due@, i as int).contains(x));
                            }
                        }
                        assert forall|x: Seq<char>| key_set(due@, i as int).insert(k).contains(x) implies key_set(due@, i + 1).contains(x) by {
                            if x == k {
                                assert(due@[i as int]@ == x);
                            } else {
                                let j = choose|j: int| 0 <= j < i && #[trigger] due@[j]@ == x;
                                assert(due@[j]@ == x);
                            }
                        }
                    }
                    assert(self.job.pending() =~= p0.remove_keys(key_set(due@, i + 1)));
                    assert(self.core.registry@ =~= r0.remove_keys(key_set(due@, i + 1)));
                }
            }
            i = i + 1;
        }
        Ok(())
    }
}

/// The outstanding requests of `p` that are due at `now`.
pub open spec fn due_set(p: Map<Seq<char>, InflightView>, now: i64) -> Set<Seq<char>> {
    Set::new(|k: Seq<char>| p.contains_key(k) && is_due(p[k], now))
}

/// What the job's spec accessors stand for, for the rest of the crate.
pub(crate) proof fn lemma_job_parts(j: Job)
    ensures
        j.root_env() == j.root,
        j.is_done() == j.finished,
        j.pending() == j.inflight@,
        j.pending_order() == j.inflight.order(),
        j.pending_count() == j.inflight.order().len(),
        j.limit() == j.max_inflight,
{
}

pub(crate) broadcast proof fn lemma_core_reg(c: HostCore)
    ensures
        #[trigger] c.reg() == c.registry,
{
}

pub(crate) broadcast proof fn lemma_core_continuing(c: HostCore)
    ensures
        #[trigger] c.continuing() == c.in_continuation,
{
}

pub(crate) broadcast proof fn lemma_ident_actor(c: HostIdent)
    ensures
        #[trigger] c.actor() == c.actor_id@,
{
}

pub(crate) broadcast proof fn lemma_ident_mailbox(c: HostIdent)
    ensures
        #[trigger] c.mailbox() == c.inbox,
{
}

pub(crate) broadcast proof fn lemma_ident_timeout(c: HostIdent)
    ensures
        #[trigger] c.timeout_ms() == c.request_timeout_ms,
{
}

pub(crate) open spec fn ctx_job<'a, 'g>(c: JobCtx<'a, 'g>) -> Job {
    *c.job
}

pub(crate) open spec fn ctx_core<'a, 'g>(c: JobCtx<'a, 'g>) -> HostCore {
    *c.core
}

pub(crate) open spec fn ctx_bus<'a, 'g>(c: JobCtx<'a, 'g>) -> Bus {
    *c.bus
}

pub(crate) broadcast proof fn lemma_ctx_job<'a, 'g>(c: JobCtx<'a, 'g>)
    ensures
        #[trigger] c.the_job() == ctx_job(c),
{
}

pub(crate) broadcast proof fn lemma_ctx_core<'a, 'g>(c: JobCtx<'a, 'g>)
    ensures
        #[trigger] c.the_core() == ctx_core(c),
{
}

pub(crate) broadcast proof fn lemma_ctx_bus<'a, 'g>(c: JobCtx<'a, 'g>)
    ensures
        #[trigger] c.the_bus() == ctx_bus(c),
{
}

/// What the host's spec accessors stand for, for the rest of the crate.
pub(crate) broadcast group group_core_parts {
    lemma_ctx_job,
    lemma_ctx_core,
    lemma_ctx_bus,
    lemma_core_reg,
    lemma_core_continuing,
    lemma_ident_actor,
    lemma_ident_mailbox,
    lemma_ident_timeout,
}

} // verus!
