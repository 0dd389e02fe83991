//! The job host: it turns business envelopes into jobs, routes results to
//! the jobs that await them, and times requests out.

pub mod dispatch;
pub mod queue;
pub mod slots;

pub use queue::{EnvelopeQueue, DEFAULT_QUEUE_LIMIT};
pub use slots::{Slot, SlotBook};

use crate::bus::{Bus, InboxHandle};
use crate::clock::Clock;
use crate::envelope::id::{ActorId, EnvelopeId};
use crate::envelope::{Envelope, EnvelopeView};
use crate::idgen::IdGen;
use crate::job::{HostCore, HostIdent, Job};
use crate::pattern::{parse_pattern, pattern_of, strings_view, valid_pattern, Pattern, PatternView};
use crate::registry::Registry;
use crate::subscriber::Subscriber;
use crate::Error;
use crate::inbox::Inbox;
use crate::result::body::{spec_request_id, spec_result_body};
use dispatch::{accepted, dispatch, flush_queue, host_kept, patterns_view, quiet_book, watchdog};
use slots::active_key_spec;
use vstd::prelude::*;

verus! {

broadcast use crate::job::group_core_parts;

/// Makes the job (with its hooks) for a business envelope.
pub trait JobFactory {
    fn make_job(&self, root: &Envelope) -> Slot;
}

/// What a host is made from.
pub struct HostParams {
    pub actor_id: ActorId,
    pub inbox: InboxHandle,
    pub patterns: Vec<String>,
    pub accept: Option<Vec<String>>,
    pub request_timeout_ms: i64,
    pub queue_limit: usize,
    pub make_job: Box<dyn JobFactory>,
}

/// The patterns a host made from `p` accepts business envelopes on: the
/// accept list when given, else the subscription patterns.
pub open spec fn accept_texts(p: HostParams) -> Seq<Seq<char>> {
    match p.accept {
        Some(a) => strings_view(a@),
        None => strings_view(p.patterns@),
    }
}

/// Whether mailbox `h` holds nothing (a handle past the mailboxes names
/// none).
pub open spec fn drained(boxes: Seq<Inbox>, h: InboxHandle) -> bool {
    h@ < boxes.len() ==> boxes[h@ as int].queued().len() == 0
}

/// Whether `env` is no result envelope: it lacks a request id or a result
/// body.
pub open spec fn not_result(env: Envelope) -> bool {
    spec_request_id(env) is None || spec_result_body(env) is None
}

/// `env` is business that host `h` takes into its queue: no result, the
/// host is not shutting down, some accept pattern matches, and the queue
/// has room.
pub open spec fn queues(h: JobHost, env: Envelope) -> bool {
    &&& not_result(env)
    &&& !h.stopping()
    &&& accepted(h.accepts(), env.header.topic@)
    &&& h.queue_state().queued().len() < h.queue_state().cap()
}

/// `env` is business that host `h` would queue, but its queue is full.
pub open spec fn overflows(h: JobHost, env: Envelope) -> bool {
    &&& not_result(env)
    &&& !h.stopping()
    &&& accepted(h.accepts(), env.header.topic@)
    &&& h.queue_state().queued().len() >= h.queue_state().cap()
}

/// `env` leaves host `h` as it is: no result, no due request anywhere, and
/// either the host is shutting down or `env` is not business and nothing
/// is queued.
pub open spec fn passes_by(h: JobHost, env: Envelope) -> bool {
    &&& not_result(env)
    &&& quiet_book(h.book())
    &&& (h.stopping() || (!accepted(h.accepts(), env.header.topic@) && h.queue_state().queued().len() == 0))
}

/// `env` is the only business `h` has to take in: it is queued as the sole
/// queued envelope, and no job has a request due.
pub open spec fn lone_business(h: JobHost, env: Envelope) -> bool {
    &&& queues(h, env)
    &&& quiet_book(h.book())
    &&& h.queue_state().queued().len() == 0
    &&& h.book().wf()
}

/// From `h0` to `h1` one job was made of `env` and failed to be adopted or
/// to begin; when it was keyed by `env`'s id, it was not left in the book:
/// the live jobs are as before.
pub open spec fn begin_failed(h0: JobHost, h1: JobHost, env: Envelope) -> bool {
    let a = h1.adoptions().last();
    &&& h1.adoptions().len() == h0.adoptions().len() + 1
    &&& a.root == env@
    &&& !a.ok
    &&& a.job.root_env().header.id@ == env.header.id@ ==> h1.book().jobs() == h0.book().jobs()
}

/// A host of jobs on one mailbox.
pub struct JobHost {
    pub(crate) ident: HostIdent,
    pub(crate) core: HostCore,
    pub(crate) subscriber: Subscriber,
    pub(crate) accept: Vec<Pattern>,
    pub(crate) slots: SlotBook,
    pub(crate) queue: EnvelopeQueue,
    pub(crate) shutting_down: bool,
    pub(crate) make_job: Box<dyn JobFactory>,
    pub(crate) made: Ghost<Seq<Adoption>>,
}

/// One hand-over to the job factory: the root envelope, the job the
/// factory made of it, the live jobs just before it was adopted, and
/// whether adopting and beginning it succeeded.
pub struct Adoption {
    pub root: EnvelopeView,
    pub job: Job,
    pub jobs_before: Map<Seq<char>, Job>,
    pub ok: bool,
}

impl JobHost {
    /// The root envelopes handed to the job factory so far, oldest first.
    pub closed spec fn handed(&self) -> Seq<EnvelopeView> {
        self.made@.map_values(|a: Adoption| a.root)
    }

    /// Every hand-over to the job factory so far, oldest first.
    pub closed spec fn adoptions(&self) -> Seq<Adoption> {
        self.made@
    }

    /// Who the host is: actor id, mailbox and request timeout.
    pub closed spec fn ident_state(&self) -> HostIdent {
        self.ident
    }

    /// The host's registry and continuation flag.
    pub closed spec fn core_state(&self) -> HostCore {
        self.core
    }

    /// The live jobs and their indexes.
    pub closed spec fn book(&self) -> SlotBook {
        self.slots
    }

    /// The queue of business envelopes waiting to become jobs.
    pub closed spec fn queue_state(&self) -> EnvelopeQueue {
        self.queue
    }

    /// The patterns business envelopes are accepted on.
    pub closed spec fn accepts(&self) -> Seq<PatternView> {
        patterns_view(self.accept@)
    }

    /// Whether the host is shutting down.
    pub closed spec fn stopping(&self) -> bool {
        self.shutting_down
    }

    /// The host's subscriber.
    pub closed spec fn the_subscriber(&self) -> Subscriber {
        self.subscriber
    }

    /// A host for `params`, noted as the reader of its mailbox on `bus`.
    /// Every accept pattern must parse.
    pub fn new(bus: &mut Bus, params: HostParams) -> (h: JobHost)
        requires
            forall|i: int| 0 <= i < accept_texts(params).len() ==> valid_pattern(#[trigger] accept_texts(params)[i]),
        ensures
            h.accepts() == accept_texts(params).map_values(|t: Seq<char>| pattern_of(t)),
            h.ident_state().actor() == params.actor_id@,
            h.ident_state().mailbox() == params.inbox,
            h.ident_state().timeout_ms() == params.request_timeout_ms,
            !h.core_state().continuing(),
            h.core_state().reg()@ == Map::<Seq<char>, crate::registry::EntryView>::empty(),
            !h.core_state().reg().is_bound(),
            h.core_state().reg().wf(),
            h.book().jobs() == Map::<Seq<char>, Job>::empty(),
            h.book().wf(),
            slots::indexed(h.book()),
            h.queue_state().queued().len() == 0,
            h.queue_state().cap() == if params.queue_limit == 0 {
                DEFAULT_QUEUE_LIMIT
            } else {
                params.queue_limit
            },
            !h.stopping(),
            h.handed() == Seq::<EnvelopeView>::empty(),
            h.adoptions() == Seq::<Adoption>::empty(),
            h.the_subscriber().inbox == params.inbox,
            strings_view(h.the_subscriber().patterns@) == strings_view(params.patterns@),
            final(bus).subs() == old(bus).subs(),
            crate::bus::reader_noted(old(bus).boxes(), final(bus).boxes(), params.inbox@, params.actor_id@),
            old(bus).wf() ==> final(bus).wf(),
    {
        let limit = if params.queue_limit == 0 {
            DEFAULT_QUEUE_LIMIT
        } else {
            params.queue_limit
        };
        let ghost texts = accept_texts(params);
        let src: &Vec<String> = match &params.accept {
            Some(a) => a,
            None => &params.patterns,
        };
        assert(strings_view(src@) == texts);
        let mut accept: Vec<Pattern> = Vec::new();
        let mut i: usize = 0;
        while i < src.len()
            invariant
                i <= src@.len(),
                strings_view(src@) == texts,
                forall|j: int| 0 <= j < texts.len() ==> valid_pattern(#[trigger] texts[j]),
                patterns_view(accept@) == texts.take(i as int).map_values(|t: Seq<char>| pattern_of(t)),
            decreases src@.len() - i,
        {
            assert(texts[i as int] == src@[i as int]@);
            let ghost before = patterns_view(accept@);
            match parse_pattern(src[i].as_str()) {
                Ok(p) => {
                    accept.push(p);
                },
                Err(_) => {
                    assert(false);
                },
            }
            assert(patterns_view(accept@) =~= before.push(pattern_of(texts[i as int])));
            assert(texts.take(i + 1).map_values(|t: Seq<char>| pattern_of(t)) =~= texts.take(i as int).map_values(
                |t: Seq<char>| pattern_of(t),
            ).push(pattern_of(texts[i as int])));
            i = i + 1;
        }
        assert(texts.take(src@.len() as int) =~= texts);
        let mut pats: Vec<&str> = Vec::new();
        let mut k: usize = 0;
        while k < params.patterns.len()
            invariant
                k <= params.patterns@.len(),
                pats@.map_values(|p: &str| p@) == strings_view(params.patterns@).take(k as int),
            decreases params.patterns@.len() - k,
        {
            let ghost before = pats@;
            pats.push(params.patterns[k].as_str());
            assert(pats@.map_values(|p: &str| p@) =~= before.map_values(|p: &str| p@).push(params.patterns@[k as int]@));
            assert(strings_view(params.patterns@).take(k + 1) =~= strings_view(params.patterns@).take(k as int).push(
                params.patterns@[k as int]@,
            ));
            k = k + 1;
        }
        assert(strings_view(params.patterns@).take(params.patterns@.len() as int) =~= strings_view(params.patterns@));
        let subscriber = Subscriber::new(bus, params.actor_id.clone(), &params.inbox, pats.as_slice());
        let ident = HostIdent {
            actor_id: params.actor_id,
            inbox: params.inbox,
            request_timeout_ms: params.request_timeout_ms,
        };
        let core = HostCore { registry: Registry::new(), in_continuation: false };
        JobHost {
            ident,
            core,
            subscriber,
            accept,
            slots: SlotBook::new(),
            queue: EnvelopeQueue::new(limit),
            shutting_down: false,
            make_job: params.make_job,
            made: Ghost(Seq::empty()),
        }
    }

    /// The host's actor id.
    pub fn actor_id(&self) -> (r: &ActorId)
        ensures
            r@ == self.ident_state().actor(),
    {
        &self.ident.actor_id
    }

    /// The host's mailbox.
    pub fn inbox(&self) -> (r: &InboxHandle)
        ensures
            *r == self.ident_state().mailbox(),
    {
        &self.ident.inbox
    }

    /// The host's request registry.
    pub fn registry(&self) -> (r: &Registry)
        ensures
            *r == self.core_state().reg(),
    {
        &self.core.registry
    }

    /// Subscribes the host's mailbox to its patterns.
    pub fn start(&self, bus: &mut Bus) -> (r: Result<(), Error>)
        ensures
            final(bus).boxes() == old(bus).boxes(),
            r is Ok <==> forall|i: int|
                0 <= i < self.the_subscriber().patterns@.len() ==> valid_pattern(
                    #[trigger] self.the_subscriber().patterns@[i]@,
                ),
            r is Ok ==> final(bus).subs() == crate::subscriber::subscribe_all(
                old(bus).subs(),
                strings_view(self.the_subscriber().patterns@),
                self.the_subscriber().inbox@,
            ),
            old(bus).wf() ==> final(bus).wf(),
    {
        assert(self.the_subscriber() == self.subscriber);
        self.subscriber.start(bus)
    }

    /// The live job a result for `cause` would go to, if any.
    pub fn job(&self, cause: &EnvelopeId) -> (r: Option<&Job>)
        ensures
            match r {
                Some(j) => active_key_spec(self.book().jobs(), self.book().causes(), cause@) matches Some(k)
                    && self.book().jobs().contains_key(k) && *j == self.book().jobs()[k],
                None => !(active_key_spec(self.book().jobs(), self.book().causes(), cause@) matches Some(k)
                    && self.book().jobs().contains_key(k)),
            },
    {
        self.slots.active_job(cause)
    }

    /// Stops adopting new jobs; results still reach the live ones.
    pub fn shutdown(&mut self)
        ensures
            final(self).stopping(),
            final(self).core_state() == old(self).core_state(),
            final(self).book() == old(self).book(),
            final(self).queue_state() == old(self).queue_state(),
            final(self).accepts() == old(self).accepts(),
    {
        self.shutting_down = true;
    }

    /// Dispatches `env`, times out due requests and turns queued envelopes
    /// into jobs.
    fn run_dispatch<'g>(
        &mut self,
        bus: &mut Bus,
        gen: &mut &'g mut dyn IdGen,
        clock: &&'g dyn Clock,
        env: &Envelope,
    ) -> (r: Result<(), Error>)
        ensures
            host_kept(*final(self), *old(self)),
            old(self).book().wf() ==> final(self).book().wf(),
            !old(self).core_state().continuing() ==> !final(self).core_state().continuing(),
            r is Ok ==> final(self).queue_state().queued().len() == 0,
            passes_by(*old(self), *env) ==> r is Ok && final(self).book().jobs() == old(self).book().jobs()
                && final(self).core_state().reg()@ == old(self).core_state().reg()@ && *final(bus) == *old(bus),
            overflows(*old(self), *env) ==> r == Err::<(), Error>(Error::QueueFull),
            old(self).handed().is_prefix_of(final(self).handed()),
            old(self).stopping() ==> final(self).handed() == old(self).handed(),
            queues(*old(self), *env) && r is Ok ==> final(self).handed() == old(self).handed() + old(
                self,
            ).queue_state().queued().push(env@),
            lone_business(*old(self), *env) && r is Err ==> begin_failed(*old(self), *final(self), *env),
            lone_business(*old(self), *env) && r is Ok ==> final(self).adoptions().len() > old(self).adoptions().len()
                && final(self).adoptions()[old(self).adoptions().len() as int].ok,
            old(self).adoptions().is_prefix_of(final(self).adoptions()),
    {
        match dispatch(self, bus, gen, clock, env) {
            Err(e) => return Err(e),
            Ok(()) => {},
        }
        match watchdog(self, bus, gen, clock) {
            Err(e) => return Err(e),
            Ok(()) => {},
        }
        let ghost mid = *self;
        let r = flush_queue(self, bus, gen, clock);
        proof {
            if lone_business(*old(self), *env) && r is Ok {
                assert(mid.queue_state().queued() == seq![env@]);
            }
            if lone_business(*old(self), *env) && r is Err {
                let n0 = mid.adoptions().len();
                assert(mid.queue_state().queued() == seq![env@]);
                assert(self.adoptions().len() == n0 + 1);
                assert(mid.queue_state().queued().take(1) =~= seq![env@]);
                assert(self.handed()[n0 as int] == self.adoptions()[n0 as int].root);
                assert(self.handed() == mid.handed() + seq![env@]);
                assert(self.handed()[n0 as int] == env@);
            }
        }
        r
    }

    /// Dispatches what the mailbox holds until it is empty. Should a very
    /// large budget of envelopes be used up first, it fails.
    fn drain_inbox<'g>(&mut self, bus: &mut Bus, gen: &mut &'g mut dyn IdGen, clock: &&'g dyn Clock) -> (r: Result<
        (),
        Error,
    >)
        ensures
            host_kept(*final(self), *old(self)),
            old(self).book().wf() ==> final(self).book().wf(),
            !old(self).core_state().continuing() ==> !final(self).core_state().continuing(),
            r is Ok ==> drained(final(bus).boxes(), old(self).ident_state().mailbox()),
            drained(old(bus).boxes(), old(self).ident_state().mailbox()) ==> r is Ok && *final(self) == *old(self)
                && *final(bus) == *old(bus),
            r is Ok && old(self).queue_state().queued().len() == 0 ==> final(self).queue_state().queued().len()
                == 0,
            old(self).handed().is_prefix_of(final(self).handed()),
            old(self).stopping() ==> final(self).handed() == old(self).handed(),
            old(self).adoptions().is_prefix_of(final(self).adoptions()),
    {
        let mut budget: usize = usize::MAX;
        while budget > 0
            invariant
                host_kept(*self, *old(self)),
                old(self).book().wf() ==> self.book().wf(),
                !old(self).core_state().continuing() ==> !self.core_state().continuing(),
                old(self).queue_state().queued().len() == 0 ==> self.queue_state().queued().len() == 0,
                drained(old(bus).boxes(), old(self).ident_state().mailbox()) ==> *self == *old(self) && *bus
                    == *old(bus) && budget == usize::MAX,
                old(self).handed().is_prefix_of(self.handed()),
                old(self).stopping() ==> self.handed() == old(self).handed(),
                old(self).adoptions().is_prefix_of(self.adoptions()),
            decreases budget,
        {
            let inbox = self.ident.inbox;
            match bus.inbox(&inbox) {
                None => return Ok(()),
                Some(b) => {
                    if b.is_empty() {
                        return Ok(());
                    }
                },
            }
            let env = match bus.try_recv(&inbox) {
                None => return Ok(()),
                Some(e) => e,
            };
            match self.run_dispatch(bus, gen, clock, &env) {
                Err(e) => return Err(e),
                Ok(()) => {},
            }
            budget = budget - 1;
        }
        Err(Error::State(crate::text::to_string("mailbox not drained")))
    }

    /// Handles one envelope with the given bus, clock and id generator: it
    /// is dispatched, and, when the mailbox was empty beforehand, whatever
    /// the handling put into the mailbox is handled too.
    pub fn handle<'g>(&mut self, bus: &mut Bus, env: &Envelope, clock: &'g dyn Clock, gen: &'g mut dyn IdGen) -> (r: Result<
        (),
        Error,
    >)
        ensures
            host_kept(*final(self), *old(self)),
            final(self).core_state().reg().is_bound(),
            old(self).book().wf() ==> final(self).book().wf(),
            !old(self).core_state().continuing() ==> !final(self).core_state().continuing(),
            r is Ok ==> final(self).queue_state().queued().len() == 0,
            r is Ok && drained(old(bus).boxes(), old(self).ident_state().mailbox()) ==> drained(
                final(bus).boxes(),
                old(self).ident_state().mailbox(),
            ),
            passes_by(*old(self), *env) ==> r is Ok && final(self).book().jobs() == old(self).book().jobs()
                && final(self).core_state().reg()@ == old(self).core_state().reg()@ && *final(bus) == *old(bus),
            overflows(*old(self), *env) ==> r == Err::<(), Error>(Error::QueueFull),
            old(self).handed().is_prefix_of(final(self).handed()),
            old(self).stopping() ==> final(self).handed() == old(self).handed(),
            queues(*old(self), *env) && r is Ok ==> (old(self).handed() + old(self).queue_state().queued().push(
                env@,
            )).is_prefix_of(final(self).handed()),
            lone_business(*old(self), *env) && final(self).adoptions().len() > old(self).adoptions().len()
                && !final(self).adoptions()[old(self).adoptions().len() as int].ok ==> r is Err && begin_failed(
                *old(self),
                *final(self),
                *env,
            ),
            old(self).adoptions().is_prefix_of(final(self).adoptions()),
    {
        self.core.registry.bind_id_gen();
        let inbox = self.ident.inbox;
        let empty = match bus.inbox(&inbox) {
            None => true,
            Some(b) => b.is_empty(),
        };
        let mut g = gen;
        let c = clock;
        let r = self.handle_bound(bus, env, &mut g, &c, empty);
        r
    }

    fn handle_bound<'g>(
        &mut self,
        bus: &mut Bus,
        env: &Envelope,
        gen: &mut &'g mut dyn IdGen,
        clock: &&'g dyn Clock,
        empty: bool,
    ) -> (r: Result<(), Error>)
        requires
            old(self).core_state().reg().is_bound(),
        ensures
            host_kept(*final(self), *old(self)),
            final(self).core_state().reg().is_bound(),
            old(self).book().wf() ==> final(self).book().wf(),
            !old(self).core_state().continuing() ==> !final(self).core_state().continuing(),
            r is Ok ==> final(self).queue_state().queued().len() == 0,
            r is Ok && empty ==> drained(final(bus).boxes(), old(self).ident_state().mailbox()),
            passes_by(*old(self), *env) && (empty ==> drained(old(bus).boxes(), old(self).ident_state().mailbox()))
                ==> r is Ok && final(self).book().jobs() == old(self).book().jobs() && final(self).core_state().reg()@
                == old(self).core_state().reg()@ && *final(bus) == *old(bus),
            overflows(*old(self), *env) ==> r == Err::<(), Error>(Error::QueueFull),
            old(self).handed().is_prefix_of(final(self).handed()),
            old(self).stopping() ==> final(self).handed() == old(self).handed(),
            queues(*old(self), *env) && r is Ok ==> (old(self).handed() + old(self).queue_state().queued().push(
                env@,
            )).is_prefix_of(final(self).handed()),
            lone_business(*old(self), *env) && final(self).adoptions().len() > old(self).adoptions().len()
                && !final(self).adoptions()[old(self).adoptions().len() as int].ok ==> r is Err && begin_failed(
                *old(self),
                *final(self),
                *env,
            ),
            old(self).adoptions().is_prefix_of(final(self).adoptions()),
    {
        match self.run_dispatch(bus, gen, clock, env) {
            Err(e) => {
                self.core.registry.bind_id_gen();
                return Err(e);
            },
            Ok(()) => {},
        }
        let r = if empty {
            self.drain_inbox(bus, gen, clock)
        } else {
            Ok(())
        };
        self.core.registry.bind_id_gen();
        r
    }

    /// Takes the oldest envelope of the mailbox and handles it (`true`);
    /// with an empty mailbox, only times out due requests (`false`).
    pub fn poll<'g>(&mut self, bus: &mut Bus, clock: &'g dyn Clock, gen: &'g mut dyn IdGen) -> (r: Result<bool, Error>)
        ensures
            host_kept(*final(self), *old(self)),
            final(self).core_state().reg().is_bound(),
            old(self).book().wf() ==> final(self).book().wf(),
            !old(self).core_state().continuing() ==> !final(self).core_state().continuing(),
            r matches Ok(b) ==> b == (old(self).ident_state().mailbox()@ < old(bus).boxes().len() && old(
                bus,
            ).boxes()[old(self).ident_state().mailbox()@ as int].queued().len() > 0),
            old(self).handed().is_prefix_of(final(self).handed()),
            drained(old(bus).boxes(), old(self).ident_state().mailbox()) ==> {
                &&& final(self).handed() == old(self).handed()
                &&& final(self).queue_state() == old(self).queue_state()
                &&& quiet_book(old(self).book()) ==> r == Ok::<bool, Error>(false) && final(self).book().jobs()
                    == old(self).book().jobs() && final(self).core_state().reg()@ == old(self).core_state().reg()@
                    && *final(bus) == *old(bus)
            },
            !drained(old(bus).boxes(), old(self).ident_state().mailbox()) ==> {
                let h = old(self).ident_state().mailbox()@ as int;
                let b0 = old(bus).boxes()[h];
                let e = b0.envelopes()[0];
                &&& r is Ok ==> final(self).queue_state().queued().len() == 0
                &&& old(self).stopping() ==> final(self).handed() == old(self).handed()
                &&& r is Ok && b0.queued().len() == 1 ==> drained(final(bus).boxes(), old(self).ident_state().mailbox())
                &&& overflows(*old(self), e) ==> r == Err::<bool, Error>(Error::QueueFull)
                &&& queues(*old(self), e) && r is Ok ==> (old(self).handed() + old(
                    self,
                ).queue_state().queued().push(e@)).is_prefix_of(final(self).handed())
                &&& passes_by(*old(self), e) ==> {
                    &&& r == Ok::<bool, Error>(true)
                    &&& final(self).book().jobs() == old(self).book().jobs()
                    &&& final(self).core_state().reg()@ == old(self).core_state().reg()@
                    &&& exists|b1: Inbox|
                        final(bus).boxes() == #[trigger] old(bus).boxes().update(h, b1) && b1.queued()
                            == b0.queued().drop_first()
                }
            },
    {
        let inbox = self.ident.inbox;
        let empty = match bus.inbox(&inbox) {
            None => true,
            Some(b) => b.is_empty(),
        };
        if !empty {
            let ghost b0 = bus.boxes()[inbox@ as int];
            match bus.try_recv(&inbox) {
                None => {},
                Some(env) => {
                    let ghost b1 = bus.boxes()[inbox@ as int];
                    let ghost boxes1 = bus.boxes();
                    self.core.registry.bind_id_gen();
                    let empty = match bus.inbox(&inbox) {
                        None => true,
                        Some(b) => b.is_empty(),
                    };
                    let mut g = gen;
                    let c = clock;
                    let r = self.handle_bound(bus, &env, &mut g, &c, empty);
                    proof {
                        if passes_by(*old(self), env) {
                            assert(bus.boxes() == old(bus).boxes().update(inbox@ as int, b1));
                        }
                    }
                    return match r {
                        Err(e) => Err(e),
                        Ok(()) => Ok(true),
                    };
                },
            }
        }
        self.core.registry.bind_id_gen();
        let mut g = gen;
        let c = clock;
        let r = watchdog(self, bus, &mut g, &c);
        self.core.registry.bind_id_gen();
        match r {
            Err(e) => Err(e),
            Ok(()) => Ok(false),
        }
    }
}

} // verus!
