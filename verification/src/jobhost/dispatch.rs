//! What a host does with one envelope: a result goes to the job that
//! awaits it, a business envelope it accepts is queued, and queued
//! envelopes become jobs; the watchdog times requests out.

use crate::bus::Bus;
use crate::clock::Clock;
use crate::envelope::topic::{parts_view, split_topic, valid_topic};
use crate::envelope::Envelope;
use crate::result::body::{result_body, spec_request_id, spec_result_body};
use crate::idgen::IdGen;
use crate::job::{Job, JobCtx};
use crate::envelope::id::EnvelopeId;
use crate::jobhost::slots::{cause_occupied, id_debug, is_root_job, jobs_after_place, placed, route_key, Slot, SlotBook};
use crate::job::{job_kept, lemma_released_none, lemma_released_step, subs_released};
use crate::registry::ResolveOutcome;
use crate::jobhost::JobHost;
use crate::pattern::{matches_spec, Pattern, PatternView};
use crate::text::split_on;
use crate::Error;
use vstd::prelude::*;

verus! {

broadcast use crate::job::group_core_parts;

/// Whether some accepted pattern matches the topic `t`.
pub open spec fn accepted(accept: Seq<PatternView>, t: Seq<char>) -> bool {
    valid_topic(t) && exists|i: int| 0 <= i < accept.len() && matches_spec(#[trigger] accept[i], split_on(t, '.'))
}

/// The views of the patterns.
pub open spec fn patterns_view(s: Seq<Pattern>) -> Seq<PatternView> {
    s.map_values(|p: Pattern| p@)
}

/// Whether the host accepts `env` as business: its topic is valid and some
/// accepted pattern matches it.
pub fn matches_business(accept: &Vec<Pattern>, env: &Envelope) -> (r: bool)
    ensures
        r == accepted(patterns_view(accept@), env.header.topic@),
{
    let parts = match split_topic(env.header.topic.as_str()) {
        Err(_) => return false,
        Ok(p) => p,
    };
    let ghost pv = patterns_view(accept@);
    let mut i: usize = 0;
    while i < accept.len()
        invariant
            pv == patterns_view(accept@),
            i <= accept@.len(),
            parts_view(parts@) == split_on(env.header.topic@, '.'),
            valid_topic(env.header.topic@),
            forall|j: int| 0 <= j < i ==> !matches_spec(#[trigger] pv[j], split_on(env.header.topic@, '.')),
        decreases accept@.len() - i,
    {
        assert(pv[i as int] == accept@[i as int]@);
        if crate::pattern::matches(&accept[i], parts.as_slice()) {
            return true;
        }
        i = i + 1;
    }
    false
}

/// The host state that dispatching never changes.
pub open spec fn host_kept(a: JobHost, b: JobHost) -> bool {
    &&& a.ident_state() == b.ident_state()
    &&& a.accepts() == b.accepts()
    &&& a.stopping() == b.stopping()
    &&& a.queue_state().cap() == b.queue_state().cap()
}

/// Runs a job's begin hook and puts it back; an error drops the job.
fn begin_slot<'g>(
    host: &mut JobHost,
    bus: &mut Bus,
    gen: &mut &'g mut dyn IdGen,
    clock: &&'g dyn Clock,
    slot: Slot,
) -> (r: Result<(), Error>)
    ensures
        host_kept(*final(host), *old(host)),
        final(host).adoptions() == old(host).adoptions(),
        final(host).queue_state() == old(host).queue_state(),
        old(host).book().wf() ==> final(host).book().wf(),
        !old(host).core_state().continuing() ==> !final(host).core_state().continuing(),
        r is Err ==> final(host).book() == old(host).book(),
        r is Ok ==> exists|j: Job| placed(old(host).book(), final(host).book(), j),
        slot.hooks.on_begin is None ==> r is Ok && placed(old(host).book(), final(host).book(), slot.job)
            && final(host).core_state() == old(host).core_state() && *final(bus) == *old(bus),
{
    if slot.hooks.on_begin.is_none() {
        // Without a begin hook the job goes back as it came.
        let ghost j = slot.job;
        host.slots.place(slot);
        assert(placed(old(host).book(), host.book(), j));
        return Ok(());
    }
    let Slot { mut job, mut hooks } = slot;
    let r = {
        let mut ctx = JobCtx {
            job: &mut job,
            ident: &host.ident,
            core: &mut host.core,
            bus,
            gen,
            clock,
            on_finished: &mut hooks.on_finished,
        };
        ctx.begin(&mut hooks.on_begin)
    };
    // Between dispatches no stage result is being handled.
    host.core.in_continuation = false;
    match r {
        Err(e) => return Err(e),
        Ok(()) => {},
    }
    let ghost j = job;
    host.slots.place(Slot { job, hooks });
    assert(placed(old(host).book(), host.book(), j));
    Ok(())
}

/// Adopts `slot`, the job made for the queued envelope whose id is `key`,
/// then takes the job keyed `key` and begins it.
pub fn adopt_slot<'g>(
    host: &mut JobHost,
    bus: &mut Bus,
    gen: &mut &'g mut dyn IdGen,
    clock: &&'g dyn Clock,
    key: &EnvelopeId,
    slot: Slot,
) -> (r: Result<(), Error>)
    ensures
        host_kept(*final(host), *old(host)),
        final(host).adoptions() == old(host).adoptions(),
        final(host).queue_state() == old(host).queue_state(),
        old(host).book().wf() ==> final(host).book().wf(),
        !old(host).core_state().continuing() ==> !final(host).core_state().continuing(),
        ({
            let j = slot.job;
            let rk = j.root_env().header.id@;
            let cause = j.root_env().header.cause@;
            let jobs0 = old(host).book().jobs();
            if jobs0.contains_key(rk) {
                (r matches Err(Error::State(m)) && m@ == "duplicate job key: "@ + id_debug(rk))
                    && final(host).book().jobs() == jobs0
            } else if !old(host).book().wf() {
                true
            } else if is_root_job(j) && cause_occupied(jobs0, cause) {
                (r matches Err(Error::State(m)) && m@ == "duplicate job cause: "@ + id_debug(cause))
                    && final(host).book().jobs() == jobs0
            } else if rk != key@ {
                !jobs0.contains_key(key@) ==> (r matches Err(Error::State(m)) && m@ == "adopted job missing"@)
                    && final(host).book().jobs() == jobs0.insert(rk, j)
            } else {
                &&& r is Err ==> final(host).book().jobs() == jobs0
                &&& r is Ok ==> exists|j2: Job| final(host).book().jobs() == #[trigger] jobs_after_place(jobs0, j2)
            }
        }),
{
    let ghost j = slot.job;
    match host.slots.adopt(slot) {
        Err(e) => return Err(e),
        Ok(()) => {},
    }
    let slot = match host.slots.take(key) {
        None => return Err(Error::State(crate::text::to_string("adopted job missing"))),
        Some(s) => s,
    };
    let ghost book1 = host.book();
    let r = begin_slot(host, bus, gen, clock, slot);
    proof {
        if r is Ok {
            let j2 = choose|j2: Job| placed(book1, host.book(), j2);
            assert(host.book().jobs() == jobs_after_place(book1.jobs(), j2));
        }
        if old(host).book().wf() && !old(host).book().jobs().contains_key(j.root_env().header.id@)
            && j.root_env().header.id@ == key@ {
            assert(book1.jobs() =~= old(host).book().jobs());
        }
    }
    r
}

/// Makes a job of queued envelope `root` with the host's factory, adopts it
/// and begins it (see `adopt_slot`).
pub fn adopt_and_begin<'g>(
    host: &mut JobHost,
    bus: &mut Bus,
    gen: &mut &'g mut dyn IdGen,
    clock: &&'g dyn Clock,
    root: Envelope,
) -> (r: Result<(), Error>)
    ensures
        host_kept(*final(host), *old(host)),
        final(host).handed() == old(host).handed().push(root@),
        final(host).adoptions().len() == old(host).adoptions().len() + 1,
        final(host).adoptions().drop_last() == old(host).adoptions(),
        final(host).adoptions().last().root == root@,
        final(host).adoptions().last().jobs_before == old(host).book().jobs(),
        final(host).adoptions().last().ok == (r is Ok),
        old(host).book().wf() && r is Err && final(host).adoptions().last().job.root_env().header.id@
            == root.header.id@ ==> final(host).book().jobs() == old(host).book().jobs(),
        final(host).queue_state() == old(host).queue_state(),
        old(host).book().wf() ==> final(host).book().wf(),
        !old(host).core_state().continuing() ==> !final(host).core_state().continuing(),
{
    let key = root.header.id.clone();
    let slot = host.make_job.make_job(&root);
    let ghost a = crate::jobhost::Adoption { root: root@, job: slot.job, jobs_before: host.book().jobs(), ok: false };
    proof {
        host.made@ = host.made@.push(a);
    }
    let r = adopt_slot(host, bus, gen, clock, &key, slot);
    proof {
        let n = host.made@.len() - 1;
        host.made@ = host.made@.update(n, crate::jobhost::Adoption { ok: r is Ok, ..a });
        assert(host.handed() =~= old(host).handed().push(root@));
        assert(host.adoptions().drop_last() =~= old(host).adoptions());
    }
    r
}

/// Turns the queued envelopes into jobs, oldest first; while shutting
/// down they are dropped instead.
pub fn flush_queue<'g>(
    host: &mut JobHost,
    bus: &mut Bus,
    gen: &mut &'g mut dyn IdGen,
    clock: &&'g dyn Clock,
) -> (r: Result<(), Error>)
    ensures
        host_kept(*final(host), *old(host)),
        r is Ok && !old(host).stopping() ==> final(host).handed() == old(host).handed() + old(host).queue_state().queued(),
        old(host).stopping() ==> final(host).adoptions() == old(host).adoptions(),
        old(host).handed().is_prefix_of(final(host).handed()),
        old(host).adoptions().is_prefix_of(final(host).adoptions()),
        final(host).adoptions().len() <= old(host).adoptions().len() + old(host).queue_state().queued().len(),
        !old(host).stopping() ==> final(host).handed() == old(host).handed() + old(host).queue_state().queued().take(
            final(host).adoptions().len() - old(host).adoptions().len(),
        ),
        final(host).adoptions().len() > old(host).adoptions().len() ==> final(host).adoptions()[old(
            host,
        ).adoptions().len() as int].jobs_before == old(host).book().jobs(),
        r is Err ==> !old(host).stopping() && final(host).adoptions().len() > old(host).adoptions().len()
            && !final(host).adoptions().last().ok,
        forall|i: int|
            old(host).adoptions().len() <= i < final(host).adoptions().len() - 1
                ==> (#[trigger] final(host).adoptions()[i]).ok,
        r is Ok && final(host).adoptions().len() > old(host).adoptions().len() ==> final(host).adoptions().last().ok,
        r is Err && old(host).book().wf() && final(host).adoptions().last().job.root_env().header.id@
            == final(host).adoptions().last().root.header.id
            ==> final(host).book().jobs() == final(host).adoptions().last().jobs_before,
        r is Ok ==> final(host).queue_state().queued().len() == 0,
        old(host).stopping() || old(host).queue_state().queued().len() == 0 ==> r is Ok && final(host).book()
            == old(host).book() && final(host).core_state() == old(host).core_state() && *final(bus) == *old(bus),
        old(host).book().wf() ==> final(host).book().wf(),
        !old(host).core_state().continuing() ==> !final(host).core_state().continuing(),
{
    let ghost n: int = 0;
    while !host.queue.is_empty()
        invariant
            host_kept(*host, *old(host)),
            0 <= n <= old(host).queue_state().queued().len(),
            host.queue_state().queued() == old(host).queue_state().queued().skip(n),
            !old(host).stopping() ==> host.handed() == old(host).handed() + old(host).queue_state().queued().take(n),
            old(host).stopping() ==> host.adoptions() == old(host).adoptions(),
            old(host).handed().is_prefix_of(host.handed()),
            old(host).adoptions().is_prefix_of(host.adoptions()),
            host.adoptions().len() <= old(host).adoptions().len() + n,
            !old(host).stopping() ==> host.adoptions().len() == old(host).adoptions().len() + n,
            host.adoptions().len() > old(host).adoptions().len() ==> host.adoptions()[old(
                host,
            ).adoptions().len() as int].jobs_before == old(host).book().jobs(),
            host.adoptions().len() == old(host).adoptions().len() ==> host.book() == old(host).book(),
            forall|i: int|
                old(host).adoptions().len() <= i < host.adoptions().len() ==> (#[trigger] host.adoptions()[i]).ok,
            old(host).stopping() ==> host.book() == old(host).book() && host.core_state() == old(host).core_state()
                && *bus == *old(bus),
            old(host).queue_state().queued().len() == 0 ==> host.queue_state() == old(host).queue_state()
                && host.book() == old(host).book() && host.core_state() == old(host).core_state() && *bus == *old(bus),
            old(host).book().wf() ==> host.book().wf(),
            !old(host).core_state().continuing() ==> !host.core_state().continuing(),
        decreases host.queue_state().queued().len(),
    {
        let ghost h0 = host.handed();
        let e = host.queue.popleft();
        proof {
            let q0 = old(host).queue_state().queued();
            assert(e@ == q0[n]);
            assert(q0.skip(n).drop_first() =~= q0.skip(n + 1));
            assert(q0.take(n + 1) =~= q0.take(n).push(q0[n]));
            n = n + 1;
        }
        if host.shutting_down {
            continue;
        }
        let ghost ad0 = host.adoptions();
        let ar = adopt_and_begin(host, bus, gen, clock, e);
        proof {
            assert forall|i: int| old(host).adoptions().len() <= i < host.adoptions().len() - 1 implies (
            #[trigger] host.adoptions()[i]).ok by {
                assert(host.adoptions().drop_last()[i] == host.adoptions()[i]);
                assert(ad0[i].ok);
            }
            assert(old(host).adoptions().is_prefix_of(host.adoptions())) by {
                assert(host.adoptions().subrange(0, ad0.len() as int) =~= host.adoptions().drop_last());
                assert(ad0.subrange(0, old(host).adoptions().len() as int) =~= old(host).adoptions());
                assert(host.adoptions().subrange(0, old(host).adoptions().len() as int) =~= ad0.subrange(
                    0,
                    old(host).adoptions().len() as int,
                ));
            }
        }
        match ar {
            Err(err) => return Err(err),
            Ok(()) => {},
        }
    }
    Ok(())
}

/// Forgets request `request_id` in the host's registry.
fn forget<'g>(host: &mut JobHost, bus: &mut Bus, request_id: &crate::envelope::id::EnvelopeId)
    ensures
        host_kept(*final(host), *old(host)),
        final(host).adoptions() == old(host).adoptions(),
        final(host).book() == old(host).book(),
        final(host).queue_state() == old(host).queue_state(),
        final(host).core_state().reg()@ == old(host).core_state().reg()@.remove(request_id@),
        final(host).core_state().continuing() == old(host).core_state().continuing(),
        old(host).core_state().reg().wf() ==> final(host).core_state().reg().wf(),
        final(bus).boxes() == old(bus).boxes(),
        old(bus).wf() ==> final(bus).wf() && subs_released(
            old(bus).subs(),
            final(bus).subs(),
            old(host).core_state().reg()@,
            Set::empty().insert(request_id@),
            old(host).ident_state().mailbox()@,
        ),
{
    let inbox = host.ident.inbox;
    proof {
        lemma_released_none(old(bus).subs(), old(host).core_state().reg()@, inbox@);
    }
    host.core.registry.finish_safe(bus, &inbox, request_id);
    proof {
        if old(bus).wf() {
            lemma_released_step(
                old(bus).subs(),
                old(bus).subs(),
                bus.subs(),
                old(host).core_state().reg()@,
                Set::empty(),
                request_id@,
                inbox@,
            );
        }
    }
}

/// Takes the job keyed `key` out of the book to hand it the result of its
/// request `rid`. The job and the registry forget `rid`, and the host
/// mailbox gives up the result subscription of `rid`, before any stage
/// runs. Gives the slot and the stage to run when the job awaited `rid`
/// unfinished; a job that did not is put back; with no job the request is
/// only forgotten.
pub fn settle_awaited(host: &mut JobHost, bus: &mut Bus, key: &EnvelopeId, rid: &EnvelopeId) -> (r: Option<
    (Slot, String),
>)
    ensures
        host_kept(*final(host), *old(host)),
        final(host).adoptions() == old(host).adoptions(),
        final(host).queue_state() == old(host).queue_state(),
        old(host).book().wf() ==> final(host).book().wf(),
        final(host).core_state().continuing() == old(host).core_state().continuing(),
        final(host).core_state().reg()@ == old(host).core_state().reg()@.remove(rid@),
        final(bus).boxes() == old(bus).boxes(),
        old(bus).wf() ==> final(bus).wf() && subs_released(
            old(bus).subs(),
            final(bus).subs(),
            old(host).core_state().reg()@,
            Set::empty().insert(rid@),
            old(host).ident_state().mailbox()@,
        ),
        !old(host).book().jobs().contains_key(key@) ==> r is None && final(host).book().jobs() == old(
            host,
        ).book().jobs(),
        old(host).book().jobs().contains_key(key@) ==> {
            let sv = old(host).book().slots()[key@];
            let j = old(host).book().jobs()[key@];
            if j.pending().contains_key(rid@) && !j.is_done() {
                &&& r matches Some((s, st)) && s.job.pending() == j.pending().remove(rid@) && job_kept(s.job, j)
                    && s@.begins == sv.begins && s@.stages == sv.stages && s@.finishes == sv.finishes
                    && st@ == j.pending()[rid@].stage && (j.wf() ==> s.job.wf())
                &&& final(host).book().jobs() == old(host).book().jobs().remove(key@)
                &&& final(host).book().slots() == old(host).book().slots().remove(key@)
            } else {
                &&& r is None
                &&& exists|j2: Job|
                    final(host).book().jobs() == #[trigger] jobs_after_place(old(host).book().jobs().remove(key@), j2)
                        && j2.pending() == j.pending().remove(rid@) && job_kept(j2, j)
            }
        },
{
    let slot = match host.slots.take(key) {
        None => {
            assert(host.book().jobs() =~= old(host).book().jobs());
            forget(host, bus, rid);
            return None;
        },
        Some(s) => s,
    };
    let Slot { mut job, hooks } = slot;
    let ghost j0 = job;
    let stage = JobCtx::settle_child(&mut job, &host.ident, &mut host.core, bus, rid);
    match stage {
        None => {
            let ghost j1 = job;
            host.slots.place(Slot { job, hooks });
            proof {
                assert(host.book().jobs() == jobs_after_place(old(host).book().jobs().remove(key@), j1));
            }
            None
        },
        Some(st) => Some((Slot { job, hooks }, st)),
    }
}

/// Routes result `env`: a fresh one goes to the job that issued the
/// request (found by the request id, else by the cause); the request is
/// forgotten when no live job awaits it, or when it had already settled.
pub fn route_result<'g>(
    host: &mut JobHost,
    bus: &mut Bus,
    gen: &mut &'g mut dyn IdGen,
    clock: &&'g dyn Clock,
    env: &Envelope,
) -> (r: Result<(), Error>)
    ensures
        host_kept(*final(host), *old(host)),
        final(host).adoptions() == old(host).adoptions(),
        final(host).queue_state() == old(host).queue_state(),
        !old(host).core_state().reg().is_bound() ==> (r matches Err(Error::State(m))
            && m@ == "IdGen bound by start_request or JobHost.handle"@) && final(host).core_state().reg()@
            == old(host).core_state().reg()@ && final(host).book() == old(host).book(),
        old(host).core_state().reg().is_bound() ==> match spec_request_id(*env) {
            Some(k) => {
                &&& !old(host).core_state().reg()@.contains_key(k) ==> r is Ok && final(host).core_state().reg()@
                    == old(host).core_state().reg()@ && final(host).book() == old(host).book() && *final(bus)
                    == *old(bus)
                &&& old(host).core_state().reg()@.contains_key(k) && old(host).core_state().reg()@[k].state
                    != crate::registry::State::Pending ==> r is Ok && final(host).book() == old(host).book()
                    && (final(host).core_state().reg()@ == old(host).core_state().reg()@
                    || final(host).core_state().reg()@ == old(host).core_state().reg()@.remove(k))
                &&& old(host).core_state().reg()@.contains_key(k) && old(host).core_state().reg()@[k].state
                    == crate::registry::State::Pending && !awaited(old(host).book(), k, env.header.cause@) ==> {
                    &&& r is Ok
                    &&& final(host).core_state().reg()@ == old(host).core_state().reg()@
                        || final(host).core_state().reg()@ == old(host).core_state().reg()@.remove(k)
                    &&& final(bus).boxes() == old(bus).boxes()
                    &&& forgot_in_jobs(
                        old(host).book().jobs(),
                        final(host).book().jobs(),
                        route_key(old(host).book(), k, env.header.cause@),
                        k,
                    )
                }
                &&& old(host).core_state().reg()@.contains_key(k) && old(host).core_state().reg()@[k].state
                    == crate::registry::State::Pending && awaited(old(host).book(), k, env.header.cause@)
                    && spec_result_body(*env) is Some && stage_free_idle(
                    old(host).book(),
                    route_key(old(host).book(), k, env.header.cause@)->Some_0,
                ) ==> {
                    &&& r is Ok
                    &&& (final(host).core_state().reg()@ == old(host).core_state().reg()@ && final(host).book().jobs()
                        == old(host).book().jobs() && *final(bus) == *old(bus)) || (final(host).core_state().reg()@
                        == old(host).core_state().reg()@.remove(k) && final(bus).boxes() == old(bus).boxes()
                        && settled_in_job(
                        old(host).book().jobs(),
                        final(host).book().jobs(),
                        route_key(old(host).book(), k, env.header.cause@)->Some_0,
                        k,
                    ))
                }
            },
            None => r is Ok && final(host).core_state().reg()@ == old(host).core_state().reg()@
                && final(host).book() == old(host).book() && *final(bus) == *old(bus),
        },
        old(host).book().wf() ==> final(host).book().wf(),
        !old(host).core_state().continuing() ==> !final(host).core_state().continuing(),
{
    let outcome = match host.core.registry.resolve_only(env, &**gen) {
        Err(e) => return Err(e),
        Ok(o) => o,
    };
    let ghost o = outcome;
    let ghost reg1 = host.core.registry@;
    let r = route_outcome(host, bus, gen, clock, env, outcome);
    proof {
        if old(host).core_state().reg().is_bound() {
            if let Some(k) = spec_request_id(*env) {
                if old(host).core_state().reg()@.contains_key(k) && old(host).core_state().reg()@[k].state
                    == crate::registry::State::Pending && o.fresh {
                    assert(reg1.remove(k) =~= old(host).core_state().reg()@.remove(k));
                }
            }
        }
    }
    r
}

/// The slot keyed `k` has no stage hook and no deferred request.
pub open spec fn stage_free_idle(b: SlotBook, k: Seq<char>) -> bool {
    !b.slots()[k].stages && b.jobs()[k].waiting().len() == 0
}

/// The job keyed `k` was put back having only forgotten request `rid`.
pub open spec fn settled_in_job(jobs0: Map<Seq<char>, Job>, jobs1: Map<Seq<char>, Job>, k: Seq<char>, rid: Seq<char>) -> bool {
    exists|j2: Job|
        jobs1 == #[trigger] jobs_after_place(jobs0.remove(k), j2) && j2.pending() == jobs0[k].pending().remove(rid)
            && job_kept(j2, jobs0[k])
}

/// Whether a live job at the route key of request `rid` (cause `cause`)
/// awaits its result.
pub open spec fn awaited(b: SlotBook, rid: Seq<char>, cause: Seq<char>) -> bool {
    let tk = route_key(b, rid, cause);
    &&& tk is Some
    &&& b.jobs().contains_key(tk->Some_0)
    &&& b.jobs()[tk->Some_0].pending().contains_key(rid)
    &&& !b.jobs()[tk->Some_0].is_done()
}

/// The live jobs are as before, or the job at `tk` was put back having
/// only forgotten request `rid`.
pub open spec fn forgot_in_jobs(
    jobs0: Map<Seq<char>, Job>,
    jobs1: Map<Seq<char>, Job>,
    tk: Option<Seq<char>>,
    rid: Seq<char>,
) -> bool {
    ||| jobs1 == jobs0
    ||| tk is Some && jobs0.contains_key(tk->Some_0) && exists|j2: Job|
        jobs1 == #[trigger] jobs_after_place(jobs0.remove(tk->Some_0), j2) && j2.pending() == jobs0[tk->Some_0].pending().remove(
            rid,
        ) && job_kept(j2, jobs0[tk->Some_0])
}

/// Routes result `env` once the registry has judged it (`outcome`): a
/// result that was not fresh only makes a settled request be forgotten; a
/// fresh one goes to the job at `route_key` (the job that issued the
/// request, else the job of the cause), which forgets the request and, if
/// it awaited it, runs its stage; with no such job the request is
/// forgotten.
pub fn route_outcome<'g>(
    host: &mut JobHost,
    bus: &mut Bus,
    gen: &mut &'g mut dyn IdGen,
    clock: &&'g dyn Clock,
    env: &Envelope,
    outcome: ResolveOutcome,
) -> (r: Result<(), Error>)
    ensures
        host_kept(*final(host), *old(host)),
        final(host).adoptions() == old(host).adoptions(),
        final(host).queue_state() == old(host).queue_state(),
        old(host).book().wf() ==> final(host).book().wf(),
        !old(host).core_state().continuing() ==> !final(host).core_state().continuing(),
        match outcome.request_id {
            None => r is Ok && final(host).book() == old(host).book() && final(host).core_state().reg()@ == old(
                host,
            ).core_state().reg()@ && *final(bus) == *old(bus),
            Some(rid) => if !outcome.fresh {
                &&& r is Ok
                &&& final(host).book() == old(host).book()
                &&& final(bus).boxes() == old(bus).boxes()
                &&& outcome.state is Some ==> final(host).core_state().reg()@ == old(host).core_state().reg()@.remove(
                    rid@,
                )
                &&& outcome.state is None ==> final(host).core_state().reg()@ == old(host).core_state().reg()@
                    && *final(bus) == *old(bus)
            } else {
                let jobs0 = old(host).book().jobs();
                let tk = route_key(old(host).book(), rid@, env.header.cause@);
                let forgotten = final(host).core_state().reg()@ == old(host).core_state().reg()@.remove(rid@)
                    && final(bus).boxes() == old(bus).boxes() && (old(bus).wf() ==> subs_released(
                    old(bus).subs(),
                    final(bus).subs(),
                    old(host).core_state().reg()@,
                    Set::empty().insert(rid@),
                    old(host).ident_state().mailbox()@,
                ));
                if spec_result_body(*env) is Some && tk is Some && jobs0.contains_key(tk->Some_0) {
                    let k = tk->Some_0;
                    let j = jobs0[k];
                    let sv = old(host).book().slots()[k];
                    &&& r is Err ==> final(host).book().jobs() == jobs0.remove(k)
                    &&& r is Ok ==> exists|j2: Job| final(host).book().jobs() == #[trigger] jobs_after_place(jobs0.remove(k), j2)
                    &&& !(j.pending().contains_key(rid@) && !j.is_done()) ==> {
                        &&& r is Ok
                        &&& forgotten
                        &&& exists|j2: Job|
                            final(host).book().jobs() == #[trigger] jobs_after_place(jobs0.remove(k), j2)
                                && j2.pending() == j.pending().remove(rid@) && job_kept(j2, j)
                    }
                    &&& j.pending().contains_key(rid@) && !j.is_done() && !sv.stages ==> {
                        &&& j.waiting().len() == 0 ==> {
                            &&& r is Ok
                            &&& forgotten
                            &&& exists|j2: Job|
                                final(host).book().jobs() == #[trigger] jobs_after_place(jobs0.remove(k), j2)
                                    && j2.pending() == j.pending().remove(rid@) && job_kept(j2, j)
                        }
                        &&& r is Ok ==> exists|j2: Job|
                            final(host).book().jobs() == #[trigger] jobs_after_place(jobs0.remove(k), j2)
                                && j2.root_env() == j.root_env() && !j2.is_done() && j2.waiting().len() == 0
                                && forall|i: int|
                                0 <= i < j.waiting().len() ==> j2.pending().contains_key(
                                    #[trigger] j.waiting()[i].request_id,
                                )
                    }
                } else {
                    &&& r is Ok
                    &&& final(host).book().jobs() == jobs0
                    &&& forgotten
                }
            },
        },
{
    let fresh = outcome.fresh;
    let settled = outcome.state.is_some();
    let request_id = match outcome.request_id {
        None => return Ok(()),
        Some(r) => r,
    };
    if !fresh {
        if settled {
            forget(host, bus, &request_id);
        }
        return Ok(());
    }
    let body = match result_body(env) {
        None => {
            forget(host, bus, &request_id);
            return Ok(());
        },
        Some(b) => b,
    };
    let key = match host.slots.parent_key(&request_id, &env.header.cause) {
        None => {
            forget(host, bus, &request_id);
            return Ok(());
        },
        Some(k) => k,
    };
    // The job and the registry forget the request before any stage runs.
    let (slot, stage) = match settle_awaited(host, bus, &key, &request_id) {
        None => return Ok(()),
        Some(x) => x,
    };
    let Slot { mut job, mut hooks } = slot;
    let ghost j_s = job;
    if hooks.on_stage_result.is_none() {
        // Without a stage hook only the deferred requests go out.
        match JobCtx::flush_deferred(&mut job, &host.ident, &mut host.core, bus, &mut **gen, &**clock) {
            Err(e) => return Err(e),
            Ok(()) => {},
        }
    } else {
        let r = {
            let mut ctx = JobCtx {
                job: &mut job,
                ident: &host.ident,
                core: &mut host.core,
                bus,
                gen,
                clock,
                on_finished: &mut hooks.on_finished,
            };
            ctx.emit(stage.as_str(), body, &mut hooks.on_stage_result)
        };
        // Between dispatches no stage result is being handled.
        host.core.in_continuation = false;
        match r {
            Err(e) => return Err(e),
            Ok(()) => {},
        }
    }
    let ghost j1 = job;
    host.slots.place(Slot { job, hooks });
    proof {
        assert(host.book().jobs() == jobs_after_place(old(host).book().jobs().remove(key@), j1));
    }
    Ok(())
}

/// Dispatches one envelope: a result is routed; otherwise, unless the host
/// is shutting down, an accepted business envelope is queued.
pub fn dispatch<'g>(
    host: &mut JobHost,
    bus: &mut Bus,
    gen: &mut &'g mut dyn IdGen,
    clock: &&'g dyn Clock,
    env: &Envelope,
) -> (r: Result<(), Error>)
    ensures
        host_kept(*final(host), *old(host)),
        final(host).adoptions() == old(host).adoptions(),
        old(host).book().wf() ==> final(host).book().wf(),
        !old(host).core_state().continuing() ==> !final(host).core_state().continuing(),
        old(host).stopping() ==> final(host).queue_state() == old(host).queue_state(),
        spec_request_id(*env) is None || spec_result_body(*env) is None ==> {
            &&& final(host).book() == old(host).book()
            &&& final(host).core_state() == old(host).core_state()
            &&& *final(bus) == *old(bus)
            &&& if old(host).stopping() || !accepted(old(host).accepts(), env.header.topic@) {
                r is Ok && final(host).queue_state() == old(host).queue_state()
            } else if old(host).queue_state().queued().len() >= old(host).queue_state().cap() {
                r == Err::<(), Error>(Error::QueueFull) && final(host).queue_state().queued() == old(
                    host,
                ).queue_state().queued()
            } else {
                r is Ok && final(host).queue_state().queued() == old(host).queue_state().queued().push(env@)
            }
        },
{
    let is_result = crate::result::look::looks_like_result_envelope(env, &**gen);
    dispatch_judged(host, bus, gen, clock, env, is_result)
}

/// Dispatches `env` once it is known whether it is a result: a result is
/// routed and never queued; otherwise, unless the host is shutting down, an
/// accepted business envelope is queued.
pub fn dispatch_judged<'g>(
    host: &mut JobHost,
    bus: &mut Bus,
    gen: &mut &'g mut dyn IdGen,
    clock: &&'g dyn Clock,
    env: &Envelope,
    is_result: bool,
) -> (r: Result<(), Error>)
    ensures
        host_kept(*final(host), *old(host)),
        final(host).adoptions() == old(host).adoptions(),
        old(host).book().wf() ==> final(host).book().wf(),
        !old(host).core_state().continuing() ==> !final(host).core_state().continuing(),
        is_result ==> final(host).queue_state() == old(host).queue_state(),
        is_result && !old(host).core_state().reg().is_bound() ==> (r matches Err(Error::State(m)) && m@
            == "IdGen bound by start_request or JobHost.handle"@),
        is_result && old(host).core_state().reg().is_bound() ==> match spec_request_id(*env) {
            Some(k) => old(host).core_state().reg()@.contains_key(k) && old(host).core_state().reg()@[k].state
                == crate::registry::State::Pending && !awaited(old(host).book(), k, env.header.cause@) ==> {
                &&& r is Ok
                &&& final(host).core_state().reg()@ == old(host).core_state().reg()@
                    || final(host).core_state().reg()@ == old(host).core_state().reg()@.remove(k)
                &&& forgot_in_jobs(
                    old(host).book().jobs(),
                    final(host).book().jobs(),
                    route_key(old(host).book(), k, env.header.cause@),
                    k,
                )
            } && (old(host).core_state().reg()@.contains_key(k) && old(host).core_state().reg()@[k].state
                == crate::registry::State::Pending && awaited(old(host).book(), k, env.header.cause@)
                && spec_result_body(*env) is Some && stage_free_idle(
                old(host).book(),
                route_key(old(host).book(), k, env.header.cause@)->Some_0,
            ) ==> {
                &&& r is Ok
                &&& (final(host).core_state().reg()@ == old(host).core_state().reg()@ && final(host).book().jobs()
                    == old(host).book().jobs() && *final(bus) == *old(bus)) || (final(host).core_state().reg()@
                    == old(host).core_state().reg()@.remove(k) && final(bus).boxes() == old(bus).boxes()
                    && settled_in_job(
                    old(host).book().jobs(),
                    final(host).book().jobs(),
                    route_key(old(host).book(), k, env.header.cause@)->Some_0,
                    k,
                ))
            }),
            None => r is Ok && final(host).book() == old(host).book() && *final(bus) == *old(bus),
        },
        !is_result ==> {
            &&& final(host).book() == old(host).book()
            &&& final(host).core_state() == old(host).core_state()
            &&& *final(bus) == *old(bus)
            &&& if old(host).stopping() || !accepted(old(host).accepts(), env.header.topic@) {
                r is Ok && final(host).queue_state() == old(host).queue_state()
            } else if old(host).queue_state().queued().len() >= old(host).queue_state().cap() {
                r == Err::<(), Error>(Error::QueueFull) && final(host).queue_state().queued() == old(
                    host,
                ).queue_state().queued()
            } else {
                r is Ok && final(host).queue_state().queued() == old(host).queue_state().queued().push(env@)
            }
        },
{
    if is_result {
        return route_result(host, bus, gen, clock, env);
    }
    if host.shutting_down {
        return Ok(());
    }
    if !matches_business(&host.accept, env) {
        return Ok(());
    }
    host.queue.offer(env.clone())
}

/// The job has no outstanding request with a deadline.
pub open spec fn no_deadlines(j: Job) -> bool {
    forall|k: Seq<char>| #[trigger] j.pending().contains_key(k) ==> j.pending()[k].deadline_ms == 0
}

/// Every live job is consistent, unfinished, stored under its root id, and
/// awaits nothing with a deadline: the watchdog has nothing to do.
pub open spec fn quiet_book(b: SlotBook) -> bool {
    forall|k: Seq<char>|
        #[trigger] b.jobs().contains_key(k) ==> {
            let j = b.jobs()[k];
            &&& j.wf()
            &&& !j.is_done()
            &&& no_deadlines(j)
            &&& j.root_env().header.id@ == k
        }
}

/// Times out the due requests of every live job, at the clock's time.
pub fn watchdog<'g>(
    host: &mut JobHost,
    bus: &mut Bus,
    gen: &mut &'g mut dyn IdGen,
    clock: &&'g dyn Clock,
) -> (r: Result<(), Error>)
    ensures
        host_kept(*final(host), *old(host)),
        final(host).adoptions() == old(host).adoptions(),
        final(host).queue_state() == old(host).queue_state(),
        old(host).book().wf() ==> final(host).book().wf(),
        !old(host).core_state().continuing() ==> !final(host).core_state().continuing(),
        quiet_book(old(host).book()) ==> r is Ok && final(host).book().jobs() == old(host).book().jobs()
            && final(host).core_state().reg()@ == old(host).core_state().reg()@ && *final(bus) == *old(bus),
{
    let now = clock.now_ms();
    let keys = host.slots.active_keys();
    let ghost quiet = quiet_book(old(host).book());
    let ghost jobs0 = old(host).book().jobs();
    let mut i: usize = 0;
    while i < keys.len()
        invariant
            i <= keys@.len(),
            host_kept(*host, *old(host)),
            host.adoptions() == old(host).adoptions(),
            host.queue_state() == old(host).queue_state(),
            old(host).book().wf() ==> host.book().wf(),
            !old(host).core_state().continuing() ==> !host.core_state().continuing(),
            quiet == quiet_book(old(host).book()),
            jobs0 == old(host).book().jobs(),
            quiet ==> host.book().jobs() == jobs0 && host.core_state().reg()@ == old(host).core_state().reg()@
                && *bus == *old(bus),
        decreases keys@.len() - i,
    {
        let slot = match host.slots.take(&keys[i]) {
            None => {
                proof {
                    if quiet {
                        assert(host.book().jobs() =~= jobs0);
                    }
                }
                i = i + 1;
                continue;
            },
            Some(s) => s,
        };
        let ghost k = keys@[i as int]@;
        let ghost j0 = slot.job;
        let due = slot.job.due_ids(now);
        if due.len() == 0 {
            // Nothing of this job is due: it goes back as it was.
            host.slots.place(slot);
            proof {
                if quiet {
                    assert(jobs0.contains_key(k));
                    assert(host.book().jobs() =~= jobs0);
                }
            }
            i = i + 1;
            continue;
        }
        proof {
            if quiet {
                assert(jobs0.contains_key(k));
                assert(j0 == jobs0[k]);
                assert(j0.pending().contains_key(due@[0]@));
                assert(crate::job::is_due(j0.pending()[due@[0]@], now));
                assert(j0.pending()[due@[0]@].deadline_ms == 0);
            }
        }
        let Slot { mut job, mut hooks } = slot;
        let r = {
            let mut ctx = JobCtx {
                job: &mut job,
                ident: &host.ident,
                core: &mut host.core,
                bus,
                gen,
                clock,
                on_finished: &mut hooks.on_finished,
            };
            ctx.expire_due(now, &mut hooks.on_stage_result)
        };
        // Between dispatches no stage result is being handled.
        host.core.in_continuation = false;
        match r {
            Err(e) => return Err(e),
            Ok(()) => {},
        }
        host.slots.place(Slot { job, hooks });
        i = i + 1;
    }
    Ok(())
}

} // verus!
