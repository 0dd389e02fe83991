use std::cell::{Cell, RefCell};
use std::rc::Rc;

use eba::jobhost::EnvelopeQueue;
use eba::{
    err_payload, is_result_err, is_result_ok, make_envelope, ok_payload, result_error, result_value, ActorId,
    BeginHook, Bus, Clock, Envelope, EnvelopeId, FinishCtx, FinishInfo, FinishedHook, HostParams, Hooks, IdGen, Inbox,
    InboxHandle, Job, JobCtx, JobFactory, JobHost, MakeOptions, ManualClock, RequestSpec, SeqIdGen, Slot, StageHook,
    State, Value,
};

struct OnBegin<F>(F);

impl<F: FnMut(&mut JobCtx<'_, '_>) -> eba::Result<()>> BeginHook for OnBegin<F> {
    fn on_begin(&mut self, ctx: &mut JobCtx<'_, '_>) -> eba::Result<()> {
        (self.0)(ctx)
    }
}

struct OnStage<F>(F);

impl<F: FnMut(&mut JobCtx<'_, '_>, &str, &Value) -> eba::Result<()>> StageHook for OnStage<F> {
    fn on_stage_result(&mut self, ctx: &mut JobCtx<'_, '_>, stage: &str, body: &Value) -> eba::Result<()> {
        (self.0)(ctx, stage, body)
    }
}

struct OnFinished<F>(F);

impl<F: FnMut(&mut FinishCtx<'_, '_>, &FinishInfo) -> eba::Result<()>> FinishedHook for OnFinished<F> {
    fn on_finished(&mut self, ctx: &mut FinishCtx<'_, '_>, info: &FinishInfo) -> eba::Result<()> {
        (self.0)(ctx, info)
    }
}

struct Factory<F>(F);

impl<F: Fn(&Envelope) -> Slot> JobFactory for Factory<F> {
    fn make_job(&self, root: &Envelope) -> Slot {
        (self.0)(root)
    }
}

fn begin<F>(f: F) -> Option<Box<dyn BeginHook>>
where
    F: FnMut(&mut JobCtx<'_, '_>) -> eba::Result<()> + 'static,
{
    Some(Box::new(OnBegin(f)))
}

fn stage<F>(f: F) -> Option<Box<dyn StageHook>>
where
    F: FnMut(&mut JobCtx<'_, '_>, &str, &Value) -> eba::Result<()> + 'static,
{
    Some(Box::new(OnStage(f)))
}

fn finished<F>(f: F) -> Option<Box<dyn FinishedHook>>
where
    F: FnMut(&mut FinishCtx<'_, '_>, &FinishInfo) -> eba::Result<()> + 'static,
{
    Some(Box::new(OnFinished(f)))
}

fn factory<F>(f: F) -> Box<dyn JobFactory>
where
    F: Fn(&Envelope) -> Slot + 'static,
{
    Box::new(Factory(f))
}

fn slot(job: Job, on_begin: Option<Box<dyn BeginHook>>, on_stage_result: Option<Box<dyn StageHook>>) -> Slot {
    Slot { job, hooks: Hooks { on_begin, on_stage_result, on_finished: None } }
}

fn actor_a() -> ActorId {
    ActorId("a".to_string())
}

fn actor_h() -> ActorId {
    ActorId("host".to_string())
}

fn actor_l() -> ActorId {
    ActorId("leaf".to_string())
}

fn object(pairs: Vec<(&str, Value)>) -> Value {
    let mut v = Value::object();
    for (k, x) in pairs {
        v.insert(k.to_string(), x);
    }
    v
}

fn env_gen(topic: &str, payload: Value, gen: &mut SeqIdGen) -> Envelope {
    make_envelope(
        topic,
        payload,
        actor_a(),
        MakeOptions {
            id_gen: Some(gen),
            ..Default::default()
        },
    )
    .expect("env")
}

fn env_n(topic: &str, n: i64) -> Envelope {
    make_envelope(
        topic,
        Value::Int(n),
        actor_a(),
        MakeOptions {
            id: Some(EnvelopeId(format!("{n:032x}"))),
            ..Default::default()
        },
    )
    .expect("env")
}

fn err_body(msg: &str) -> Value {
    err_payload(msg, &[]).unwrap()
}

fn result_echo(rid: &EnvelopeId, cause: &EnvelopeId, body: Value, gen: &mut SeqIdGen) -> Envelope {
    let topic = eba::result_topic_of(rid, "acl.result", &*gen).unwrap();
    make_envelope(
        &topic,
        object(vec![("request_id", Value::Str(rid.0.clone())), ("result", body)]),
        actor_l(),
        MakeOptions {
            cause: Some(cause.clone()),
            id_gen: Some(gen),
            ..Default::default()
        },
    )
    .expect("echo")
}

fn params(actor: ActorId, inbox: InboxHandle, patterns: &[&str], timeout: i64, limit: usize, make: Box<dyn JobFactory>) -> HostParams {
    HostParams {
        actor_id: actor,
        inbox,
        patterns: patterns.iter().map(|p| p.to_string()).collect(),
        accept: None,
        request_timeout_ms: timeout,
        queue_limit: limit,
        make_job: make,
    }
}

fn read_job(root: &Envelope) -> Slot {
    slot(
        Job::new(root.clone()),
        begin(|ctx| {
            let payload = ctx.job.root.payload.clone();
            ctx.reply("read.result", &ok_payload(payload.clone()))?;
            ctx.finish(FinishInfo::ok_answer(payload))
        }),
        None,
    )
}

fn echo_job(root: &Envelope) -> Slot {
    slot(
        Job::new(root.clone()),
        begin(|ctx| {
            ctx.reply("acl.result", &ok_payload(Value::Str("allow".to_string())))?;
            ctx.finish(FinishInfo::ok_answer(Value::Str("allow".to_string())))
        }),
        None,
    )
}

fn wait_job(root: &Envelope, begins: Rc<Cell<u32>>) -> Slot {
    slot(
        Job::new(root.clone()),
        begin(move |ctx| {
            begins.set(begins.get() + 1);
            ctx.request(RequestSpec {
                stage: "ext".to_string(),
                request_prefix: "ext.wait".to_string(),
                result_prefix: "ext.wait.result".to_string(),
                payload: Value::Null,
            })?;
            Ok(())
        }),
        stage(|ctx, _stage, body| {
            if is_result_err(body) {
                let msg = result_error(body).unwrap_or("err").to_string();
                ctx.reply("wait.result", body)?;
                return ctx.finish(FinishInfo::err_msg(&msg));
            }
            let v = result_value(body).cloned().unwrap_or(Value::Null);
            ctx.reply("wait.result", &ok_payload(v.clone()))?;
            ctx.finish(FinishInfo::ok_answer(v))
        }),
    )
}

#[derive(Default, Clone)]
struct StepState {
    seen: Vec<String>,
    child_id: Option<EnvelopeId>,
}

type States = Rc<RefCell<Vec<StepState>>>;

fn new_states() -> States {
    Rc::new(RefCell::new(vec![]))
}

fn step_job(root: &Envelope, states: &States) -> Slot {
    let st = states.clone();
    let st2 = states.clone();
    slot(
        Job::new(root.clone()),
        begin(move |ctx| {
            let id = ctx.request(RequestSpec {
                stage: "acl".to_string(),
                request_prefix: "acl".to_string(),
                result_prefix: "acl.result".to_string(),
                payload: object(vec![("who", Value::Str("x".to_string()))]),
            })?;
            st.borrow_mut().push(StepState { seen: vec![], child_id: Some(id) });
            Ok(())
        }),
        stage(move |ctx, stage, body| {
            st2.borrow_mut().last_mut().expect("state recorded at begin").seen.push(stage.to_string());
            if is_result_err(body) {
                let msg = result_error(body).unwrap_or("err").to_string();
                return ctx.finish(FinishInfo { ok: false, error: Some(msg), answer: None });
            }
            let v = result_value(body).cloned().unwrap_or(Value::Null);
            ctx.reply("job.result", &ok_payload(v.clone()))?;
            ctx.finish(FinishInfo::ok_answer(v))
        }),
    )
}

fn step_host(bus: &mut Bus, inbox: InboxHandle, timeout_ms: i64, queue_limit: usize) -> (JobHost, States) {
    let states = new_states();
    let st = states.clone();
    let host = JobHost::new(
        bus,
        params(actor_h(), inbox, &["job"], timeout_ms, queue_limit, factory(move |root| step_job(root, &st))),
    );
    (host, states)
}

fn wait_host(bus: &mut Bus, timeout_ms: i64) -> (JobHost, Rc<Cell<u32>>) {
    let begins = Rc::new(Cell::new(0));
    let b = begins.clone();
    let inbox = bus.attach(Inbox::new(8));
    let host = JobHost::new(
        bus,
        params(actor_h(), inbox, &["wait"], timeout_ms, 0, factory(move |root| wait_job(root, b.clone()))),
    );
    (host, begins)
}

fn leaf_host(bus: &mut Bus) -> JobHost {
    let inbox = bus.attach(Inbox::new(8));
    JobHost::new(bus, params(actor_l(), inbox, &["acl.*"], 0, 0, factory(echo_job)))
}

fn combo_host(bus: &mut Bus, states: States) -> JobHost {
    let inbox = bus.attach(Inbox::new(8));
    JobHost::new(
        bus,
        params(
            actor_h(),
            inbox,
            &["job", "acl.*"],
            0,
            0,
            factory(move |root| {
                if root.header.topic.starts_with("acl") {
                    echo_job(root)
                } else {
                    step_job(root, &states)
                }
            }),
        ),
    )
}

#[test]
fn sync_begin_reply_finish() {
    let mut bus = Bus::new();
    let clk = ManualClock::new(0);
    let mut gen = SeqIdGen::new(1);
    let ib = bus.attach(Inbox::new(8));
    let mut host = JobHost::new(&mut bus, params(actor_h(), ib, &["read"], 0, 0, factory(read_job)));
    host.start(&mut bus).unwrap();
    let dest = bus.attach(Inbox::new(8));
    bus.subscribe("read.result.**", &dest).unwrap();
    let root = env_gen("read", Value::Str("buf.a".to_string()), &mut gen);
    host.handle(&mut bus, &root, &clk, &mut gen).unwrap();
    let got = bus.try_recv(&dest).expect("reply must be delivered");
    let result = got.payload.get("result").cloned().expect("result key");
    assert_eq!(result_value(&result), Some(&Value::Str("buf.a".to_string())));
    assert!(host.job(&got.header.cause).is_none());
}

#[test]
fn request_then_stage() {
    let mut bus = Bus::new();
    let clk = ManualClock::new(0);
    let mut gen = SeqIdGen::new(1);
    let ib = bus.attach(Inbox::new(8));
    let (mut parent, _states) = step_host(&mut bus, ib, 0, 0);
    let mut leaf = leaf_host(&mut bus);
    parent.start(&mut bus).unwrap();
    leaf.start(&mut bus).unwrap();
    let dest = bus.attach(Inbox::new(8));
    bus.subscribe("job.result.**", &dest).unwrap();

    let root = env_gen("job", Value::Null, &mut gen);
    parent.handle(&mut bus, &root, &clk, &mut gen).unwrap();
    let child = bus.try_recv(leaf.inbox()).expect("leaf must receive the request");
    assert_eq!(child.header.cause, root.header.cause);
    leaf.handle(&mut bus, &child, &clk, &mut gen).unwrap();
    let result = bus.try_recv(parent.inbox()).expect("parent gets stage result");
    parent.handle(&mut bus, &result, &clk, &mut gen).unwrap();
    let done = bus.try_recv(&dest).expect("root reply delivered");
    assert!(is_result_ok(done.payload.get("result").unwrap()));
}

#[test]
fn same_inbox_request_drains() {
    let mut bus = Bus::new();
    let clk = ManualClock::new(0);
    let mut gen = SeqIdGen::new(1);
    let states = new_states();
    let mut host = combo_host(&mut bus, states);
    host.start(&mut bus).unwrap();
    let dest = bus.attach(Inbox::new(8));
    bus.subscribe("job.result.**", &dest).unwrap();
    let root = env_gen("job", Value::Null, &mut gen);
    host.handle(&mut bus, &root, &clk, &mut gen).unwrap();
    let done = bus.try_recv(&dest).expect("same-inbox drain finishes in one handle");
    assert!(is_result_ok(done.payload.get("result").unwrap()));
}

#[test]
fn clock_watchdog() {
    let mut bus = Bus::new();
    let mut clk = ManualClock::new(0);
    let mut gen = SeqIdGen::new(1);
    let ib = bus.attach(Inbox::new(8));
    let (mut parent, states) = step_host(&mut bus, ib, 10, 0);
    parent.start(&mut bus).unwrap();
    let root = env_gen("job", Value::Null, &mut gen);
    parent.handle(&mut bus, &root, &clk, &mut gen).unwrap();
    assert!(parent.job(&root.header.cause).is_some(), "job must be on stage");
    clk.advance(10);
    let ok = parent.poll(&mut bus, &clk, &mut gen).unwrap();
    assert!(!ok, "watchdog poll consumes nothing");
    let st = states.borrow();
    assert_eq!(st[0].seen, vec!["acl".to_string()]);
    drop(st);
    assert!(
        parent.job(&root.header.cause).map(|j| j.is_finished()) != Some(false),
        "timed-out job must be finished"
    );
}

#[test]
fn root_cause_unique() {
    let mut bus = Bus::new();
    let clk = ManualClock::new(0);
    let mut gen = SeqIdGen::new(1);
    let (mut host, _begins) = wait_host(&mut bus, 0);
    let root = env_gen("wait", Value::Null, &mut gen);
    host.handle(&mut bus, &root, &clk, &mut gen).unwrap();
    let dup = make_envelope(
        "wait",
        Value::Null,
        actor_a(),
        MakeOptions {
            id: Some(root.header.id.clone()),
            cause: Some(root.header.cause.clone()),
            ..Default::default()
        },
    )
    .unwrap();
    let err = host.handle(&mut bus, &dup, &clk, &mut gen).unwrap_err();
    assert!(
        matches!(err, eba::Error::State(ref m) if m.contains("duplicate")),
        "duplicate cause must be a violation: {}",
        err.message()
    );
}

#[test]
fn leaf_ids_share_cause() {
    let mut bus = Bus::new();
    let clk = ManualClock::new(0);
    let mut gen = SeqIdGen::new(1);
    let mut leaf = leaf_host(&mut bus);
    let cause = gen.next_envelope_id();
    let a = gen.next_envelope_id();
    let b = gen.next_envelope_id();
    let seg_a = eba::topic_segment(&a).unwrap();
    let seg_b = eba::topic_segment(&b).unwrap();
    let env_a = make_envelope(
        &format!("acl.{seg_a}"),
        Value::Int(1),
        actor_a(),
        MakeOptions {
            id: Some(a.clone()),
            cause: Some(cause.clone()),
            ..Default::default()
        },
    )
    .unwrap();
    let env_b = make_envelope(
        &format!("acl.{seg_b}"),
        Value::Int(2),
        actor_a(),
        MakeOptions {
            id: Some(b.clone()),
            cause: Some(cause.clone()),
            ..Default::default()
        },
    )
    .unwrap();
    leaf.handle(&mut bus, &env_a, &clk, &mut gen).unwrap();
    leaf.handle(&mut bus, &env_b, &clk, &mut gen).unwrap();
    assert!(leaf.job(&a).is_none());
    assert!(leaf.job(&b).is_none());
}

#[test]
fn unmatched_and_two_active() {
    let mut bus = Bus::new();
    let clk = ManualClock::new(0);
    let mut gen = SeqIdGen::new(1);
    let ib = bus.attach(Inbox::new(8));
    let (mut host, _states) = step_host(&mut bus, ib, 0, 1);
    host.start(&mut bus).unwrap();
    let other = env_gen("other", Value::Int(1), &mut gen);
    host.handle(&mut bus, &other, &clk, &mut gen).unwrap();
    let first = env_gen("job", Value::Null, &mut gen);
    let second = env_gen("job", object(vec![("pad", Value::Int(1))]), &mut gen);
    host.handle(&mut bus, &first, &clk, &mut gen).unwrap();
    host.handle(&mut bus, &second, &clk, &mut gen).unwrap();
    assert!(host.job(&first.header.cause).is_some(), "two active jobs must coexist on stage");
    assert!(host.job(&second.header.cause).is_some());
}

#[test]
fn accept_narrower_than_subscribe() {
    let mut bus = Bus::new();
    let clk = ManualClock::new(0);
    let mut gen = SeqIdGen::new(1);
    let states = new_states();
    let st = states.clone();
    let ib = bus.attach(Inbox::new(8));
    let mut p = params(actor_h(), ib, &["job.**"], 0, 0, factory(move |root| step_job(root, &st)));
    p.accept = Some(vec!["job".to_string()]);
    let mut host = JobHost::new(&mut bus, p);
    host.start(&mut bus).unwrap();
    let extra = env_gen("job.extra", Value::Null, &mut gen);
    host.handle(&mut bus, &extra, &clk, &mut gen).unwrap();
    assert!(host.job(&extra.header.cause).is_none());
    let root = env_gen("job", Value::Null, &mut gen);
    host.handle(&mut bus, &root, &clk, &mut gen).unwrap();
    assert!(host.job(&root.header.cause).is_some());
}

#[test]
fn finish_idempotent() {
    let ends: Rc<RefCell<Vec<bool>>> = Rc::new(RefCell::new(vec![]));
    let mut bus = Bus::new();
    let clk = ManualClock::new(0);
    let mut gen = SeqIdGen::new(1);
    let ends2 = ends.clone();
    let ib = bus.attach(Inbox::new(8));
    let mut host = JobHost::new(
        &mut bus,
        params(
            actor_h(),
            ib,
            &["job"],
            0,
            0,
            factory(move |root| {
                let ends3 = ends2.clone();
                Slot {
                    job: Job::new(root.clone()),
                    hooks: Hooks {
                        on_begin: begin(|ctx| {
                            ctx.finish(FinishInfo::ok_answer(Value::Int(1)))?;
                            ctx.finish(FinishInfo::err_msg("no"))
                        }),
                        on_stage_result: None,
                        on_finished: finished(move |_ctx, info| {
                            ends3.borrow_mut().push(info.ok);
                            Ok(())
                        }),
                    },
                }
            }),
        ),
    );
    let root = env_gen("job", Value::Null, &mut gen);
    host.handle(&mut bus, &root, &clk, &mut gen).unwrap();
    assert_eq!(*ends.borrow(), vec![true]);
    assert!(host.job(&root.header.cause).is_none());
}

#[test]
fn begin_error_drops_slot() {
    let mut bus = Bus::new();
    let clk = ManualClock::new(0);
    let mut gen = SeqIdGen::new(1);
    let ib = bus.attach(Inbox::new(8));
    let mut host = JobHost::new(
        &mut bus,
        params(
            actor_h(),
            ib,
            &["job"],
            0,
            0,
            factory(|root| slot(Job::new(root.clone()), begin(|_ctx| Err(eba::Error::State("boom".to_string()))), None)),
        ),
    );
    let root = env_gen("job", Value::Null, &mut gen);
    let err = host.handle(&mut bus, &root, &clk, &mut gen).unwrap_err();
    assert!(matches!(err, eba::Error::State(ref m) if m == "boom"));
    assert!(host.job(&root.header.cause).is_none());
}

#[test]
fn no_timeout_does_not_expire() {
    let mut bus = Bus::new();
    let mut clk = ManualClock::new(0);
    let mut gen = SeqIdGen::new(1);
    let ib = bus.attach(Inbox::new(8));
    let (mut host, _states) = step_host(&mut bus, ib, 0, 0);
    host.start(&mut bus).unwrap();
    let root = env_gen("job", Value::Null, &mut gen);
    host.handle(&mut bus, &root, &clk, &mut gen).unwrap();
    assert!(host.job(&root.header.cause).is_some());
    clk.advance(10_000);
    host.poll(&mut bus, &clk, &mut gen).unwrap();
    assert!(host.job(&root.header.cause).is_some(), "without timeout the watchdog must leave the job alone");
}

#[test]
fn late_result_after_timeout() {
    let mut bus = Bus::new();
    let mut clk = ManualClock::new(0);
    let mut gen = SeqIdGen::new(1);
    let ib = bus.attach(Inbox::new(8));
    let (mut host, states) = step_host(&mut bus, ib, 5, 0);
    host.start(&mut bus).unwrap();
    let root = env_gen("job", Value::Null, &mut gen);
    host.handle(&mut bus, &root, &clk, &mut gen).unwrap();
    let child_id = states.borrow()[0].child_id.clone().expect("child id");
    clk.advance(5);
    host.poll(&mut bus, &clk, &mut gen).unwrap();
    assert_eq!(states.borrow()[0].seen, vec!["acl".to_string()]);
    let echo = result_echo(&child_id, &root.header.cause, ok_payload(Value::Str("late".to_string())), &mut gen);
    host.handle(&mut bus, &echo, &clk, &mut gen).unwrap();
    assert!(
        host.job(&root.header.cause).map(|j| j.is_finished()) != Some(false),
        "late result must find no live job"
    );
}

#[test]
fn max_inflight() {
    let mut bus = Bus::new();
    let clk = ManualClock::new(0);
    let mut gen = SeqIdGen::new(1);
    let ib = bus.attach(Inbox::new(8));
    let mut host = JobHost::new(
        &mut bus,
        params(
            actor_h(),
            ib,
            &["job"],
            0,
            0,
            factory(|root| {
                let mut j = Job::new(root.clone());
                j.set_max_inflight(1);
                slot(
                    j,
                    begin(|ctx| {
                        let spec = |payload| RequestSpec {
                            stage: "a".to_string(),
                            request_prefix: "acl".to_string(),
                            result_prefix: "acl.result".to_string(),
                            payload,
                        };
                        ctx.request(spec(Value::Int(1)))?;
                        ctx.request(spec(Value::Int(2)))?;
                        Ok(())
                    }),
                    None,
                )
            }),
        ),
    );
    host.start(&mut bus).unwrap();
    let root = env_gen("job", Value::Null, &mut gen);
    let err = host.handle(&mut bus, &root, &clk, &mut gen).unwrap_err();
    assert!(matches!(err, eba::Error::MaxInflight));
}

#[test]
fn continuation_defers_second_request() {
    let mut bus = Bus::new();
    let clk = ManualClock::new(0);
    let mut gen = SeqIdGen::new(1);
    let stages: Rc<RefCell<Vec<String>>> = Rc::new(RefCell::new(vec![]));
    let stages2 = stages.clone();
    let ib = bus.attach(Inbox::new(8));
    let mut parent = JobHost::new(
        &mut bus,
        params(
            actor_h(),
            ib,
            &["job"],
            0,
            0,
            factory(move |root| {
                let sc = stages2.clone();
                slot(
                    Job::new(root.clone()),
                    begin(|ctx| {
                        ctx.request(RequestSpec {
                            stage: "one".to_string(),
                            request_prefix: "acl".to_string(),
                            result_prefix: "acl.result".to_string(),
                            payload: Value::Int(1),
                        })?;
                        Ok(())
                    }),
                    stage(move |ctx, stage, _body| {
                        sc.borrow_mut().push(stage.to_string());
                        if stage == "one" {
                            ctx.request(RequestSpec {
                                stage: "two".to_string(),
                                request_prefix: "acl".to_string(),
                                result_prefix: "acl.result".to_string(),
                                payload: Value::Int(2),
                            })?;
                            return Ok(());
                        }
                        ctx.finish(FinishInfo::ok_answer(Value::Str(stage.to_string())))
                    }),
                )
            }),
        ),
    );
    let mut leaf = leaf_host(&mut bus);
    parent.start(&mut bus).unwrap();
    leaf.start(&mut bus).unwrap();
    let root = env_gen("job", Value::Null, &mut gen);
    parent.handle(&mut bus, &root, &clk, &mut gen).unwrap();
    for round in 0..2 {
        let req = bus
            .try_recv(leaf.inbox())
            .unwrap_or_else(|| panic!("round {round}: leaf must receive the request"));
        leaf.handle(&mut bus, &req, &clk, &mut gen).unwrap();
        let r = bus
            .try_recv(parent.inbox())
            .unwrap_or_else(|| panic!("round {round}: parent gets stage result"));
        parent.handle(&mut bus, &r, &clk, &mut gen).unwrap();
    }
    assert_eq!(*stages.borrow(), vec!["one".to_string(), "two".to_string()]);
    assert!(
        parent.job(&root.header.cause).map(|j| j.is_finished()) != Some(false),
        "chained job must be finished"
    );
}

#[test]
fn sync_reply_cause_and_new_id() {
    let mut bus = Bus::new();
    let clk = ManualClock::new(0);
    let mut gen = SeqIdGen::new(1);
    let ib = bus.attach(Inbox::new(8));
    let mut host = JobHost::new(&mut bus, params(actor_h(), ib, &["read"], 0, 0, factory(read_job)));
    host.start(&mut bus).unwrap();
    let dest = bus.attach(Inbox::new(8));
    bus.subscribe("read.result.**", &dest).unwrap();
    let root = env_gen("read", Value::Str("z".to_string()), &mut gen);
    host.handle(&mut bus, &root, &clk, &mut gen).unwrap();
    let got = bus.try_recv(&dest).expect("reply arrives");
    assert_eq!(got.header.cause, root.header.cause);
    assert_ne!(got.header.id, root.header.id);
    assert_eq!(got.payload.get("request_id"), Some(&Value::Str(root.header.id.0.clone())));
}

#[test]
fn result_err_finishes_step() {
    let mut bus = Bus::new();
    let clk = ManualClock::new(0);
    let mut gen = SeqIdGen::new(1);
    let ib = bus.attach(Inbox::new(8));
    let (mut host, states) = step_host(&mut bus, ib, 0, 0);
    host.start(&mut bus).unwrap();
    let root = env_gen("job", Value::Null, &mut gen);
    host.handle(&mut bus, &root, &clk, &mut gen).unwrap();
    let child_id = states.borrow()[0].child_id.clone().expect("child id");
    let echo = result_echo(&child_id, &root.header.cause, err_body("deny"), &mut gen);
    host.handle(&mut bus, &echo, &clk, &mut gen).unwrap();
    assert_eq!(states.borrow()[0].seen, vec!["acl".to_string()]);
    assert!(
        !host.job(&root.header.cause).map(|j| !j.is_finished()).unwrap_or(false),
        "err result must finish the step"
    );
}

fn chain_host(bus: &mut Bus, tag: &str, seen: Rc<RefCell<Vec<String>>>, next: Option<(&str, &str)>) -> JobHost {
    let tag = tag.to_string();
    let next = next.map(|(d, r)| (d.to_string(), r.to_string()));
    let inbox = bus.attach(Inbox::new(16));
    let pats = vec![tag.clone(), format!("{tag}.*")];
    let pat_refs: Vec<&str> = pats.iter().map(|s| s.as_str()).collect();
    let t2 = tag.clone();
    JobHost::new(
        bus,
        params(
            ActorId(tag.clone()),
            inbox,
            &pat_refs,
            0,
            16,
            factory(move |root| {
                let seen = seen.clone();
                let next = next.clone();
                let begin_tag = t2.clone();
                let stage_tag = t2.clone();
                slot(
                    Job::new(root.clone()),
                    begin(move |ctx| {
                        seen.borrow_mut().push(begin_tag.clone());
                        match next.as_ref() {
                            Some((dst, rp)) => ctx
                                .request(RequestSpec {
                                    stage: "d3".to_string(),
                                    request_prefix: dst.clone(),
                                    result_prefix: rp.clone(),
                                    payload: Value::Null,
                                })
                                .map(|_| ()),
                            None => {
                                let body = ok_payload(Value::Str("leaf".to_string()));
                                ctx.reply("leaf.result", &body)?;
                                ctx.finish(FinishInfo::ok_answer(Value::Null))
                            }
                        }
                    }),
                    stage(move |ctx, _stage, _body| {
                        let rp = if stage_tag == "eng" { "eng.result" } else { "mid.result" };
                        let body = ok_payload(Value::Str("done".to_string()));
                        ctx.reply(rp, &body)?;
                        ctx.finish(FinishInfo::ok_answer(Value::Null))
                    }),
                )
            }),
        ),
    )
}

#[test]
fn depth_three_chain_delivers() {
    let mut bus = Bus::new();
    let clk = eba::MonotonicClock::new();
    let mut gen = SeqIdGen::new(1);
    let seen = Rc::new(RefCell::new(Vec::new()));
    let leaf = chain_host(&mut bus, "leaf", seen.clone(), None);
    let mid = chain_host(&mut bus, "mid", seen.clone(), Some(("leaf", "leaf.result")));
    let eng = chain_host(&mut bus, "eng", seen.clone(), Some(("mid", "mid.result")));
    let mut hosts: Vec<JobHost> = vec![leaf, mid, eng];
    for h in &hosts {
        h.start(&mut bus).unwrap();
    }
    let dest = bus.attach(Inbox::new(8));
    bus.subscribe("eng.result.**", &dest).unwrap();
    let root = env_gen("eng", Value::Null, &mut gen);
    hosts[2].handle(&mut bus, &root, &clk, &mut gen).unwrap();
    let mut got = None;
    for _ in 0..1000 {
        let mut progress = false;
        for h in &mut hosts {
            progress |= h.poll(&mut bus, &clk, &mut gen).unwrap();
        }
        if let Some(e) = bus.try_recv(&dest) {
            got = Some(e);
            break;
        }
        if !progress {
            break;
        }
    }
    let e = got.expect("depth-3 chain must reply to root");
    assert!(is_result_ok(e.payload.get("result").unwrap()));
    assert_eq!(&*seen.borrow(), &vec!["eng".to_string(), "mid".to_string(), "leaf".to_string()]);
}

#[test]
fn cover_poll_empty_still_watchdog() {
    let mut bus = Bus::new();
    let clk = ManualClock::new(0);
    let mut gen = SeqIdGen::new(1);
    let ib = bus.attach(Inbox::new(4));
    let mut host = JobHost::new(&mut bus, params(actor_h(), ib, &["read"], 0, 0, factory(read_job)));
    let ok = host.poll(&mut bus, &clk, &mut gen).unwrap();
    assert!(!ok, "empty poll must still sweep the watchdog");
    let env = env_gen("read", Value::Int(1), &mut gen);
    let h = *host.inbox();
    bus.subscribe("read", &h).unwrap();
    bus.publish(&env).unwrap();
    let ok = host.poll(&mut bus, &clk, &mut gen).unwrap();
    assert!(ok);
}

#[test]
fn shutdown_skips_business_routes_result() {
    let mut bus = Bus::new();
    let clk = ManualClock::new(0);
    let mut gen = SeqIdGen::new(1);
    let ib = bus.attach(Inbox::new(8));
    let (mut host, states) = step_host(&mut bus, ib, 0, 0);
    host.start(&mut bus).unwrap();
    let root = env_gen("job", Value::Null, &mut gen);
    host.handle(&mut bus, &root, &clk, &mut gen).unwrap();
    let child_id = states.borrow()[0].child_id.clone().expect("child id");
    let mut host = host;
    host.shutdown();
    let extra = env_gen("job", object(vec![("later", Value::Int(1))]), &mut gen);
    host.handle(&mut bus, &extra, &clk, &mut gen).unwrap();
    assert!(host.job(&extra.header.cause).is_none(), "shutdown must not adopt new jobs");
    let echo = result_echo(&child_id, &root.header.cause, ok_payload(Value::Str("allow".to_string())), &mut gen);
    host.handle(&mut bus, &echo, &clk, &mut gen).unwrap();
    assert!(!states.borrow()[0].seen.is_empty(), "in-flight result must still resolve after shutdown");
}

#[test]
fn fresh_result_without_job_finishes_registry() {
    let mut bus = Bus::new();
    let clk = ManualClock::new(0);
    let mut gen = SeqIdGen::new(1);
    let rid_cell: Rc<RefCell<Option<EnvelopeId>>> = Rc::new(RefCell::new(None));
    let rc = rid_cell.clone();
    let ib = bus.attach(Inbox::new(8));
    let mut host = JobHost::new(
        &mut bus,
        params(
            ActorId("h".to_string()),
            ib,
            &["job"],
            0,
            0,
            factory(move |root| {
                let rc2 = rc.clone();
                slot(
                    Job::new(root.clone()),
                    begin(move |ctx| {
                        let id = ctx.request(RequestSpec {
                            stage: "acl".to_string(),
                            request_prefix: "acl".to_string(),
                            result_prefix: "acl.result".to_string(),
                            payload: Value::Null,
                        })?;
                        *rc2.borrow_mut() = Some(id);
                        Err(eba::Error::State("gone".to_string()))
                    }),
                    None,
                )
            }),
        ),
    );
    host.start(&mut bus).unwrap();
    let root = env_gen("job", Value::Null, &mut gen);
    assert!(host.handle(&mut bus, &root, &clk, &mut gen).is_err());
    let rid = rid_cell.borrow().clone().expect("request issued");
    assert_eq!(host.registry().state(&rid), Some(State::Pending));
    assert!(host.job(&root.header.cause).is_none());
    let echo = result_echo(&rid, &root.header.cause, ok_payload(Value::Str("allow".to_string())), &mut gen);
    host.handle(&mut bus, &echo, &clk, &mut gen).unwrap();
    assert_eq!(host.registry().state(&rid), None);
}

#[test]
fn offer_hits_limit() {
    let mut q = EnvelopeQueue::new(1);
    assert!(q.offer(env_n("job", 1)).is_ok());
    assert!(q.offer(env_n("job", 2)).is_err());
}

#[test]
fn drain_order() {
    let mut q = EnvelopeQueue::new(2);
    let (a, b) = (env_n("job", 1), env_n("job", 2));
    q.offer(a.clone()).unwrap();
    q.offer(b.clone()).unwrap();
    assert!(q.at_limit());
    assert!(!q.is_empty());
    assert_eq!(q.popleft(), a);
    assert_eq!(q.popleft(), b);
    assert!(q.is_empty());
}

#[test]
fn queue_full_error_text() {
    let mut q = EnvelopeQueue::new(1);
    q.offer(env_n("job", 1)).unwrap();
    let err = q.offer(env_n("job", 2)).unwrap_err();
    assert_eq!(err, eba::Error::QueueFull);
    assert_eq!(err.message(), "jobhost: queue_full");
    assert_eq!(eba::Error::MaxInflight.message(), "job: max_inflight");
}

#[test]
fn request_after_finish_not_requestable() {
    let mut bus = Bus::new();
    let clk = ManualClock::new(0);
    let mut gen = SeqIdGen::new(1);
    let ib = bus.attach(Inbox::new(8));
    let mut host = JobHost::new(
        &mut bus,
        params(
            actor_h(),
            ib,
            &["job"],
            0,
            0,
            factory(|root| {
                slot(
                    Job::new(root.clone()),
                    begin(|ctx| {
                        ctx.finish(FinishInfo::ok_answer(Value::Null))?;
                        ctx.request(RequestSpec {
                            stage: "a".to_string(),
                            request_prefix: "acl".to_string(),
                            result_prefix: "acl.result".to_string(),
                            payload: Value::Int(1),
                        })?;
                        Ok(())
                    }),
                    None,
                )
            }),
        ),
    );
    let root = env_gen("job", Value::Null, &mut gen);
    let err = host.handle(&mut bus, &root, &clk, &mut gen).unwrap_err();
    assert!(matches!(err, eba::Error::State(ref m) if m.contains("not requestable")));
    assert_eq!(err.message(), "job: job not requestable");
}

#[test]
fn wait_job_answers_after_result() {
    let mut bus = Bus::new();
    let clk = ManualClock::new(0);
    let mut gen = SeqIdGen::new(1);
    let (mut host, begins) = wait_host(&mut bus, 0);
    host.start(&mut bus).unwrap();
    let dest = bus.attach(Inbox::new(8));
    bus.subscribe("wait.result.**", &dest).unwrap();
    let root = env_gen("wait", Value::Null, &mut gen);
    host.handle(&mut bus, &root, &clk, &mut gen).unwrap();
    assert_eq!(begins.get(), 1);
    assert!(host.job(&root.header.cause).is_some());
    let job = host.job(&root.header.cause).unwrap();
    assert!(!job.is_finished());
    assert!(bus.try_recv(&dest).is_none());
    let mut seq = SeqIdGen::new(100);
    let rid = EnvelopeId(format!("{:032x}", 2));
    let topic = eba::result_topic_of(&rid, "ext.wait.result", &seq).unwrap();
    let echo = make_envelope(
        &topic,
        object(vec![
            ("request_id", Value::Str(rid.0.clone())),
            ("result", ok_payload(Value::Str("ready".to_string()))),
        ]),
        actor_l(),
        MakeOptions {
            cause: Some(root.header.cause.clone()),
            id_gen: Some(&mut seq),
            ..Default::default()
        },
    )
    .unwrap();
    host.handle(&mut bus, &echo, &clk, &mut gen).unwrap();
    let got = bus.try_recv(&dest).expect("completion replies");
    assert_eq!(result_value(got.payload.get("result").unwrap()), Some(&Value::Str("ready".to_string())));
    assert_eq!(begins.get(), 1);
    assert!(host.job(&root.header.cause).is_none());
    let _ = clk.now_ms();
}
