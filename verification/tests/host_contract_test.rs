use eba::jobhost::dispatch::{dispatch_judged, route_outcome};
use eba::{
    err_payload, make_envelope, timeout_body, ActorId, Bus, Clock, Envelope, EnvelopeId, HostParams, Hooks, IdGen,
    Inbox, Job, JobFactory, JobHost, MakeOptions, ManualClock, ResolveOutcome, SeqIdGen, Slot, Value,
};

struct PlainJobs;

impl JobFactory for PlainJobs {
    fn make_job(&self, root: &Envelope) -> Slot {
        Slot { job: Job::new(root.clone()), hooks: Hooks::none() }
    }
}

fn host_on(bus: &mut Bus, patterns: &[&str]) -> JobHost {
    let inbox = bus.attach(Inbox::new(8));
    JobHost::new(
        bus,
        HostParams {
            actor_id: ActorId("host".to_string()),
            inbox,
            patterns: patterns.iter().map(|p| p.to_string()).collect(),
            accept: None,
            request_timeout_ms: 0,
            queue_limit: 0,
            make_job: Box::new(PlainJobs),
        },
    )
}

fn plain_env(topic: &str, n: i64) -> Envelope {
    make_envelope(
        topic,
        Value::Int(n),
        ActorId("a".to_string()),
        MakeOptions { id: Some(EnvelopeId(format!("{n:032x}"))), ..Default::default() },
    )
    .expect("env")
}

fn key_of(pairs: &[(String, Value)], key: &str) -> Option<Value> {
    pairs.iter().find(|(k, _)| k == key).map(|(_, v)| v.clone())
}

#[test]
fn timeout_body_has_only_ok_and_error() {
    match timeout_body() {
        Value::Object(p) => {
            assert_eq!(p.len(), 2);
            assert_eq!(key_of(&p, "ok"), Some(Value::Bool(false)));
            assert_eq!(key_of(&p, "error"), Some(Value::Str("request_timeout".to_string())));
        },
        other => panic!("not an object: {other:?}"),
    }
    assert_eq!(timeout_body(), err_payload("request_timeout", &[]).unwrap());
}

#[test]
fn err_payload_keeps_detail_without_value() {
    let v = err_payload("denied", &[("why", Value::Int(3)), ("who", Value::Str("x".to_string()))]).unwrap();
    match v {
        Value::Object(p) => {
            assert_eq!(p.len(), 4);
            assert_eq!(key_of(&p, "why"), Some(Value::Int(3)));
            assert_eq!(key_of(&p, "who"), Some(Value::Str("x".to_string())));
            assert_eq!(key_of(&p, "value"), None);
        },
        other => panic!("not an object: {other:?}"),
    }
}

#[test]
fn poll_on_empty_mailbox_is_false() {
    let mut bus = Bus::new();
    let mut host = host_on(&mut bus, &["job.*"]);
    let clock = ManualClock::new(0);
    let mut gen = SeqIdGen::new(1);
    assert_eq!(host.poll(&mut bus, &clock, &mut gen), Ok(false));
    assert!(host.job(&EnvelopeId(format!("{:032x}", 1))).is_none());
}

#[test]
fn judged_result_is_routed_not_queued() {
    let mut bus = Bus::new();
    let mut host = host_on(&mut bus, &["job.*"]);
    let clock = ManualClock::new(0);
    let mut gen = SeqIdGen::new(1);
    let env = plain_env("job.one", 1);
    let c: &dyn Clock = &clock;
    let mut g: &mut dyn IdGen = &mut gen;
    let r = dispatch_judged(&mut host, &mut bus, &mut g, &c, &env, true);
    assert_eq!(
        r,
        Err(eba::Error::State("IdGen bound by start_request or JobHost.handle".to_string()))
    );
    let r2 = dispatch_judged(&mut host, &mut bus, &mut g, &c, &env, false);
    assert_eq!(r2, Ok(()));
}

#[test]
fn outcome_without_request_id_changes_nothing() {
    let mut bus = Bus::new();
    let mut host = host_on(&mut bus, &["job.*"]);
    let clock = ManualClock::new(0);
    let mut gen = SeqIdGen::new(1);
    let env = plain_env("job.one", 1);
    let c: &dyn Clock = &clock;
    let mut g: &mut dyn IdGen = &mut gen;
    let r = route_outcome(&mut host, &mut bus, &mut g, &c, &env, ResolveOutcome::default());
    assert_eq!(r, Ok(()));
    assert!(host.job(&env.header.id).is_none());
}

#[test]
fn deadline_follows_the_clock_reading() {
    assert_eq!(eba::job::deadline_at(100, 0), 0);
    assert_eq!(eba::job::deadline_at(100, 50), 150);
    assert_eq!(eba::job::deadline_at(i64::MAX - 1, 50), i64::MAX);
}

#[test]
fn two_readers_leave_the_mailbox_usable() {
    let mut bus = Bus::new();
    let h = bus.attach(Inbox::new(1));
    let _one = eba::Subscriber::new(&mut bus, ActorId("one".to_string()), &h, &[]);
    let _two = eba::Subscriber::new(&mut bus, ActorId("two".to_string()), &h, &[]);
    assert!(bus.inbox(&h).unwrap().is_empty());
    assert!(bus.try_enqueue(&h, plain_env("x", 1)));
    assert!(!bus.try_enqueue(&h, plain_env("x", 2)));
}
