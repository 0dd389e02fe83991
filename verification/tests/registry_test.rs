use eba::{
    make_envelope, ok_payload, ActorId, Bus, Envelope, EnvelopeId, IdGen, Inbox, InboxHandle, MakeOptions, Registry,
    SeqIdGen, StartParams, State, Value,
};

struct FixedId {
    eid: EnvelopeId,
}

impl IdGen for FixedId {
    fn next_envelope_id(&mut self) -> EnvelopeId {
        self.eid.clone()
    }

    fn topic_segment(&self, id: &EnvelopeId) -> Result<String, eba::Error> {
        eba::topic_segment(id).map_err(|e| e.into_error())
    }
}

fn fixed(eid: &str) -> FixedId {
    FixedId { eid: EnvelopeId(eid.to_string()) }
}

fn aaaa() -> EnvelopeId {
    EnvelopeId("a".repeat(32))
}

fn bbbb() -> EnvelopeId {
    EnvelopeId("b".repeat(32))
}

fn cccc() -> EnvelopeId {
    EnvelopeId("c".repeat(32))
}

fn object(pairs: Vec<(&str, Value)>) -> Value {
    let mut v = Value::object();
    for (k, x) in pairs {
        v.insert(k.to_string(), x);
    }
    v
}

fn echo_result(rid: &EnvelopeId, cause: &EnvelopeId, value: i64) -> Envelope {
    let gen = fixed(&rid.0);
    let topic = eba::result_topic_of(rid, "acl.result", &gen).expect("topic");
    let payload = object(vec![
        ("request_id", Value::Str(rid.0.clone())),
        ("result", ok_payload(Value::Int(value))),
    ]);
    let mut seq = SeqIdGen::new(1);
    make_envelope(
        &topic,
        payload,
        ActorId("l".to_string()),
        MakeOptions {
            cause: Some(cause.clone()),
            id_gen: Some(&mut seq),
            ..Default::default()
        },
    )
    .expect("echo")
}

fn start_params(rid: &EnvelopeId) -> StartParams {
    StartParams {
        request_prefix: "acl".to_string(),
        result_prefix: "acl.result".to_string(),
        payload: Value::Null,
        from: ActorId("h".to_string()),
        cause: rid.clone(),
        request_id: None,
    }
}

fn started() -> (Bus, InboxHandle, Registry, EnvelopeId) {
    let mut bus = Bus::new();
    let box_ = bus.attach(Inbox::new(4));
    let mut reg = Registry::new();
    let rid = aaaa();
    reg.start_request(&mut bus, &box_, &mut fixed(&rid.0), start_params(&rid)).unwrap();
    (bus, box_, reg, rid)
}

#[test]
fn quad_miss_keeps_pending() {
    let (_bus, _box, mut reg, rid) = started();
    let echo = echo_result(&rid, &bbbb(), 1);
    let out = reg.resolve_only(&echo, &fixed(&rid.0)).unwrap();
    assert!(!out.fresh);
    assert_eq!(reg.state(&rid), Some(State::Pending));
}

#[test]
fn quad_hit_fresh() {
    let (_bus, _box, mut reg, rid) = started();
    let reply = echo_result(&rid, &rid, 7);
    let out = reg.resolve_only(&reply, &fixed(&rid.0)).unwrap();
    assert!(out.fresh);
    assert_eq!(out.state, Some(State::Resolved));
}

#[test]
fn finish_safe_unsubscribes() {
    let (mut bus, box_, mut reg, rid) = started();
    reg.finish_safe(&mut bus, &box_, &rid);
    bus.publish(&echo_result(&rid, &rid, 1)).unwrap();
    assert!(bus.try_recv(&box_).is_none());
}

#[test]
fn late_echo_not_fresh_then_finish() {
    let (mut bus, box_, mut reg, rid) = started();
    let reply = echo_result(&rid, &rid, 7);
    assert!(reg.resolve_only(&reply, &fixed(&rid.0)).unwrap().fresh);
    let again = reg.resolve_only(&reply, &fixed(&rid.0)).unwrap();
    assert!(!again.fresh);
    assert_eq!(again.state, Some(State::Resolved));
    reg.finish_safe(&mut bus, &box_, &rid);
    assert_eq!(reg.state(&rid), None);
}

#[test]
fn resolve_without_bind_raises() {
    let env = make_envelope(
        "x",
        Value::Int(1),
        ActorId("a".to_string()),
        MakeOptions {
            id: Some(aaaa()),
            ..Default::default()
        },
    )
    .unwrap();
    let mut reg = Registry::new();
    let err = reg.resolve_only(&env, &SeqIdGen::new(1)).unwrap_err();
    assert!(matches!(err, eba::Error::State(_)));
    assert!(err.message().contains("IdGen"));
}

#[test]
fn start_request_publish_full_cleans_up() {
    let mut bus = Bus::new();
    let dest = bus.attach(Inbox::new(1));
    let pad = make_envelope(
        "pad",
        Value::Int(0),
        ActorId("a".to_string()),
        MakeOptions {
            id: Some(cccc()),
            ..Default::default()
        },
    )
    .unwrap();
    assert!(bus.try_enqueue(&dest, pad));
    bus.subscribe("acl.**", &dest).unwrap();
    let box_ = bus.attach(Inbox::new(4));
    let mut reg = Registry::new();
    let rid = aaaa();
    let err = reg.start_request(&mut bus, &box_, &mut fixed(&rid.0), start_params(&rid)).unwrap_err();
    assert!(matches!(err, eba::Error::MailboxFull));
    assert_eq!(reg.state(&rid), None);
}

#[test]
fn topic_suffix_miss() {
    let (_bus, _box, mut reg, rid) = started();
    let mut seq = SeqIdGen::new(1);
    let echo = make_envelope(
        "acl.result.other",
        object(vec![
            ("request_id", Value::Str(rid.0.clone())),
            ("result", ok_payload(Value::Int(1))),
        ]),
        ActorId("l".to_string()),
        MakeOptions {
            cause: Some(rid.clone()),
            id_gen: Some(&mut seq),
            ..Default::default()
        },
    )
    .unwrap();
    let out = reg.resolve_only(&echo, &fixed(&rid.0)).unwrap();
    assert!(!out.fresh);
    assert_eq!(reg.state(&rid), Some(State::Pending));
}

#[test]
fn start_request_sends_on_request_topic_with_cause() {
    let mut bus = Bus::new();
    let leaf = bus.attach(Inbox::new(4));
    bus.subscribe("acl.*", &leaf).unwrap();
    let box_ = bus.attach(Inbox::new(4));
    let mut reg = Registry::new();
    let rid = aaaa();
    let mut params = start_params(&bbbb());
    params.request_id = Some(rid.clone());
    let req = reg.start_request(&mut bus, &box_, &mut SeqIdGen::new(1), params).unwrap();
    assert_eq!(req.header.id, rid);
    assert_eq!(req.header.cause, bbbb());
    assert_eq!(req.header.topic, format!("acl.e{}", "a".repeat(32)));
    let got = bus.try_recv(&leaf).expect("request delivered");
    assert_eq!(got, req);
    assert_eq!(reg.state(&rid), Some(State::Pending));
}

#[test]
fn resolved_request_is_answered_once() {
    let (mut bus, box_, mut reg, rid) = started();
    let reply = echo_result(&rid, &rid, 7);
    bus.publish(&reply).unwrap();
    assert!(bus.try_recv(&box_).is_some(), "result reaches the subscribed mailbox");
    let first = reg.resolve_only(&reply, &fixed(&rid.0)).unwrap();
    let second = reg.resolve_only(&reply, &fixed(&rid.0)).unwrap();
    assert!(first.fresh);
    assert!(!second.fresh);
    assert_eq!(second.request_id, Some(rid.clone()));
}

#[test]
fn resolving_one_request_leaves_others_pending() {
    let mut bus = Bus::new();
    let box_ = bus.attach(Inbox::new(4));
    let mut reg = Registry::new();
    let a = aaaa();
    let b = bbbb();
    reg.start_request(&mut bus, &box_, &mut fixed(&a.0), start_params(&a)).unwrap();
    reg.start_request(&mut bus, &box_, &mut fixed(&b.0), start_params(&b)).unwrap();
    let out = reg.resolve_only(&echo_result(&a, &a, 1), &fixed(&a.0)).unwrap();
    assert!(out.fresh);
    assert_eq!(reg.state(&a), Some(State::Resolved));
    assert_eq!(reg.state(&b), Some(State::Pending));
}
