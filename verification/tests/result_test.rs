use eba::{
    err_payload, is_result_err, is_result_ok, looks_like_result_envelope, make_envelope, ok_payload, result_body,
    result_error, result_request_id, result_value, timeout_body, ActorId, EnvelopeId, IdGen, MakeOptions, Registry,
    SeqIdGen, Value,
};

struct FixedId {
    eid: EnvelopeId,
}

impl IdGen for FixedId {
    fn next_envelope_id(&mut self) -> EnvelopeId {
        self.eid.clone()
    }

    fn topic_segment(&self, id: &EnvelopeId) -> Result<String, eba::Error> {
        eba::topic_segment(id).map_err(|e| e.into_error())
    }
}

fn fixed(eid: &str) -> FixedId {
    FixedId { eid: EnvelopeId(eid.to_string()) }
}

struct RemapGen;

impl IdGen for RemapGen {
    fn next_envelope_id(&mut self) -> EnvelopeId {
        EnvelopeId("0".to_string())
    }

    fn topic_segment(&self, id: &EnvelopeId) -> Result<String, eba::Error> {
        let first = id.0.chars().next().unwrap_or('e');
        Ok(format!("z{first}"))
    }
}

fn object(pairs: Vec<(&str, Value)>) -> Value {
    let mut v = Value::object();
    for (k, x) in pairs {
        v.insert(k.to_string(), x);
    }
    v
}

fn result_env(topic: &str, rid: &EnvelopeId) -> eba::Envelope {
    let mut seq = SeqIdGen::new(1);
    make_envelope(
        topic,
        object(vec![
            ("request_id", Value::Str(rid.0.clone())),
            ("result", ok_payload(Value::Int(1))),
        ]),
        ActorId("l".to_string()),
        MakeOptions {
            cause: Some(rid.clone()),
            id_gen: Some(&mut seq),
            ..Default::default()
        },
    )
    .unwrap()
}

#[test]
fn ok_and_err_shape() {
    let ok = ok_payload(Value::Int(7));
    let err = err_payload("nope", &[("extra", Value::Int(1))]).unwrap();
    assert!(is_result_ok(&ok));
    assert_eq!(result_value(&ok), Some(&Value::Int(7)));
    assert!(is_result_err(&err));
    assert_eq!(result_error(&err), Some("nope"));
    assert!(result_value(&err).is_none());
    assert!(result_error(&ok).is_none());
    assert!(err_payload("x", &[("ok", Value::Bool(false))]).is_err());
}

#[test]
fn timeout_body_is_err() {
    assert!(is_result_err(&timeout_body()));
    assert_eq!(result_error(&timeout_body()), Some("request_timeout"));
}

#[test]
fn looks_like_needs_id_segment() {
    let rid = EnvelopeId("a".repeat(32));
    let gen = fixed(&rid.0);
    let good = result_env(&eba::result_topic_of(&rid, "acl.result", &gen).unwrap(), &rid);
    assert!(looks_like_result_envelope(&good, &gen));
    assert_eq!(result_request_id(&good), Some(rid.clone()));
    assert!(result_body(&good).is_some());
    let bad = result_env("acl.result.gone", &rid);
    assert!(!looks_like_result_envelope(&bad, &gen));
    let mut seq = SeqIdGen::new(1);
    let plain = make_envelope(
        "x",
        Value::Int(1),
        ActorId("a".to_string()),
        MakeOptions {
            id_gen: Some(&mut seq),
            ..Default::default()
        },
    )
    .unwrap();
    assert!(result_body(&plain).is_none());
    let mapped = result_env("acl.result.za", &rid);
    assert!(looks_like_result_envelope(&mapped, &RemapGen));
    assert!(!looks_like_result_envelope(&good, &RemapGen));
}

#[test]
fn registry_lifecycle_basics() {
    let mut bus = eba::Bus::new();
    let box_ = bus.attach(eba::Inbox::new(4));
    let mut reg = Registry::new();
    let rid = EnvelopeId("a".repeat(32));
    reg.start_request(
        &mut bus,
        &box_,
        &mut fixed(&rid.0),
        eba::StartParams {
            request_prefix: "acl".to_string(),
            result_prefix: "acl.result".to_string(),
            payload: Value::Null,
            from: ActorId("h".to_string()),
            cause: rid.clone(),
            request_id: None,
        },
    )
    .unwrap();
    assert_eq!(reg.state(&rid), Some(eba::State::Pending));
}

#[test]
fn reserved_detail_key_message() {
    let err = err_payload("x", &[("fine", Value::Null), ("value", Value::Int(1))]).unwrap_err();
    assert_eq!(err, eba::Error::State("reserved result key: \"value\"".to_string()));
    assert_eq!(err.message(), "job: reserved result key: \"value\"");
}

#[test]
fn result_topic_is_prefix_and_segment() {
    let rid = EnvelopeId("0".repeat(31) + "f");
    let topic = eba::result_topic_of(&rid, "acl.result", &SeqIdGen::new(1)).unwrap();
    assert_eq!(topic, format!("acl.result.e{}", "0".repeat(31) + "f"));
    assert!(eba::result_topic_of(&EnvelopeId("x-y".to_string()), "acl.result", &SeqIdGen::new(1)).is_err());
}
