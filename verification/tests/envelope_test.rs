use eba::{make_envelope, topic_segment, ActorId, EnvelopeId, IdGen, MakeOptions, SeqIdGen, Value};

#[test]
fn root_cause_equals_id() {
    let mut ids = SeqIdGen::new(1);
    let env = make_envelope(
        "read.x",
        Value::Int(1),
        ActorId("a".to_string()),
        MakeOptions {
            id_gen: Some(&mut ids),
            ..Default::default()
        },
    )
    .unwrap();
    assert_eq!(env.header.cause, env.header.id);
    assert_eq!(env.header.from, ActorId("a".to_string()));
}

#[test]
fn inherited_cause() {
    let mut ids = SeqIdGen::new(1);
    let root = make_envelope(
        "job.x",
        Value::Null,
        ActorId("a".to_string()),
        MakeOptions {
            id_gen: Some(&mut ids),
            ..Default::default()
        },
    )
    .unwrap();
    let child = make_envelope(
        "acl.x",
        Value::Null,
        ActorId("a".to_string()),
        MakeOptions {
            cause: Some(root.header.cause.clone()),
            id_gen: Some(&mut ids),
            ..Default::default()
        },
    )
    .unwrap();
    assert_eq!(child.header.cause, root.header.id);
    assert_ne!(child.header.id, root.header.id);
}

#[test]
fn make_envelope_needs_id_or_id_gen() {
    assert!(make_envelope("read.x", Value::Int(1), ActorId("a".to_string()), Default::default()).is_err());
}

#[test]
fn empty_and_illegal_topic() {
    assert!(eba::split_topic("").is_err());
    assert!(make_envelope(
        "Bad",
        Value::Int(1),
        ActorId("a".to_string()),
        MakeOptions {
            id: Some(EnvelopeId("a".repeat(32))),
            ..Default::default()
        }
    )
    .is_err());
}

#[test]
fn header_has_no_ttl() {
    let env = make_envelope(
        "read.x",
        Value::Int(1),
        ActorId("a".to_string()),
        MakeOptions {
            id: Some(EnvelopeId("a".repeat(32))),
            ..Default::default()
        },
    )
    .unwrap();
    let hdr = &env.header;
    let _four_fields: (&EnvelopeId, &String, &ActorId, &EnvelopeId) = (&hdr.id, &hdr.topic, &hdr.from, &hdr.cause);
    assert_eq!(hdr.id, EnvelopeId("a".repeat(32)), "header carries exactly the four facts");
}

#[test]
fn seq_idgen_stable() {
    let mut ids = SeqIdGen::new(1);
    let a = ids.next_envelope_id();
    let b = ids.next_envelope_id();
    assert_ne!(a, b);
    assert!(topic_segment(&a).unwrap().starts_with('e'));
}

#[test]
fn topic_errors_name_the_problem() {
    let e1 = eba::split_topic("").unwrap_err();
    assert_eq!(e1.0, "empty topic");
    let e2 = eba::split_topic("echo..x").unwrap_err();
    assert_eq!(e2.0, "illegal topic segment: \"\"");
    let e3 = make_envelope("read.x", Value::Int(1), ActorId("a".to_string()), Default::default()).unwrap_err();
    assert_eq!(e3.0, "make_envelope requires id or id_gen");
    assert_eq!(e3.into_error().message(), "envelope: make_envelope requires id or id_gen");
}

#[test]
fn topic_segment_maps_hex_ids() {
    let seg = topic_segment(&EnvelopeId("0".repeat(31) + "1")).unwrap();
    assert_eq!(seg, format!("e{}", "0".repeat(31) + "1"));
    assert_eq!(eba::topic_suffix("acl.result.e01").unwrap(), "e01");
    assert!(eba::topic_suffix("").is_err());
}

#[test]
fn value_object_insert_then_get() {
    let mut v = Value::object();
    v.insert("b".to_string(), Value::Int(2));
    v.insert("a".to_string(), Value::Int(1));
    v.insert("b".to_string(), Value::Int(3));
    assert_eq!(v.get("a"), Some(&Value::Int(1)));
    assert_eq!(v.get("b"), Some(&Value::Int(3)));
    assert_eq!(v.get("c"), None);
    match &v {
        Value::Object(pairs) => {
            let keys: Vec<&str> = pairs.iter().map(|(k, _)| k.as_str()).collect();
            assert_eq!(keys, vec!["a", "b"]);
        }
        _ => panic!("object expected"),
    }
    assert_eq!(Value::Str("s".to_string()).as_str(), Some("s"));
    assert_eq!(Value::Int(1).as_str(), None);
}

#[test]
fn value_from_plain_values() {
    assert_eq!(Value::from(3i64), Value::Int(3));
    assert_eq!(Value::from(true), Value::Bool(true));
    assert_eq!(Value::from("s".to_string()), Value::Str("s".to_string()));
    let e: eba::Error = eba::EnvelopeBuildError("bad".to_string()).into();
    assert_eq!(e, eba::Error::EnvelopeBuild("bad".to_string()));
}
