use eba::{make_envelope, ActorId, Bus, Envelope, EnvelopeId, Inbox, MakeOptions, Publisher, SeqIdGen, Subscriber, Value};

fn env_n(topic: &str, n: i64) -> Envelope {
    make_envelope(
        topic,
        Value::Int(n),
        ActorId("a".to_string()),
        MakeOptions {
            id: Some(EnvelopeId(format!("{n:032x}"))),
            ..Default::default()
        },
    )
    .expect("env")
}

fn actor_a() -> ActorId {
    ActorId("a".to_string())
}

#[test]
fn publisher_has_no_inbox() {
    let pub_ = Publisher::new(ActorId("p".to_string()));
    let mut bus = Bus::new();
    let dest = bus.attach(Inbox::new(2));
    bus.subscribe("echo.**", &dest).unwrap();
    pub_.publish(&mut bus, &env_n("echo.x", 1)).unwrap();
    assert_eq!(bus.try_recv(&dest).map(|e| e.payload), Some(Value::Int(1)));
}

#[test]
fn publisher_cannot_subscribe() {
    let pub_ = Publisher::new(ActorId("p".to_string()));
    assert_eq!(pub_.actor_id, ActorId("p".to_string()));
}

#[test]
fn subscriber_start_and_recv() {
    let mut bus = Bus::new();
    let box_ = bus.attach(Inbox::new(2));
    let sub = Subscriber::new(&mut bus, actor_a(), &box_, &["echo.**"]);
    sub.start(&mut bus).unwrap();
    bus.publish(
        &make_envelope(
            "echo.x",
            Value::Int(1),
            actor_a(),
            MakeOptions {
                id: Some(EnvelopeId("a".repeat(32))),
                ..Default::default()
            },
        )
        .unwrap(),
    )
    .unwrap();
    let got = sub.try_recv(&mut bus).expect("subscriber must receive the letter");
    assert_eq!(got.payload, Value::Int(1));
}

#[test]
fn publisher_publish_only() {
    let mut bus = Bus::new();
    let dest = bus.attach(Inbox::new(2));
    bus.subscribe("echo.**", &dest).unwrap();
    let pub_ = Publisher::new(actor_a());
    let mut gen = SeqIdGen::new(1);
    pub_.publish(
        &mut bus,
        &make_envelope(
            "echo.x",
            Value::Str("hi".to_string()),
            actor_a(),
            MakeOptions {
                id_gen: Some(&mut gen),
                ..Default::default()
            },
        )
        .unwrap(),
    )
    .unwrap();
    let got = bus.try_recv(&dest).expect("publisher letter delivered");
    assert_eq!(got.payload, Value::Str("hi".to_string()));
}

#[test]
fn subscriber_start_stops_at_bad_pattern() {
    let mut bus = Bus::new();
    let box_ = bus.attach(Inbox::new(2));
    let sub = Subscriber::new(&mut bus, actor_a(), &box_, &["echo.*", "Bad", "other"]);
    let err = sub.start(&mut bus).unwrap_err();
    assert!(matches!(err, eba::Error::InvalidTopic(_)));
    bus.publish(&env_n("echo.x", 1)).unwrap();
    bus.publish(&env_n("other", 2)).unwrap();
    assert_eq!(sub.try_recv(&mut bus).map(|e| e.payload), Some(Value::Int(1)));
    assert!(sub.try_recv(&mut bus).is_none());
}
