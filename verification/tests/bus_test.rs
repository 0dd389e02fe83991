use eba::{make_envelope, ActorId, Bus, Envelope, EnvelopeId, Inbox, MakeOptions, Value};

fn env_n(topic: &str, n: i64) -> Envelope {
    make_envelope(
        topic,
        Value::Int(n),
        ActorId("a".to_string()),
        MakeOptions {
            id: Some(EnvelopeId(format!("{n:032x}"))),
            ..Default::default()
        },
    )
    .expect("env")
}

#[test]
fn unmatched_publish_silent() {
    Bus::new().publish(&env_n("echo.gone", 1)).unwrap();
}

#[test]
fn fanout_and_full_rollback() {
    let mut bus = Bus::new();
    let a = bus.attach(Inbox::new(1));
    let b = bus.attach(Inbox::new(1));
    bus.subscribe("echo.**", &a).unwrap();
    bus.subscribe("echo.**", &b).unwrap();
    bus.publish(&env_n("echo.aa", 1)).unwrap();
    assert!(bus.publish(&env_n("echo.bb", 2)).is_err());
    assert!(bus.try_recv(&a).is_some());
    assert!(bus.try_recv(&b).is_some());
    assert!(bus.try_recv(&a).is_none());
}

#[test]
fn unsubscribe_stops_delivery() {
    let mut bus = Bus::new();
    let box_ = bus.attach(Inbox::new(4));
    bus.subscribe("echo.**", &box_).unwrap();
    assert!(bus.unsubscribe("echo.**", &box_).unwrap());
    bus.publish(&env_n("echo.aa", 1)).unwrap();
    assert!(bus.try_recv(&box_).is_none());
}

#[test]
fn try_recv_empty() {
    assert!(Inbox::new(1).try_recv().is_none());
}

#[test]
fn closed_inbox_skipped() {
    let mut bus = Bus::new();
    let box_ = bus.attach(Inbox::new(2));
    bus.subscribe("echo.**", &box_).unwrap();
    bus.close(&box_);
    bus.publish(&env_n("echo.aa", 1)).unwrap();
    assert!(bus.try_recv(&box_).is_none());
}

#[test]
fn unsubscribe_unknown_is_false() {
    let mut bus = Bus::new();
    let h = bus.attach(Inbox::new(1));
    assert!(!bus.unsubscribe("echo.**", &h).unwrap());
}

#[test]
fn double_subscribe_one_delivery() {
    let mut bus = Bus::new();
    let box_ = bus.attach(Inbox::new(4));
    bus.subscribe("echo.**", &box_).unwrap();
    bus.subscribe("echo.**", &box_).unwrap();
    bus.publish(&env_n("echo.aa", 1)).unwrap();
    assert!(bus.try_recv(&box_).is_some());
    assert!(bus.try_recv(&box_).is_none());
}

#[test]
fn same_inbox_two_patterns_one_copy() {
    let mut bus = Bus::new();
    let box_ = bus.attach(Inbox::new(4));
    bus.subscribe("echo.**", &box_).unwrap();
    bus.subscribe("**", &box_).unwrap();
    bus.publish(&env_n("echo.aa", 1)).unwrap();
    assert!(bus.try_recv(&box_).is_some());
    assert!(bus.try_recv(&box_).is_none());
}

#[test]
fn one_full_rolls_back_all() {
    let mut bus = Bus::new();
    let room = bus.attach(Inbox::new(2));
    let tight = bus.attach(Inbox::new(1));
    bus.subscribe("echo.**", &room).unwrap();
    bus.subscribe("echo.**", &tight).unwrap();
    bus.publish(&env_n("echo.aa", 1)).unwrap();
    assert!(bus.publish(&env_n("echo.bb", 2)).is_err());
    assert!(bus.try_recv(&room).is_some());
    assert!(bus.try_recv(&room).is_none());
    assert!(bus.try_recv(&tight).is_some());
}

#[test]
fn full_publish_reports_mailbox_full() {
    let mut bus = Bus::new();
    let tight = bus.attach(Inbox::new(1));
    bus.subscribe("echo.*", &tight).unwrap();
    bus.publish(&env_n("echo.aa", 1)).unwrap();
    let err = bus.publish(&env_n("echo.bb", 2)).unwrap_err();
    assert_eq!(err, eba::Error::MailboxFull);
    assert_eq!(err.message(), "bus: mailbox full");
}

#[test]
fn subscribe_rejects_bad_pattern() {
    let mut bus = Bus::new();
    let h = bus.attach(Inbox::new(1));
    let err = bus.subscribe("echo.*.x", &h).unwrap_err();
    assert_eq!(
        err,
        eba::Error::InvalidTopic("wildcard not terminal: \"echo.*.x\"".to_string())
    );
    assert_eq!(err.message(), "pattern: wildcard not terminal: \"echo.*.x\"");
}

#[test]
fn resubscribe_after_unsubscribe_delivers_again() {
    let mut bus = Bus::new();
    let h = bus.attach(Inbox::new(4));
    bus.subscribe("echo.*", &h).unwrap();
    assert!(bus.unsubscribe("echo.*", &h).unwrap());
    assert!(!bus.unsubscribe("echo.*", &h).unwrap());
    bus.subscribe("echo.*", &h).unwrap();
    bus.publish(&env_n("echo.aa", 1)).unwrap();
    assert_eq!(bus.try_recv(&h).map(|e| e.payload), Some(Value::Int(1)));
}
