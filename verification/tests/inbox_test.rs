use eba::{make_envelope, ActorId, Bus, Envelope, EnvelopeId, Inbox, MakeOptions, Subscriber, Value};

fn env_n(topic: &str, n: i64) -> Envelope {
    make_envelope(
        topic,
        Value::Int(n),
        ActorId("a".to_string()),
        MakeOptions {
            id: Some(EnvelopeId(format!("{n:032x}"))),
            ..Default::default()
        },
    )
    .expect("env")
}

#[test]
fn close_clears_and_stays_empty() {
    let mut box_ = Inbox::new(2);
    assert!(box_.try_enqueue(env_n("echo.x", 1)));
    box_.close();
    assert!(box_.is_closed());
    assert!(box_.is_empty());
    assert!(box_.try_recv().is_none());
    assert!(!box_.try_enqueue(env_n("echo.x", 2)));
    box_.close();
    assert!(box_.is_closed());
}

#[test]
fn enqueue_full_then_recv() {
    let mut box_ = Inbox::new(1);
    assert!(box_.try_enqueue(env_n("echo.x", 1)));
    assert!(!box_.try_enqueue(env_n("echo.x", 2)));
    assert!(box_.try_recv().is_some());
    assert!(box_.try_recv().is_none());
}

#[test]
fn drop_last_identity() {
    let mut box_ = Inbox::new(2);
    let (a, b) = (env_n("echo.x", 1), env_n("echo.x", 2));
    assert!(box_.try_enqueue(a.clone()));
    assert!(!box_.try_drop_last(&b));
    assert!(box_.try_drop_last(&a));
    assert!(box_.is_empty());
    assert!(!box_.try_drop_last(&a));
}

#[test]
fn note_reader_soft_second_actor() {
    let mut bus = Bus::new();
    let box_ = bus.attach(Inbox::new(2));
    Subscriber::new(&mut bus, ActorId("one".to_string()), &box_, &[]);
    Subscriber::new(&mut bus, ActorId("two".to_string()), &box_, &[]);
    assert!(bus.try_enqueue(&box_, env_n("echo.x", 1)));
}

#[test]
fn inbox_ids_are_unique() {
    let mut bus = Bus::new();
    let a = bus.attach(Inbox::new(1));
    let b = bus.attach(Inbox::new(1));
    assert_ne!(a.id(), b.id());
}

#[test]
fn fifo_order_kept() {
    let mut box_ = Inbox::new(3);
    assert!(box_.try_enqueue(env_n("echo.x", 1)));
    assert!(box_.try_enqueue(env_n("echo.x", 2)));
    assert_eq!(box_.try_recv().map(|e| e.payload), Some(Value::Int(1)));
    assert_eq!(box_.try_recv().map(|e| e.payload), Some(Value::Int(2)));
    assert!(box_.try_recv().is_none());
}
