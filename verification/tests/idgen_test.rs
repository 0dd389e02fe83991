use eba::{topic_segment, ActorId, EnvelopeId, IdGen};

#[test]
fn uuid_ids_differ() {
    let mut gen = eba::UuidIdGen::new();
    let a = gen.next_envelope_id();
    let b = gen.next_envelope_id();
    assert_ne!(a, b);
    let mapped = gen.topic_segment(&a).unwrap();
    assert_eq!(mapped, topic_segment(&a).unwrap());
}

#[test]
fn bad_id_segment() {
    assert!(topic_segment(&EnvelopeId("not-hex".to_string())).is_err());
}

#[test]
fn seq_increments() {
    let mut gen = eba::SeqIdGen::new(3);
    assert_ne!(IdGen::next_envelope_id(&mut gen), IdGen::next_envelope_id(&mut gen));
}

#[test]
fn seq_start_below_one_clamps() {
    let mut gen = eba::SeqIdGen::new(0);
    assert_eq!(IdGen::next_envelope_id(&mut gen), EnvelopeId(format!("{:032x}", 1)));
}

#[test]
fn actor_id_is_plain_label() {
    assert_eq!(ActorId("h".to_string()).0, "h");
}

#[test]
fn seq_ids_count_up_in_hex() {
    let mut gen = eba::SeqIdGen::new(15);
    assert_eq!(gen.next_envelope_id(), EnvelopeId(format!("{:032x}", 15)));
    assert_eq!(gen.next_envelope_id(), EnvelopeId(format!("{:032x}", 16)));
    let id = EnvelopeId(format!("{:032x}", 16));
    assert_eq!(gen.topic_segment(&id).unwrap(), format!("e{:032x}", 16));
}

#[test]
fn uuid_ids_are_lower_hex() {
    let mut gen = eba::UuidIdGen::new();
    let a = gen.next_envelope_id();
    assert_eq!(a.0.len(), 32);
    assert!(a.0.chars().all(|c| c.is_ascii_hexdigit() && !c.is_ascii_uppercase()));
    let chars: Vec<char> = a.0.chars().collect();
    assert_eq!(chars[12], '4');
    assert!(matches!(chars[16], '8' | '9' | 'a' | 'b'));
}
