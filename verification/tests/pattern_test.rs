use eba::{is_name, parse_pattern, split_topic, InvalidTopic};

fn parts(topic: &str) -> Vec<&str> {
    split_topic(topic).unwrap()
}

fn p(text: &str) -> eba::Pattern {
    parse_pattern(text).unwrap()
}

#[test]
fn exact_star_glob() {
    assert!(eba::pattern::matches(&p("echo"), &parts("echo")));
    assert!(eba::pattern::matches(&p("echo.*"), &parts("echo.e01")));
    assert!(!eba::pattern::matches(&p("echo.*"), &parts("echo.a.b")));
    assert!(eba::pattern::matches(&p("echo.**"), &parts("echo.a.b")));
    assert!(!eba::pattern::matches(&p("echo.**"), &parts("result.echo.e01")));
}

#[test]
fn wildcard_must_be_terminal() {
    let err = parse_pattern("echo.*.x").unwrap_err();
    assert_eq!(err, InvalidTopic("wildcard not terminal: \"echo.*.x\"".to_string()));
}

#[test]
fn empty_illegal() {
    assert!(parse_pattern("").is_err());
}

#[test]
fn empty_segment_and_illegal_name() {
    assert!(parse_pattern("echo..x").is_err());
    assert!(parse_pattern("Echo").is_err());
    assert!(parse_pattern("echo.**.x").is_err());
}

#[test]
fn bare_wildcards() {
    assert!(eba::pattern::matches(&p("*"), &parts("echo")));
    assert!(!eba::pattern::matches(&p("*"), &parts("echo.x")));
    assert!(eba::pattern::matches(&p("**"), &parts("echo")));
    assert!(eba::pattern::matches(&p("**"), &parts("a.b.c")));
}

#[test]
fn exact_miss() {
    assert!(!eba::pattern::matches(&p("echo"), &parts("echo.x")));
    assert!(!eba::pattern::matches(&p("echo.*"), &parts("echo")));
}

#[test]
fn segment_names() {
    assert!(is_name("e01"));
    assert!(is_name("read_x"));
    assert!(!is_name("Read"));
    assert!(!is_name("_x"));
    assert!(!is_name(""));
}

#[test]
fn pattern_parts_and_text_round_trip() {
    let q = p("echo.a.**");
    assert_eq!(q.literal, vec!["echo".to_string(), "a".to_string()]);
    assert_eq!(q.wildcard, eba::Wildcard::GlobStar);
    assert_eq!(eba::bus::subscriptions::pattern_text(&q), "echo.a.**");
    let e = p("echo");
    assert_eq!(e.wildcard, eba::Wildcard::Exact);
    assert_eq!(eba::bus::subscriptions::pattern_text(&e), "echo");
    let err = parse_pattern("").unwrap_err();
    assert_eq!(err.into_error().message(), "pattern: empty pattern");
}
