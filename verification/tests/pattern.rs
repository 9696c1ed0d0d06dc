use logy::pattern::Pattern;

#[test]
fn pattern_that_does_not_compile_is_refused() {
    assert!(Pattern::new("foo(bar").is_none());
    assert!(Pattern::new("[a-").is_none());
}

#[test]
fn pattern_keeps_its_source() {
    let pattern = Pattern::new(r"^\d{4}-\d{2}").unwrap();
    assert_eq!(pattern.source(), r"^\d{4}-\d{2}");
    assert_eq!(pattern.duplicate().source(), r"^\d{4}-\d{2}");
}

#[test]
fn pattern_matches_anywhere_in_the_text() {
    let anchored = Pattern::new(r"^\d{4}-\d{2}").unwrap();
    assert!(anchored.matches("2021-09 started"));
    assert!(!anchored.matches("at 2021-09 started"));
    assert!(!anchored.matches(""));
    let free = Pattern::new(r"\d{4}-\d{2}").unwrap();
    assert!(free.matches("at 2021-09 started"));
}

#[test]
fn capture_gives_what_group_one_matched() {
    let pattern = Pattern::new(r"\[svc-\w+,(\w+,\w+)\]").unwrap();
    assert_eq!(
        pattern.capture("10:00 [svc-game,abc,def] request"),
        Some("abc,def".to_string())
    );
    assert_eq!(pattern.capture("10:00 no id here"), None);
}

#[test]
fn capture_is_none_without_a_group_or_when_the_group_took_no_part() {
    let no_group = Pattern::new(r"\d+").unwrap();
    assert_eq!(no_group.capture("abc 123"), None);
    let either = Pattern::new(r"(?:(\d+)|[a-z]+)").unwrap();
    assert_eq!(either.capture("abc"), None);
    assert_eq!(either.capture("123"), Some("123".to_string()));
}

#[test]
fn capture_takes_the_leftmost_match() {
    let pattern = Pattern::new(r"id=(\w+)").unwrap();
    assert_eq!(pattern.capture("id=first id=second"), Some("first".to_string()));
}
