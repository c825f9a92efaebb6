use dee_bugee::event::LogEvent;
use dee_bugee::level::Level;
use dee_bugee::number::Double;
use dee_bugee::query::{parse_structured_query, QueryLiteral, QueryOperator};
use dee_bugee::search::{
    document_matches_terms, edit_distance_within, fuzzy_text_contains, search_document, search_terms,
};
use dee_bugee::time::Timestamp;

fn now() -> Timestamp {
    Timestamp::from_rfc3339("2026-08-22T12:00:00Z").unwrap()
}

fn event(message: &str) -> LogEvent {
    LogEvent::new(
        Level::Info,
        "app".to_string(),
        "sync".to_string(),
        "test.event".to_string(),
        message.to_string(),
        "app-1".to_string(),
    )
}

#[test]
fn parses_mixed_fuzzy_exact_numeric_and_relative_terms() {
    let parsed = parse_structured_query(
        "sync provider=remote duration_ms > 1000 timestamp:last-5m status != completed",
        now(),
    );

    assert_eq!(parsed.text, "sync");
    assert!(parsed.errors.is_empty());
    assert_eq!(parsed.predicates.len(), 4);
    assert_eq!(parsed.predicates[0].label, "provider = remote");
    assert_eq!(parsed.predicates[1].label, "duration_ms > 1000");
    assert_eq!(parsed.predicates[2].label, "timestamp >= last-5m");
    assert_eq!(parsed.predicates[3].label, "status != completed");
}

#[test]
fn quoted_values_can_include_spaces() {
    let parsed = parse_structured_query("event = 'sync completed' local", now());
    assert_eq!(parsed.text, "local");
    assert_eq!(parsed.predicates[0].label, "event = sync completed");
}

#[test]
fn malformed_structured_terms_are_reported_and_removed_from_fuzzy_text() {
    let parsed = parse_structured_query(
        "duration_ms > slow duraton_ms>10 unknown_field = 4 ordinary",
        now(),
    );
    assert_eq!(parsed.text, "ordinary");
    assert_eq!(parsed.errors.len(), 3);
    assert!(parsed.errors[0].message.contains("numeric"));
    assert!(parsed.errors[1].message.contains("Unknown"));
    assert!(parsed.errors[2].message.contains("Unknown"));
}

#[test]
fn predicate_ranges_count_bytes() {
    let query = "é provider=remote";
    let parsed = parse_structured_query(query, now());
    let range = parsed.predicates[0].range.clone();
    assert_eq!(&query[range], "provider=remote");
}

#[test]
fn relative_times_become_milliseconds() {
    let parsed = parse_structured_query("timestamp>last-1h", now());
    assert_eq!(parsed.predicates.len(), 1);
    let predicate = &parsed.predicates[0].predicate;
    assert_eq!(predicate.field, "timestamp");
    assert!(matches!(predicate.operator, QueryOperator::GreaterOrEqual));
    let expected = (now().timestamp_millis() - 3_600_000) as f64;
    match &predicate.value {
        QueryLiteral::Number(number) => assert_eq!(f64::from_bits(number.bits), expected),
        QueryLiteral::Text(_) => panic!("expected a number"),
    }
}

#[test]
fn predicates_test_the_event() {
    let mut subject = event("sync");
    subject.duration_ms = Some(Double { bits: 1000f64.to_bits() });
    let at_least = parse_structured_query("duration_ms>=1000", now());
    let above = parse_structured_query("duration_ms>1000", now());
    let other = parse_structured_query("provider!=remote", now());
    assert!(at_least.predicates[0].matches(&subject));
    assert!(!above.predicates[0].matches(&subject));
    let has_provider = other.predicates[0].matches(&subject);
    subject.provider = Some("local".to_string());
    assert!(other.predicates[0].matches(&subject));
    subject.provider = Some("remote".to_string());
    assert!(!other.predicates[0].matches(&subject));
    assert!(!has_provider);
}

#[test]
fn edit_distances_are_bounded() {
    assert!(edit_distance_within(b"segmant", b"segment", 1));
    assert!(!edit_distance_within(b"kitten", b"sitting", 2));
    assert!(edit_distance_within(b"kitten", b"sitting", 3));
    assert!(edit_distance_within(b"", b"", 0));
    assert!(!edit_distance_within(b"", b"ab", 1));
}

#[test]
fn words_are_found_with_small_typos() {
    assert!(fuzzy_text_contains("segment detection", "segmant"));
    assert!(fuzzy_text_contains("segment detection", "tect"));
    assert!(!fuzzy_text_contains("segment detection", "remote"));
    assert_eq!(
        search_terms("  Segment  LOCAL "),
        vec!["segment".to_string(), "local".to_string()]
    );
}

#[test]
fn literal_words_are_found_and_more_words_find_less() {
    let document = search_document(&event("Cache Connected"));
    assert!(document_matches_terms(&document, &search_terms("cache connected")));
    assert!(document_matches_terms(&document, &search_terms("")));
    assert!(!document_matches_terms(&document, &search_terms("cache decoder")));
}
