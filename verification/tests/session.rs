use dee_bugee::event::LogEvent;
use dee_bugee::facet::{FacetSelection, FilterState};
use dee_bugee::json::JsonValue;
use dee_bugee::level::Level;
use dee_bugee::number::Double;
use dee_bugee::session::{
    apply_session_filter, compare_sessions, toggle_session_choice, SessionComparisonRow,
    SessionExplorerState, SessionSummary,
};
use dee_bugee::store::EventStore;
use dee_bugee::time::Timestamp;

fn number(value: f64) -> Double {
    Double { bits: value.to_bits() }
}

fn session_event(
    session: &str,
    event_name: &str,
    timestamp: &str,
    level: Level,
    duration_ms: Option<f64>,
    status: Option<&str>,
) -> LogEvent {
    let mut event = LogEvent::new(
        level,
        "test".to_string(),
        "session-test".to_string(),
        event_name.to_string(),
        "[Session Test] Event".to_string(),
        session.to_string(),
    );
    event.timestamp = Timestamp::from_rfc3339(timestamp).unwrap();
    event.duration_ms = duration_ms.map(number);
    event.status = status.map(|value| JsonValue::String(value.to_string()));
    event
}

#[test]
fn session_summaries_keep_outcomes_and_timing_correct_when_events_are_out_of_order() {
    let later = session_event(
        "run-a",
        "sync.completed",
        "2026-08-22T10:00:03Z",
        Level::Info,
        Some(120.0),
        Some("completed"),
    );
    let mut earlier = session_event(
        "run-a",
        "sync.started",
        "2026-08-22T10:00:00Z",
        Level::Warn,
        None,
        Some("started"),
    );
    earlier.provider = Some("local".to_string());
    earlier.request_id = Some("request-1".to_string());

    let mut explorer = SessionExplorerState::default();
    explorer.observe_many(&vec![later, earlier]);

    let summary = explorer.summaries.get("run-a").unwrap();
    assert_eq!(summary.event_count, 2);
    assert_eq!(summary.warning_count, 1);
    assert_eq!(summary.error_count, 0);
    assert_eq!(summary.elapsed_ms(), 3_000);
    assert_eq!(summary.status(), Some("completed"));
    assert!(summary.providers.contains("local"));
    assert!(summary.correlations.contains("request-1"));
}

#[test]
fn session_comparison_prioritizes_missing_and_changed_event_types() {
    let mut left = SessionSummary::new(&session_event(
        "run-a",
        "sync.started",
        "2026-08-22T10:00:00Z",
        Level::Info,
        Some(100.0),
        Some("started"),
    ));
    left.observe(&session_event(
        "run-a",
        "sync.completed",
        "2026-08-22T10:00:01Z",
        Level::Info,
        Some(200.0),
        Some("completed"),
    ));
    let mut right = SessionSummary::new(&session_event(
        "run-b",
        "sync.started",
        "2026-08-22T11:00:00Z",
        Level::Info,
        Some(240.0),
        Some("started"),
    ));
    right.observe(&session_event(
        "run-b",
        "sync.failed",
        "2026-08-22T11:00:01Z",
        Level::Error,
        Some(500.0),
        Some("failed"),
    ));

    let rows = compare_sessions(&left, &right);
    assert_eq!(rows.len(), 3);
    assert!(rows.iter().all(SessionComparisonRow::differs));
    assert!(rows[0].count_a == 0 || rows[0].count_b == 0);

    let started = rows.iter().find(|row| row.event == "sync.started").unwrap();
    assert_eq!(started.count_a, 1);
    assert_eq!(started.count_b, 1);
    assert_eq!(started.average_duration_a, Some(number(100.0)));
    assert_eq!(started.average_duration_b, Some(number(240.0)));
}

#[test]
fn session_comparison_detects_maximum_duration_only_changes() {
    let mut left = SessionSummary::new(&session_event(
        "run-a",
        "sync.step",
        "2026-08-22T10:00:00Z",
        Level::Info,
        Some(0.0),
        None,
    ));
    left.observe(&session_event(
        "run-a",
        "sync.step",
        "2026-08-22T10:00:01Z",
        Level::Info,
        Some(100.0),
        None,
    ));
    let mut right = SessionSummary::new(&session_event(
        "run-b",
        "sync.step",
        "2026-08-22T11:00:00Z",
        Level::Info,
        Some(50.0),
        None,
    ));
    right.observe(&session_event(
        "run-b",
        "sync.step",
        "2026-08-22T11:00:01Z",
        Level::Info,
        Some(50.0),
        None,
    ));

    let rows = compare_sessions(&left, &right);
    assert_eq!(rows[0].average_duration_a, rows[0].average_duration_b);
    assert_ne!(rows[0].max_duration_a, rows[0].max_duration_b);
    assert!(rows[0].differs());
}

#[test]
fn viewing_a_session_replaces_every_conflicting_filter() {
    let mut filter = FilterState {
        text: "failed provider=remote".to_owned(),
        minimum_level: Some(Level::Error),
        correlation: Some("request-other".to_owned()),
        ..FilterState::default()
    };
    let mut provider = FacetSelection::default();
    provider.include_only("remote".to_owned());
    filter.facets.insert("provider".to_owned(), provider);
    let mut session = FacetSelection::default();
    session.toggle_exclude("run-a".to_owned());
    filter.facets.insert("app_session_id".to_owned(), session);

    apply_session_filter(&mut filter, "run-a".to_owned());

    assert!(filter.text.is_empty());
    assert_eq!(filter.minimum_level, None);
    assert_eq!(filter.correlation, None);
    assert_eq!(filter.facets.len(), 1);
    let session = filter.facets.get("app_session_id").unwrap();
    assert_eq!(session.included.items(), &vec!["run-a".to_string()]);
    assert!(session.excluded.is_empty());
}

#[test]
fn relative_time_anchor_uses_the_complete_session_summary() {
    let mut explorer = SessionExplorerState::default();
    explorer.observe_many(&vec![
        session_event(
            "run-a",
            "sync.started",
            "2026-08-22T10:00:00Z",
            Level::Info,
            None,
            None,
        ),
        session_event(
            "run-a",
            "sync.failed",
            "2026-08-22T10:00:05Z",
            Level::Error,
            None,
            None,
        ),
    ]);

    let starts = explorer.session_start_times();
    assert_eq!(
        starts.get("run-a"),
        Some(&Timestamp::from_rfc3339("2026-08-22T10:00:00Z").unwrap())
    );
}

#[test]
fn comparison_slots_cannot_select_the_same_session() {
    assert_eq!(toggle_session_choice(None, "run-a", Some("run-a")), None);
    assert_eq!(
        toggle_session_choice(Some("run-a".to_string()), "run-a", None),
        None
    );
    assert_eq!(
        toggle_session_choice(None, "run-b", Some("run-a")),
        Some("run-b".to_string())
    );
}

#[test]
fn average_durations_are_those_of_the_machine() {
    let durations = [0.1, 0.2, 0.7, 1e9, 3.3333333333333335];
    let mut explorer = SessionExplorerState::default();
    for duration in durations {
        explorer.observe_many(&vec![session_event(
            "run-a",
            "sync.step",
            "2026-08-22T10:00:00Z",
            Level::Info,
            Some(duration),
            None,
        )]);
    }
    let expected: f64 = durations.iter().fold(0.0, |sum, duration| sum + duration);
    let step = explorer.summaries.get("run-a").unwrap().events.get("sync.step").unwrap();
    assert_eq!(step.count, 5);
    assert_eq!(step.average_duration_ms(), Some(number(expected / 5.0)));
    assert_eq!(step.max_duration_ms, Some(number(1e9)));
}

#[test]
fn sessions_are_rebuilt_sorted_and_counted() {
    let mut store = EventStore::new(10);
    store.extend(vec![
        session_event("run-a", "x", "2026-08-22T10:00:00Z", Level::Error, None, None),
        session_event("run-b", "x", "2026-08-22T11:00:00Z", Level::Warn, None, None),
        session_event("run-a", "y", "2026-08-22T10:30:00Z", Level::Fatal, None, None),
    ]);
    let mut explorer = SessionExplorerState::default();
    explorer.compare_a = Some("run-b".to_string());
    explorer.compare_b = Some("run-gone".to_string());
    explorer.rebuild(&store);
    explorer.retain_valid_selection();
    assert_eq!(explorer.compare_a.as_deref(), Some("run-b"));
    assert_eq!(explorer.compare_b, None);
    let sorted = explorer.sorted_summaries();
    let names: Vec<&str> = sorted.iter().map(|summary| summary.id.as_str()).collect();
    assert_eq!(names, vec!["run-b", "run-a"]);
    assert_eq!(sorted[1].event_count, 2);
    assert_eq!(sorted[1].error_count, 2);
    assert_eq!(sorted[0].warning_count, 1);
    assert_eq!(sorted[1].elapsed_ms(), 1_800_000);
    explorer.reset();
    assert!(explorer.summaries.is_empty());
    assert_eq!(explorer.compare_a, None);
}

#[test]
fn equal_sessions_have_no_differences() {
    let event = session_event("run-a", "x", "2026-08-22T10:00:00Z", Level::Info, Some(1.0), None);
    let rows = compare_sessions(&SessionSummary::new(&event), &SessionSummary::new(&event));
    assert_eq!(rows.len(), 1);
    assert!(!rows[0].differs());
    assert_eq!(rows[0].significance(), (false, 0, 0));
}

#[test]
fn sessions_do_not_depend_on_the_order_of_their_events() {
    let made = || {
        let mut first = session_event(
            "run",
            "a",
            "2026-08-22T10:00:00Z",
            Level::Warn,
            None,
            Some("started"),
        );
        first.provider = Some("local".to_string());
        let mut second = session_event(
            "run",
            "b",
            "2026-08-22T10:00:02Z",
            Level::Error,
            Some(5.0),
            Some("completed"),
        );
        second.request_id = Some("request-1".to_string());
        let third = session_event("run", "c", "2026-08-22T10:00:07Z", Level::Info, None, Some("-"));
        vec![first, second, third]
    };
    for order in [[0, 1, 2], [0, 2, 1], [1, 0, 2], [1, 2, 0], [2, 0, 1], [2, 1, 0]] {
        let events = order.iter().map(|place| made().swap_remove(*place)).collect();
        let mut explorer = SessionExplorerState::default();
        explorer.observe_many(&events);
        let summary = explorer.summaries.get("run").unwrap();
        assert_eq!(summary.event_count, 3);
        assert_eq!(summary.warning_count, 1);
        assert_eq!(summary.error_count, 1);
        assert_eq!(summary.elapsed_ms(), 7_000);
        assert_eq!(summary.status(), Some("completed"));
        assert!(summary.providers.contains("local"));
        assert!(summary.correlations.contains("request-1"));
    }
}

#[test]
fn sessions_have_room_for_what_can_be_counted() {
    let mut explorer = SessionExplorerState::default();
    assert!(explorer.has_room(usize::MAX));
    explorer.observe_many(&vec![session_event(
        "run",
        "a",
        "2026-08-22T10:00:00Z",
        Level::Info,
        None,
        None,
    )]);
    assert!(explorer.has_room(1));
    assert!(!explorer.has_room(usize::MAX));
}
