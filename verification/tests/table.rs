use dee_bugee::event::LogEvent;
use dee_bugee::follow::{
    advance_scroll_request, can_refresh_filtered_rows_immediately, ingestion_refresh_decision,
    latest_view_is_current, latest_visible_id, latest_visible_row, order_visible_rows,
    should_close_settings_popup, should_pause_pruning, should_reanchor_after_wrap,
    should_resume_follow_at_latest_edge, visible_tail_changed, IngestionRefreshDecision, LatestAt,
    LATEST_SETTLE_FRAMES,
};
use dee_bugee::grouping::{
    error_group_key, error_group_summary, group_rows, is_error_event, normalize_error_shape,
    ErrorGroup,
};
use dee_bugee::highlight::{highlight_at, highlighted_message, MessageTone};
use dee_bugee::layout::{
    default_column_order, default_facet_order, displayed_facets, move_column,
    normalize_column_order, normalize_facet_order, normalize_saved_column_order, stable_value_hue,
    ColorBy, TableColumn, TimestampDisplay, DISPLAYED_FACETS,
};
use dee_bugee::level::Level;
use dee_bugee::ordered::TextSet;
use dee_bugee::store::EventStore;
use dee_bugee::time::Timestamp;

fn event(message: &str) -> LogEvent {
    LogEvent::new(
        Level::Info,
        "test".to_string(),
        "viewer".to_string(),
        "event".to_string(),
        message.to_string(),
        "session".to_string(),
    )
}

fn made(level: Level, source: &str, name: &str, message: &str) -> LogEvent {
    LogEvent::new(
        level,
        source.to_string(),
        "sync".to_string(),
        name.to_string(),
        message.to_string(),
        "session".to_string(),
    )
}

fn characters(text: &str) -> Vec<char> {
    text.chars().collect()
}

#[test]
fn settings_opening_click_is_not_treated_as_an_outside_click() {
    assert!(!should_close_settings_popup(true, true, true, false));
    assert!(!should_close_settings_popup(false, true, true, true));
    assert!(should_close_settings_popup(false, true, true, false));
}

#[test]
fn repeat_grouping_normalizes_volatile_numbers_without_merging_sources() {
    let first = made(Level::Error, "backend", "request.failed", "Request 1842 failed after 500 ms");
    let second = made(Level::Error, "backend", "request.failed", "Request 9917 failed after 20 ms");
    let other_source =
        made(Level::Error, "renderer", "request.failed", "Request 9917 failed after 20 ms");

    assert_eq!(error_group_key(&first), error_group_key(&second));
    assert_ne!(error_group_key(&first), error_group_key(&other_source));
    let information = made(Level::Info, "backend", "request.finished", "Request 9917 finished");
    let mut store = EventStore::new(10);
    store.extend(vec![first, information, second]);
    let table = group_rows(&store, &vec![0, 1, 2], LatestAt::Bottom);
    assert_eq!(table.rows, vec![1, 2]);
    assert_eq!(table.groups.len(), 2);
    assert_eq!(
        table.groups[1],
        ErrorGroup { count: 2, first_index: 0, previous_index: Some(0), latest_index: 2 }
    );
}

#[test]
fn repeat_summary_shows_the_occurrence_before_the_current_event() {
    let mut store = EventStore::new(250_000);
    for time in ["2026-08-22T20:32:52Z", "2026-08-22T21:14:08Z", "2026-08-22T22:02:29Z"] {
        let mut event = made(Level::Error, "test", "request.failed", "[Session Test] Event");
        event.timestamp = Timestamp::from_rfc3339(time).unwrap();
        store.push(event);
    }
    let shown = |row: usize| {
        let seconds = store.get(row).unwrap().timestamp.parts().0;
        chrono::DateTime::from_timestamp(seconds, 0)
            .unwrap()
            .format("%d/%m/%Y %H:%M:%S")
            .to_string()
    };
    let group = group_rows(&store, &vec![0, 1, 2], LatestAt::Bottom).groups[0];
    assert_eq!(
        group,
        ErrorGroup { count: 3, first_index: 0, previous_index: Some(1), latest_index: 2 }
    );
    let summary = error_group_summary(
        group,
        Some(shown(group.first_index)),
        group.previous_index.map(shown),
    );
    assert_eq!(
        summary.as_deref(),
        Some("Repeated 3 times · first 22/08/2026 20:32:52 · last 22/08/2026 21:14:08")
    );
}

#[test]
fn an_event_that_stands_alone_has_no_summary() {
    let group = ErrorGroup { count: 1, first_index: 0, previous_index: None, latest_index: 0 };
    assert_eq!(error_group_summary(group, Some("first".to_string()), None), None);
}

#[test]
fn groups_share_out_the_rows() {
    let mut store = EventStore::new(10);
    store.extend(vec![event("a 1"), event("b 2"), event("a 3"), event("a 4"), event("b 5")]);
    for latest_at in [LatestAt::Bottom, LatestAt::Top] {
        let mut rows = vec![0, 1, 2, 3, 4];
        order_visible_rows(&mut rows, latest_at);
        let table = group_rows(&store, &rows, latest_at);
        let counted: usize = table.groups.iter().map(|group| group.count).sum();
        assert_eq!(counted, 5);
        assert_eq!(table.rows.len(), 2);
    }
}

#[test]
fn shapes_leave_numbers_out() {
    assert_eq!(normalize_error_shape("Request 1842 failed"), normalize_error_shape("request 7  FAILED"));
    assert_ne!(normalize_error_shape("read failed"), normalize_error_shape("write failed"));
    assert!(is_error_event(&made(Level::Fatal, "a", "b", "c")));
    assert!(!is_error_event(&made(Level::Warn, "a", "b", "c")));
}

#[test]
fn semantic_highlighting_prefers_negative_compound_phrases() {
    let message = "Not Found after a successful scan";
    let pieces = highlighted_message(message);
    let sections: Vec<(&str, Option<MessageTone>)> = pieces
        .iter()
        .map(|piece| (piece.text.as_str(), piece.tone))
        .collect();

    assert_eq!(
        sections,
        vec![
            ("Not Found", Some(MessageTone::Negative)),
            (" after a ", None),
            ("successful", Some(MessageTone::Positive)),
            (" scan", None),
        ]
    );
}

#[test]
fn semantic_highlighting_supports_common_log_phrase_separators() {
    assert_eq!(
        highlight_at(&characters("not_found"), 0),
        Some(("not_found".len(), MessageTone::Negative))
    );
    assert_eq!(
        highlight_at(&characters("connection-refused"), 0),
        Some(("connection-refused".len(), MessageTone::Negative))
    );
    assert_eq!(highlight_at(&characters("not foundish"), 0), None);
    assert_eq!(
        highlight_at(&characters("Complete"), 0),
        Some(("Complete".len(), MessageTone::Positive))
    );
    assert_eq!(
        highlight_at(&characters("not configured"), 0),
        Some(("not configured".len(), MessageTone::Negative))
    );
}

#[test]
fn pieces_make_up_the_message() {
    for message in ["", "é not found — retrying, läuft", "Ünfailed failed", "done"] {
        let whole: String = highlighted_message(message)
            .iter()
            .map(|piece| piece.text.as_str())
            .collect();
        assert_eq!(whole, message);
    }
    let pieces = highlighted_message("Ünfailed warning");
    assert_eq!(pieces[0].text, "Ünfailed ");
    assert_eq!(pieces[1].tone, Some(MessageTone::Warning));
}

#[test]
fn moving_columns_supports_before_and_after_drop_positions() {
    let mut columns = vec![
        TableColumn::Timestamp,
        TableColumn::Level,
        TableColumn::Source,
        TableColumn::Message,
    ];

    move_column(
        &mut columns,
        TableColumn::Message,
        TableColumn::Level,
        false,
    );
    assert_eq!(
        columns,
        vec![
            TableColumn::Timestamp,
            TableColumn::Message,
            TableColumn::Level,
            TableColumn::Source,
        ]
    );

    move_column(
        &mut columns,
        TableColumn::Timestamp,
        TableColumn::Source,
        true,
    );
    assert_eq!(
        columns,
        vec![
            TableColumn::Message,
            TableColumn::Level,
            TableColumn::Source,
            TableColumn::Timestamp,
        ]
    );
}

#[test]
fn saved_column_order_is_deduplicated_and_forward_compatible() {
    let normalized = normalize_column_order(vec![
        TableColumn::Message,
        TableColumn::Source,
        TableColumn::Message,
    ]);

    assert_eq!(normalized[0], TableColumn::Message);
    assert_eq!(normalized[1], TableColumn::Source);
    assert_eq!(normalized.len(), default_column_order().len());
    let timestamp = normalized
        .iter()
        .position(|column| *column == TableColumn::Timestamp)
        .unwrap();
    assert_eq!(normalized[timestamp + 1], TableColumn::RelativeTime);
    for column in default_column_order() {
        assert_eq!(
            normalized
                .iter()
                .filter(|candidate| **candidate == column)
                .count(),
            1
        );
    }
    let again = normalize_column_order(normalized.clone());
    assert_eq!(again, normalized);
}

#[test]
fn older_column_orders_get_the_relative_time_beside_the_time() {
    let mut saved = default_column_order();
    saved.retain(|column| *column != TableColumn::RelativeTime);
    saved.push(TableColumn::RelativeTime);
    let moved = normalize_saved_column_order(saved.clone(), false);
    let timestamp = moved.iter().position(|column| *column == TableColumn::Timestamp).unwrap();
    assert_eq!(moved[timestamp + 1], TableColumn::RelativeTime);
    assert_eq!(normalize_saved_column_order(saved.clone(), true), saved);
}

#[test]
fn latest_position_controls_order_and_scroll_edge() {
    let mut rows = vec![1, 2, 3];
    order_visible_rows(&mut rows, LatestAt::Top);
    assert_eq!(rows, vec![3, 2, 1]);
    assert_eq!(latest_visible_row(&rows, LatestAt::Top), Some(3));
    order_visible_rows(&mut rows, LatestAt::Top);
    order_visible_rows(&mut rows, LatestAt::Bottom);
    assert_eq!(rows, vec![1, 2, 3]);
    assert_eq!(latest_visible_row(&rows, LatestAt::Bottom), Some(3));
    assert_eq!(latest_visible_row(&vec![], LatestAt::Bottom), None);
}

#[test]
fn visible_tail_detection_uses_stable_ingestion_identity() {
    let mut store = EventStore::new(8);
    store.extend(vec![
        event("hidden"),
        event("visible older"),
        event("visible latest"),
    ]);
    let visible_rows = vec![1, 2];
    let previous_latest = latest_visible_id(&store, &visible_rows, LatestAt::Bottom).unwrap();

    assert!(!visible_tail_changed(
        Some(previous_latest),
        &store,
        &visible_rows,
        LatestAt::Bottom,
    ));

    store.push(event("visible latest"));
    assert!(visible_tail_changed(
        Some(previous_latest),
        &store,
        &vec![1, 3],
        LatestAt::Bottom
    ));

    let mut pruned_store = EventStore::new(8);
    pruned_store.extend(vec![event("visible older"), event("visible latest")]);
    let pruned_latest = latest_visible_id(&pruned_store, &vec![1], LatestAt::Bottom).unwrap();
    assert!(!visible_tail_changed(
        Some(pruned_latest),
        &pruned_store,
        &vec![1],
        LatestAt::Bottom,
    ));
}

#[test]
fn tail_request_survives_until_the_new_offset_reaches_bottom() {
    assert_eq!(
        advance_scroll_request(true, false, false, true, LATEST_SETTLE_FRAMES),
        (true, LATEST_SETTLE_FRAMES)
    );
    assert_eq!(
        advance_scroll_request(true, true, false, true, LATEST_SETTLE_FRAMES),
        (true, 1)
    );
    assert_eq!(
        advance_scroll_request(true, true, false, true, 1),
        (false, 0)
    );
    assert_eq!(
        advance_scroll_request(true, false, true, true, LATEST_SETTLE_FRAMES),
        (false, 0)
    );
}

#[test]
fn wrap_change_preserves_an_existing_latest_anchor() {
    assert!(should_reanchor_after_wrap(true, true, true, false));
    assert!(should_reanchor_after_wrap(true, true, false, true));
    assert!(!should_reanchor_after_wrap(true, true, false, false));
    assert!(!should_reanchor_after_wrap(true, false, true, false));
    assert!(!should_reanchor_after_wrap(false, true, true, false));
}

#[test]
fn facet_changes_refresh_visible_rows_without_waiting_for_the_next_frame() {
    assert!(can_refresh_filtered_rows_immediately(false, false));
    assert!(can_refresh_filtered_rows_immediately(true, true));
    assert!(!can_refresh_filtered_rows_immediately(true, false));
}

#[test]
fn ingestion_keeps_new_rows_pending_while_away_from_latest() {
    assert_eq!(
        ingestion_refresh_decision(true, false, false),
        IngestionRefreshDecision {
            mark_filters_dirty: true,
            refresh_anchored_view: false,
        }
    );
    assert_eq!(
        ingestion_refresh_decision(true, false, true),
        IngestionRefreshDecision {
            mark_filters_dirty: true,
            refresh_anchored_view: true,
        }
    );
    assert_eq!(
        ingestion_refresh_decision(true, true, false),
        IngestionRefreshDecision {
            mark_filters_dirty: false,
            refresh_anchored_view: false,
        }
    );
}

#[test]
fn latest_request_waits_for_deferred_rows_and_search_results() {
    assert_eq!(
        advance_scroll_request(true, true, false, false, 1),
        (true, LATEST_SETTLE_FRAMES)
    );
    assert_eq!(
        advance_scroll_request(true, false, false, true, LATEST_SETTLE_FRAMES),
        (true, LATEST_SETTLE_FRAMES)
    );
    assert_eq!(
        advance_scroll_request(true, true, false, true, LATEST_SETTLE_FRAMES),
        (true, 1)
    );
    assert_eq!(
        advance_scroll_request(true, true, false, true, 1),
        (false, 0)
    );
}

#[test]
fn returning_to_a_stale_edge_resumes_following() {
    assert!(should_resume_follow_at_latest_edge(
        true, false, true, false
    ));
    assert!(!should_resume_follow_at_latest_edge(
        false, false, true, false
    ));
    assert!(!should_resume_follow_at_latest_edge(
        true, true, true, false
    ));
    assert!(!should_resume_follow_at_latest_edge(
        true, false, true, true
    ));
}

#[test]
fn the_view_is_current_with_clean_filters_and_a_current_search() {
    assert!(latest_view_is_current(false, false, false));
    assert!(latest_view_is_current(false, true, true));
    assert!(!latest_view_is_current(false, true, false));
    assert!(!latest_view_is_current(true, false, true));
}

#[test]
fn pause_keeps_the_retained_window_and_selection_identity_stable() {
    let mut store = EventStore::new(2);
    store.extend(vec![event("first"), event("selected")]);
    let selected_id = store.event_id(1).unwrap();

    store.set_pruning_paused(should_pause_pruning(true, true));
    store.push(event("new while paused"));

    assert_eq!(store.len(), 3);
    assert_eq!(store.event_id(1), Some(selected_id));

    store.set_pruning_paused(should_pause_pruning(false, true));
    assert_eq!(store.len(), 2);
    assert_eq!(store.event_id(0), Some(selected_id));
}

#[test]
fn value_colors_are_stable_and_value_specific() {
    assert_eq!(stable_value_hue("backend"), stable_value_hue("backend"));
    assert_ne!(
        stable_value_hue("backend"),
        stable_value_hue("renderer")
    );
    assert!(stable_value_hue("") < 3_600);
}

#[test]
fn colours_go_by_a_value_of_the_event() {
    let subject = event("[Sync] started");
    assert_eq!(ColorBy::Off.event_value(&subject), None);
    assert_eq!(ColorBy::Source.event_value(&subject).as_deref(), Some("test"));
    assert_eq!(ColorBy::Tag.event_value(&subject).as_deref(), Some("Sync"));
    assert_eq!(ColorBy::Provider.event_value(&subject), None);
}

#[test]
fn facet_layout_is_deduplicated_and_forward_compatible() {
    let order = normalize_facet_order(vec![
        "status".to_owned(),
        "fields.job".to_owned(),
        "status".to_owned(),
    ]);
    assert_eq!(&order[..2], ["status", "fields.job"]);
    assert!(
        DISPLAYED_FACETS
            .iter()
            .all(|facet| order.contains(&(*facet).to_owned()))
    );
    assert_eq!(normalize_facet_order(order.clone()), order);
}

#[test]
fn hidden_facets_are_not_displayed() {
    let mut hidden = TextSet::new();
    hidden.insert("status".to_string());
    let order = default_facet_order();
    let names = vec!["fields.job".to_string(), "source".to_string()];
    let facets = displayed_facets(&order, &names, &hidden);
    assert!(!facets.contains(&"status".to_string()));
    assert!(facets.contains(&"source".to_string()));
    assert!(facets.contains(&"fields.job".to_string()));
}

#[test]
fn timestamp_display_keeps_utc_available_for_log_correlation() {
    let event = LogEvent::new(
        Level::Info,
        "app".to_string(),
        "startup".to_string(),
        "app.started".to_string(),
        "Started".to_string(),
        "session".to_string(),
    );
    let (seconds, nanos) = event.timestamp.parts();
    let expected = chrono::DateTime::from_timestamp(seconds, nanos).unwrap();
    assert_eq!(
        TimestampDisplay::Utc.format(&event, 3_600, "%H:%M:%S"),
        Some(expected.format("%H:%M:%S").to_string())
    );
    assert_ne!(TimestampDisplay::Local.title(), TimestampDisplay::Utc.title());
}

#[test]
fn times_are_written_at_an_offset() {
    let time = Timestamp::from_rfc3339("2026-08-22T10:00:01.250Z").unwrap();
    let shown = |display: TimestampDisplay, format: &str| {
        display.format_timestamp(time, 5_400, format)
    };
    assert_eq!(
        shown(TimestampDisplay::Local, "%Y-%m-%d %H:%M:%S%.3f %:z").as_deref(),
        Some("2026-08-22 11:30:01.250 +01:30")
    );
    assert_eq!(
        shown(TimestampDisplay::Utc, "%d/%m/%Y %H:%M %Z").as_deref(),
        Some("22/08/2026 10:00 UTC")
    );
    assert_eq!(shown(TimestampDisplay::Utc, "%"), None);
    assert_eq!(shown(TimestampDisplay::Local, "%Q"), None);
    assert_eq!(shown(TimestampDisplay::Local, "").as_deref(), Some(""));
}

#[test]
fn shapes_ignore_digits_and_spacing() {
    let shape = normalize_error_shape("Request 1842 failed after 500 ms");
    assert_eq!(shape, "request # failed after # ms");
    assert_eq!(normalize_error_shape("  Request 7\t failed \n after 12345 MS "), shape);
    assert_eq!(normalize_error_shape(&shape), shape);
    assert_eq!(normalize_error_shape("a1b22c"), normalize_error_shape("a333b4c"));
    assert_ne!(normalize_error_shape("a1b"), normalize_error_shape("a 1b"));
}

#[test]
fn shapes_settle_beyond_ascii() {
    let shape = normalize_error_shape("  \u{c4}NDERUNG 12\u{a0}\u{a0}\u{3a3}\u{a9} ");
    assert_eq!(shape, "\u{e4}nderung # \u{3c3}\u{a9}");
    assert_eq!(normalize_error_shape(&shape), shape);
}
