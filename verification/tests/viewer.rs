use dee_bugee::event::LogEvent;
use dee_bugee::facet::FilterState;
use dee_bugee::follow::LatestAt;
use dee_bugee::layout::default_facet_order;
use dee_bugee::level::Level;
use dee_bugee::ordered::TextSet;
use dee_bugee::record::exported_records;
use dee_bugee::time::Timestamp;
use dee_bugee::viewer::{
    position_of_row, ring_step, LogView, SearchMode, SearchRequest, SearchResponse,
    MAX_CONFIGURABLE_EVENTS,
};

fn event(level: Level, message: &str) -> LogEvent {
    LogEvent::new(
        level,
        "app".to_string(),
        "sync".to_string(),
        "event".to_string(),
        message.to_string(),
        "run-a".to_string(),
    )
}

fn infos(messages: &[&str]) -> Vec<LogEvent> {
    messages
        .iter()
        .map(|message| event(Level::Info, message))
        .collect()
}

fn now() -> Timestamp {
    Timestamp::from_rfc3339("2026-08-22T12:00:00Z").unwrap()
}

fn view(max_events: usize) -> LogView {
    LogView::new(
        max_events,
        FilterState::default(),
        default_facet_order(),
        TextSet::new(),
        LatestAt::Bottom,
        true,
        false,
    )
}

fn drain(view: &mut LogView, events: Vec<LogEvent>) {
    let previous = view.begin_drain();
    view.receive_batch(events);
    view.note_discarded_events(0);
    view.finish_drain(previous, true, now());
}

fn answer(request: SearchRequest) -> SearchResponse {
    let matches = request.snapshot.search(&request.query, || false).unwrap();
    SearchResponse {
        generation: request.generation,
        query: request.query,
        matches,
        mode: request.mode,
        start_index: request.start_index,
        event_count: request.event_count,
        discarded_events: request.discarded_events,
    }
}

#[test]
fn new_events_are_shown_while_following() {
    let mut view = view(10);
    drain(&mut view, infos(&["one", "two"]));
    assert_eq!(view.visible_rows, vec![0, 1]);
    assert_eq!(view.table_rows.rows, vec![0, 1]);
    assert!(view.table.scroll_to_bottom_requested);
    assert_eq!(view.shown_label(), "2 shown  ·  2 loaded");
    assert_eq!(view.sessions.summaries.get("run-a").unwrap().event_count, 2);
}

#[test]
fn a_paused_view_keeps_what_it_shows() {
    let mut view = view(2);
    drain(&mut view, infos(&["one", "two"]));
    view.toggle_pause();
    drain(&mut view, infos(&["three"]));
    assert_eq!(view.visible_rows, vec![0, 1]);
    assert_eq!(view.store.len(), 3);
    view.toggle_pause();
    assert!(view.table.filters_dirty);
    drain(&mut view, vec![]);
    assert_eq!(view.store.len(), 2);
    assert_eq!(view.store.get(0).unwrap().message, "two");
}

#[test]
fn a_search_runs_in_steps_and_grows_with_the_log() {
    let mut view = view(10);
    drain(&mut view, infos(&["cache one", "other", "cache two"]));
    view.filter.text = "cache".to_string();
    view.query_text_changed(100, 50);
    assert!(view.start_scheduled_search(120).is_none());
    let request = view.start_scheduled_search(150).unwrap();
    assert_eq!(request.mode, SearchMode::Full);
    view.receive_search(answer(request), 160, now());
    assert_eq!(view.visible_rows, vec![0, 2]);
    assert!(view.cached_search_is_current());

    drain(&mut view, infos(&["cache three"]));
    let request = view.advance_search(300, now()).unwrap();
    assert_eq!(request.mode, SearchMode::Incremental);
    assert_eq!(request.start_index, 3);
    view.receive_search(answer(request), 310, now());
    assert_eq!(view.visible_rows, vec![0, 2, 3]);
}

#[test]
fn a_paused_view_searches_nothing() {
    let mut view = view(10);
    drain(&mut view, infos(&["cache one", "other"]));
    view.filter.text = "cache".to_string();
    view.query_text_changed(0, 0);
    view.toggle_pause();
    assert!(view.advance_search(10, now()).is_none());
    view.toggle_pause();
    assert!(view.advance_search(20, now()).is_some());
}

#[test]
fn answers_to_older_questions_are_left_out() {
    let mut view = view(10);
    drain(&mut view, infos(&["cache one", "other"]));
    view.filter.text = "cache".to_string();
    view.query_text_changed(0, 0);
    let request = view.start_scheduled_search(0).unwrap();
    view.filter.text = "other".to_string();
    view.query_text_changed(1, 0);
    let shown = view.visible_rows.clone();
    view.receive_search(answer(request), 2, now());
    assert_eq!(view.visible_rows, shown);
    assert!(!view.cached_search_is_current());
}

#[test]
fn facet_filters_apply_at_once_without_a_text() {
    let mut view = view(10);
    drain(&mut view, vec![event(Level::Info, "one"), event(Level::Error, "two")]);
    view.filter.minimum_level = Some(Level::Error);
    view.filter_changed(now());
    assert_eq!(view.visible_rows, vec![1]);
    assert_eq!(
        view.facet_counts.get("level").unwrap(),
        &vec![("error".to_string(), 1)]
    );
}

#[test]
fn errors_are_found_in_a_ring() {
    let mut view = view(10);
    drain(
        &mut view,
        vec![
            event(Level::Error, "zero"),
            event(Level::Info, "one"),
            event(Level::Fatal, "two"),
        ],
    );
    view.navigate_matching(true, true);
    assert_eq!(view.table.selected_row, Some(0));
    view.navigate_matching(true, true);
    assert_eq!(view.table.selected_row, Some(2));
    view.navigate_matching(true, true);
    assert_eq!(view.table.selected_row, Some(0));
    view.navigate_matching(false, false);
    assert_eq!(view.table.selected_row, Some(2));
    view.select_first_error();
    assert_eq!(view.table.selected_row, Some(0));
}

#[test]
fn rings_come_back_to_where_they_began() {
    assert_eq!(ring_step(5, Some(2), true, 5), 2);
    assert_eq!(ring_step(5, Some(4), true, 1), 0);
    assert_eq!(ring_step(5, Some(0), false, 1), 4);
    assert_eq!(ring_step(5, None, true, 1), 0);
    assert_eq!(ring_step(5, None, false, 1), 4);
    assert_eq!(position_of_row(&vec![4, 7, 9], 7), Some(1));
    assert_eq!(position_of_row(&vec![4, 7, 9], 5), None);
}

#[test]
fn selecting_a_hidden_event_clears_the_filter() {
    let mut view = view(10);
    drain(&mut view, vec![event(Level::Info, "one"), event(Level::Error, "two")]);
    view.filter.minimum_level = Some(Level::Error);
    view.filter_changed(now());
    view.select_event(0, now());
    assert_eq!(view.table.selected_row, Some(0));
    assert!(!view.filter.is_active());
    assert_eq!(view.visible_rows, vec![0, 1]);
}

#[test]
fn limits_and_resets_empty_the_log() {
    let mut view = view(10);
    drain(&mut view, infos(&["one", "two", "three"]));
    view.apply_event_limit(1, 0);
    assert_eq!(view.store.len(), 1);
    assert_eq!(view.max_events, 1);
    view.apply_event_limit(MAX_CONFIGURABLE_EVENTS + 1, 0);
    assert_eq!(view.max_events, MAX_CONFIGURABLE_EVENTS);
    view.reset_log();
    assert!(view.store.is_empty());
    assert_eq!(view.store.discarded_events(), 0);
    assert!(view.sessions.summaries.is_empty());
}

#[test]
fn following_ends_and_begins_by_hand() {
    let mut view = view(10);
    drain(&mut view, infos(&["one"]));
    view.set_following(false);
    assert!(!view.table.stick_to_bottom);
    assert!(!view.table.scroll_to_bottom_requested);
    view.set_following(true);
    assert!(view.table.scroll_to_bottom_requested);
    view.finish_frame(false, true, None);
    let report = view.finish_frame(false, true, None);
    assert!(report.request_ended);
    assert!(!view.table.scroll_to_bottom_requested);
    view.jump_to_latest();
    assert!(view.table.scroll_to_bottom_requested);
}

#[test]
fn groups_and_facets_are_arranged_by_hand() {
    let mut view = view(10);
    drain(&mut view, infos(&["request 1", "request 2", "other"]));
    view.toggle_grouping();
    assert_eq!(view.table_rows.rows, vec![1, 2]);
    assert_eq!(view.shown_label(), "2 groups · 3 events  ·  3 loaded");
    view.toggle_grouping();
    assert_eq!(view.table_rows.rows, vec![0, 1, 2]);
    view.set_facet_visible("status".to_string(), false);
    assert!(view.hidden_facets.contains("status"));
    view.set_facet_visible("status".to_string(), true);
    assert!(view.hidden_facets.is_empty());
    let second = view.facet_order[1].clone();
    view.move_facet(1, true);
    assert_eq!(view.facet_order[0], second);
    view.move_facet(0, true);
    assert_eq!(view.facet_order[0], second);
}

#[test]
fn a_new_view_is_idle() {
    let view = view(10);
    assert_eq!(view.search.due_at, None);
    assert!(!view.search.in_flight);
    assert!(view.search.matches.is_empty());
    assert!(view.facet_counts.is_empty());
    assert!(view.table_rows.groups.is_empty());
    assert!(!view.sessions.open);
}

#[test]
fn exported_records_are_those_of_the_listed_rows() {
    let made = |message: &str| {
        LogEvent::new(
            Level::Info,
            "backend".to_string(),
            "sync".to_string(),
            "sync.done".to_string(),
            message.to_string(),
            "app-1".to_string(),
        )
    };
    let events = vec![made("first"), made("second"), made("third")];
    let mut view = view(10);
    drain(&mut view, events.clone());
    assert_eq!(view.visible_rows, vec![0, 1, 2]);
    view.visible_rows = vec![2, 7, 0];
    let texts = vec![String::new(), String::new(), String::new()];
    assert_eq!(
        exported_records(&view, &texts),
        vec![events[2].to_record(""), events[0].to_record("")]
    );
}
