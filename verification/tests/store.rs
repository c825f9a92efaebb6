use dee_bugee::event::LogEvent;
use dee_bugee::facet::{FacetSelection, FilterState};
use dee_bugee::json::{JsonNumber, JsonValue};
use dee_bugee::level::Level;
use dee_bugee::number::Double;
use dee_bugee::store::EventStore;
use dee_bugee::time::Timestamp;

fn event(level: Level, source: &str, subsystem: &str, message: &str) -> LogEvent {
    LogEvent::new(
        level,
        source.to_string(),
        subsystem.to_string(),
        "test.event".to_string(),
        message.to_string(),
        "app-1".to_string(),
    )
}

fn number(value: f64) -> Double {
    Double { bits: value.to_bits() }
}

fn natural(value: u64) -> JsonValue {
    JsonValue::Number(JsonNumber::Natural(value))
}

fn time(text: &str) -> Timestamp {
    Timestamp::from_rfc3339(text).unwrap()
}

fn only(value: &str) -> FacetSelection {
    let mut selection = FacetSelection::default();
    selection.include_only(value.to_string());
    selection
}

fn without(value: &str) -> FacetSelection {
    let mut selection = FacetSelection::default();
    selection.toggle_exclude(value.to_string());
    selection
}

fn searching(text: &str) -> FilterState {
    FilterState {
        text: text.to_string(),
        ..FilterState::default()
    }
}

fn named(sources: &[&str]) -> Vec<LogEvent> {
    sources
        .iter()
        .map(|source| event(Level::Info, source, "test", source))
        .collect()
}

#[test]
fn left_include_and_right_exclude_have_tri_state_semantics() {
    let mut store = EventStore::new(100);
    store.extend(vec![
        event(Level::Info, "app", "sync", "one"),
        event(Level::Warn, "backend", "sync", "two"),
        event(Level::Error, "renderer", "player", "three"),
    ]);

    let mut filter = FilterState::default();
    filter.facets.insert("source".to_string(), only("backend"));
    assert_eq!(store.query(&filter), vec![1]);

    let mut source = filter.facets.remove("source").unwrap();
    source.included.clear();
    source.toggle_exclude("renderer".to_string());
    filter.facets.insert("source".to_string(), source);
    assert_eq!(store.query(&filter), vec![0, 1]);
}

#[test]
fn tag_facet_groups_the_same_feature_across_sources() {
    let mut store = EventStore::new(100);
    store.extend(vec![
        event(
            Level::Debug,
            "backend",
            "segment_detection.local",
            "[Segment Detection][Local] analysis started",
        ),
        event(
            Level::Debug,
            "renderer",
            "segment_detection.remote",
            "[Segment Detection][Remote] lookup started",
        ),
        event(
            Level::Info,
            "renderer",
            "whisperlive",
            "[WhisperLive] session started",
        ),
    ]);

    assert_eq!(
        store.facet_counts("tag", &FilterState::default()),
        vec![("Segment Detection".to_string(), 2), ("WhisperLive".to_string(), 1)]
    );
    let mut filter = FilterState::default();
    filter.facets.insert("tag".to_string(), only("Segment Detection"));
    assert_eq!(store.query(&filter), vec![0, 1]);
}

#[test]
fn facet_counts_ignore_the_facets_own_selection() {
    let mut store = EventStore::new(100);
    store.extend(vec![
        event(Level::Info, "backend", "sync", "one"),
        event(Level::Warn, "backend", "player", "two"),
        event(Level::Error, "renderer", "player", "three"),
    ]);
    let mut filter = FilterState::default();
    filter.facets.insert("source".to_string(), only("backend"));
    filter.facets.insert("subsystem".to_string(), only("player"));

    assert_eq!(
        store.facet_counts("source", &filter),
        vec![("backend".to_string(), 1), ("renderer".to_string(), 1)]
    );
}

#[test]
fn bounded_store_discards_oldest_batch_and_rebuilds_indexes() {
    let mut store = EventStore::new(3);
    store.extend(named(&["one", "two", "three", "four"]));

    assert_eq!(store.len(), 3);
    assert_eq!(store.discarded_events(), 1);
    assert_eq!(store.get(0).unwrap().source, "two");
    assert_eq!(
        store.facet_counts("source", &FilterState::default()).len(),
        3
    );
}

#[test]
fn changing_limit_prunes_immediately_and_keeps_the_newest_events() {
    let mut store = EventStore::new(5);
    store.extend(named(&["one", "two", "three", "four", "five"]));

    store.set_max_events(2);

    assert_eq!(store.max_events(), 2);
    assert_eq!(store.len(), 2);
    assert_eq!(store.discarded_events(), 3);
    assert_eq!(store.get(0).unwrap().source, "four");
    assert_eq!(store.get(1).unwrap().source, "five");
    assert_eq!(
        store.facet_counts("source", &FilterState::default()),
        vec![("five".to_string(), 1), ("four".to_string(), 1)]
    );
}

#[test]
fn extending_past_limit_keeps_exactly_the_latest_window() {
    let mut store = EventStore::new(3);
    store.extend(named(&["one", "two", "three", "four", "five"]));

    assert_eq!(store.len(), 3);
    assert_eq!(store.discarded_events(), 2);
    assert_eq!(store.get(0).unwrap().source, "three");
    assert_eq!(store.get(2).unwrap().source, "five");
}

#[test]
fn event_ids_remain_unique_after_pruning_shifts_indexes() {
    let mut store = EventStore::new(2);
    let duplicate = || event(Level::Info, "same", "same", "same");
    store.extend(vec![duplicate(), duplicate()]);
    let retained_id = store.event_id(1).unwrap();
    store.push(duplicate());

    assert_eq!(store.len(), 2);
    assert_eq!(store.event_id(0), Some(retained_id));
    assert!(store.event_id(1).unwrap() > retained_id);
}

#[test]
fn paused_pruning_keeps_older_rows_stable_until_resumed() {
    let mut store = EventStore::new(3);
    store.extend(named(&["one", "two", "three"]));

    store.set_pruning_paused(true);
    store.extend(named(&["four", "five"]));

    assert_eq!(store.len(), 5);
    assert_eq!(store.discarded_events(), 0);
    assert_eq!(store.get(0).unwrap().source, "one");
    assert_eq!(
        store.facet_counts("source", &FilterState::default()).len(),
        5
    );

    store.set_pruning_paused(false);

    assert_eq!(store.len(), 3);
    assert_eq!(store.discarded_events(), 2);
    assert_eq!(store.get(0).unwrap().source, "three");
    assert_eq!(store.get(2).unwrap().source, "five");
}

#[test]
fn indexed_facets_select_from_large_event_sets() {
    let mut store = EventStore::new(60_000);
    for index in 0..50_000 {
        store.push(event(
            Level::Info,
            if index % 2 == 0 {
                "backend"
            } else {
                "renderer"
            },
            if index % 5 == 0 { "player" } else { "sync" },
            "message",
        ));
    }
    let mut filter = FilterState::default();
    filter.facets.insert("source".to_string(), only("backend"));
    filter.facets.insert("subsystem".to_string(), without("player"));

    assert_eq!(store.query(&filter).len(), 20_000);
}

#[test]
fn fuzzy_search_matches_separated_terms_and_small_typos() {
    let mut store = EventStore::new(100);
    store.push(event(
        Level::Debug,
        "backend",
        "intro_detection",
        "[Segment Detection][Local] analysis started",
    ));

    let mut filter = searching("Segment Local");
    assert_eq!(store.query(&filter), vec![0]);

    filter.text = "segmant locl".to_string();
    assert_eq!(store.query(&filter), vec![0]);

    filter.text = "segment remote".to_string();
    assert!(store.query(&filter).is_empty());
}

#[test]
fn structured_queries_filter_exact_numeric_timestamp_and_field_values() {
    let mut matching = event(Level::Error, "backend", "sync", "sync failed");
    matching.provider = Some("remote".to_string());
    matching.duration_ms = Some(number(1_250.0));
    matching.status = Some(JsonValue::String("failed".to_string()));
    matching.fields.insert("retry_count".to_string(), natural(3));
    matching.timestamp = time("2026-08-22T10:00:00Z");

    let mut fast = event(Level::Info, "backend", "sync", "sync completed");
    fast.provider = Some("remote".to_string());
    fast.duration_ms = Some(number(80.0));
    fast.status = Some(JsonValue::String("completed".to_string()));
    fast.fields.insert("retry_count".to_string(), natural(0));
    fast.timestamp = time("2026-08-22T10:01:00Z");

    let mut missing_status = event(Level::Warn, "backend", "sync", "sync pending");
    missing_status.duration_ms = Some(number(2_000.0));
    missing_status.fields.insert("retry_count".to_string(), natural(4));
    missing_status.timestamp = time("2026-08-22T10:02:00Z");

    let mut store = EventStore::new(100);
    store.extend(vec![matching, fast, missing_status]);
    let filter = searching(
        "sync provider=remote duration_ms>=1000 fields.retry_count >= 2 status!=completed timestamp>=2026-08-22T09:59:00Z",
    );

    assert_eq!(store.query(&filter), vec![0]);
    assert_eq!(
        store.facet_counts("source", &filter),
        vec![("backend".to_string(), 1)]
    );
}

#[test]
fn invalid_structured_queries_fail_closed() {
    let mut store = EventStore::new(10);
    store.push(event(Level::Info, "app", "sync", "sync completed"));
    let filter = searching("duration_ms>slow");

    assert!(store.query(&filter).is_empty());
}

#[test]
fn one_search_result_is_reused_for_rows_and_facets() {
    let mut store = EventStore::new(100);
    store.extend(vec![
        event(Level::Info, "backend", "sync", "cache connected"),
        event(Level::Warn, "renderer", "sync", "cache delayed"),
        event(Level::Error, "backend", "player", "decoder failed"),
    ]);
    let filter = searching("cache");
    let matches = store.search_snapshot(0).search("cache", || false).unwrap();
    let facets = vec!["source".to_string(), "subsystem".to_string()];
    let results = store.query_with_facets(&filter, &facets, Some(&matches));

    assert_eq!(results.rows, vec![0, 1]);
    assert_eq!(
        results.facet_counts.get("source").unwrap(),
        &vec![("backend".to_string(), 1), ("renderer".to_string(), 1)]
    );
    assert_eq!(
        results.facet_counts.get("subsystem").unwrap(),
        &vec![("sync".to_string(), 2)]
    );
}

#[test]
fn snapshots_support_incremental_search_and_cancellation() {
    let mut store = EventStore::new(100);
    store.extend(vec![
        event(Level::Info, "backend", "sync", "first match"),
        event(Level::Info, "backend", "sync", "unrelated"),
    ]);
    let initial = store.search_snapshot(0).search("match", || false).unwrap();
    assert_eq!(initial, vec![0]);

    store.push(event(Level::Info, "renderer", "sync", "second match"));
    let incremental = store.search_snapshot(2).search("match", || false).unwrap();
    assert_eq!(incremental, vec![2]);
    assert!(store.search_snapshot(0).search("match", || true).is_none());
}

#[test]
fn structured_fields_are_normalized_once_and_remain_searchable() {
    let mut event = event(Level::Info, "backend", "sync", "request finished");
    event
        .fields
        .insert("CacheRegion".to_string(), JsonValue::String("Asia-East".to_string()));
    let mut store = EventStore::new(100);
    store.push(event);

    let filter = searching("cacheregion asia-east");
    assert_eq!(store.query(&filter), vec![0]);
}

#[test]
fn a_limit_of_zero_keeps_one_event() {
    let mut store = EventStore::new(0);
    assert_eq!(store.max_events(), 1);
    store.extend(named(&["one", "two"]));
    assert_eq!(store.len(), 1);
    assert_eq!(store.get(0).unwrap().source, "two");
    assert!(store.get(1).is_none());
    assert!(store.event_id(1).is_none());
}

#[test]
fn extending_in_parts_is_extending_at_once() {
    let mut whole = EventStore::new(3);
    whole.extend(named(&["one", "two", "three", "four", "five"]));
    let mut parts = EventStore::new(3);
    parts.extend(named(&["one", "two"]));
    parts.extend(named(&["three", "four", "five"]));
    assert_eq!(whole.len(), parts.len());
    assert_eq!(whole.discarded_events(), parts.discarded_events());
    for row in 0..3 {
        assert_eq!(whole.get(row).unwrap().source, parts.get(row).unwrap().source);
        assert_eq!(whole.event_id(row), parts.event_id(row));
    }
}

#[test]
fn levels_and_correlation_narrow_the_rows() {
    let mut related = event(Level::Warn, "app", "sync", "one");
    related.request_id = Some("request-1".to_string());
    let mut store = EventStore::new(10);
    store.extend(vec![
        event(Level::Info, "app", "sync", "zero"),
        related,
        event(Level::Fatal, "app", "sync", "two"),
    ]);
    let mut filter = FilterState::default();
    assert!(!filter.is_active());
    assert_eq!(store.query(&filter), vec![0, 1, 2]);
    filter.minimum_level = Some(Level::Warn);
    assert!(filter.is_active());
    assert_eq!(store.query(&filter), vec![1, 2]);
    filter.correlation = Some("request-1".to_string());
    assert_eq!(store.query(&filter), vec![1]);
}

#[test]
fn facet_names_follow_the_fields_of_the_kept_events() {
    let mut first = event(Level::Info, "app", "sync", "one");
    first.fields.insert("job".to_string(), natural(1));
    let mut store = EventStore::new(1);
    assert!(store.facet_names().is_empty());
    store.push(first);
    assert!(store.facet_names().contains(&"source".to_string()));
    assert!(store.facet_names().contains(&"fields.job".to_string()));
    assert_eq!(
        store.facet_counts("fields.job", &FilterState::default()),
        vec![("1".to_string(), 1)]
    );
    store.push(event(Level::Info, "app", "sync", "two"));
    assert!(store
        .facet_counts("fields.job", &FilterState::default())
        .is_empty());
}

#[test]
fn counts_are_ordered_by_size_and_name() {
    let mut store = EventStore::new(10);
    store.extend(named(&["b", "a", "c", "c"]));
    assert_eq!(
        store.facet_counts("source", &FilterState::default()),
        vec![("c".to_string(), 2), ("a".to_string(), 1), ("b".to_string(), 1)]
    );
}

#[test]
fn toggling_a_facet_twice_restores_it() {
    let mut selection = FacetSelection::default();
    selection.toggle_include("a".to_string());
    assert!(selection.included.contains("a"));
    selection.toggle_exclude("a".to_string());
    assert!(!selection.included.contains("a"));
    assert!(selection.excluded.contains("a"));
    selection.toggle_exclude("a".to_string());
    assert!(selection.is_empty());
    assert!(selection.is_same(&FacetSelection::default()));
}

#[test]
fn clearing_a_filter_makes_it_inactive() {
    let mut filter = searching("cache");
    filter.facets.insert("source".to_string(), only("backend"));
    assert!(filter.has_active_facet(None));
    assert!(!filter.has_active_facet(Some("source")));
    let copy = filter.clone();
    assert!(copy.is_same(&filter));
    filter.clear();
    assert!(!filter.is_active());
    assert!(!copy.is_same(&filter));
    assert!(filter.is_same(&FilterState::default()));
}

#[test]
fn a_relative_time_is_measured_from_the_given_moment() {
    let mut old = event(Level::Info, "app", "sync", "old");
    old.timestamp = time("2026-08-22T10:00:00Z");
    let mut new = event(Level::Info, "app", "sync", "new");
    new.timestamp = time("2026-08-22T10:09:00Z");
    let mut store = EventStore::new(10);
    store.extend(vec![old, new]);
    let filter = searching("timestamp:last-5m");
    assert_eq!(store.query_at(&filter, time("2026-08-22T10:10:00Z")), vec![1]);
    assert_eq!(store.query_at(&filter, time("2026-08-22T10:05:00Z")), vec![0, 1]);
    assert_eq!(
        store.facet_counts_at("source", &filter, time("2026-08-22T10:10:00Z")),
        vec![("app".to_string(), 1)]
    );
    let results = store.query_with_facets_at(
        &filter,
        &vec!["source".to_string()],
        None,
        time("2026-08-22T10:10:00Z"),
    );
    assert_eq!(results.rows, vec![1]);
}

#[test]
fn every_optional_text_is_searched() {
    let mut found = event(Level::Info, "app", "sync", "m");
    found.playback_session_id = Some("play1".to_string());
    found.request_id = Some("Ocelot".to_string());
    found.session_id = Some("zebra".to_string());
    found.target = Some("lynx".to_string());
    found.provider = Some("badger".to_string());
    found.error_kind = Some("walrus".to_string());
    let mut store = EventStore::new(10);
    store.push(found);
    for word in ["play1", "ocelot", "zebra", "lynx", "badger", "walrus", "zebra ocelot"] {
        assert_eq!(store.query(&searching(word)), vec![0], "{word}");
    }
    assert!(store.query(&searching("giraffe")).is_empty());
}

#[test]
fn a_search_without_words_is_never_stopped() {
    let mut store = EventStore::new(10);
    assert_eq!(store.search_snapshot(0).search("word", || true), Some(vec![]));
    store.extend(named(&["one", "two"]));
    assert_eq!(store.search_snapshot(0).search("", || true), Some(vec![0, 1]));
    assert_eq!(store.search_snapshot(0).search("one", || true), None);
    assert_eq!(store.search_snapshot(0).search("one", || false), Some(vec![0]));
}

#[test]
fn the_usual_store_keeps_a_quarter_of_a_million_events() {
    let store = EventStore::default();
    assert_eq!(store.max_events(), 250_000);
    assert!(store.is_empty());
    assert_eq!(store.discarded_events(), 0);
    assert!(store.query(&FilterState::default()).is_empty());
}

fn mixed() -> Vec<LogEvent> {
    vec![
        event(Level::Info, "backend", "sync", "cache connected"),
        event(Level::Warn, "renderer", "sync", "cache delayed"),
        event(Level::Error, "backend", "player", "decoder failed"),
        event(Level::Error, "backend", "player", "cache failed"),
        event(Level::Error, "frontend", "player", "cache missed"),
    ]
}

fn answer_alike(first: &EventStore, second: &EventStore) {
    assert_eq!(first.len(), second.len());
    assert_eq!(first.facet_names(), second.facet_names());
    let mut chosen = searching("cache");
    chosen.facets.insert("source".to_string(), only("backend"));
    for filter in [FilterState::default(), searching("cache"), searching("level = error"), chosen] {
        assert_eq!(first.query(&filter), second.query(&filter));
        for facet in first.facet_names() {
            assert_eq!(first.facet_counts(facet, &filter), second.facet_counts(facet, &filter));
        }
    }
}

#[test]
fn reused_search_results_give_rows_and_counts() {
    let mut store = EventStore::new(100);
    store.extend(mixed());
    let mut filter = searching("cache level = error");
    filter.facets.insert("source".to_string(), only("backend"));
    let found = store.search_snapshot(0).search(&filter.text, || false).unwrap();
    assert_eq!(found, vec![0, 1, 3, 4]);
    let facets = store.facet_names().clone();
    let results = store.query_with_facets(&filter, &facets, Some(&found));
    assert_eq!(results.rows, vec![3]);
    assert_eq!(results.rows, store.query(&filter));
    for facet in &facets {
        assert_eq!(
            results.facet_counts.get(facet).unwrap(),
            &store.facet_counts(facet, &filter)
        );
    }
    assert_eq!(
        results.facet_counts.get("source").unwrap(),
        &vec![("backend".to_string(), 1), ("frontend".to_string(), 1)]
    );
}

#[test]
fn pushing_events_is_extending_by_them() {
    for limit in [2, 4, 100] {
        let mut extended = EventStore::new(limit);
        extended.extend(mixed());
        let mut pushed = EventStore::new(limit);
        for event in mixed() {
            pushed.push(event);
        }
        assert_eq!(pushed.discarded_events(), extended.discarded_events());
        for row in 0..extended.len() {
            assert_eq!(pushed.event_id(row), extended.event_id(row));
            assert_eq!(pushed.get(row).unwrap().message, extended.get(row).unwrap().message);
        }
        answer_alike(&pushed, &extended);
    }
}

#[test]
fn a_pruned_store_answers_as_a_fresh_one() {
    let mut pruned = EventStore::new(100);
    pruned.extend(mixed());
    pruned.set_max_events(2);
    let mut fresh = EventStore::new(2);
    fresh.extend(mixed().split_off(3));
    assert_eq!(pruned.discarded_events(), 3);
    assert_eq!(pruned.event_id(0), Some(3));
    answer_alike(&pruned, &fresh);
}

#[test]
fn large_limits_are_kept_as_given() {
    let store = EventStore::new(usize::MAX);
    assert_eq!(store.max_events(), usize::MAX);
    let mut store = EventStore::new(5_000_000_000);
    assert_eq!(store.max_events(), 5_000_000_000);
    store.extend(named(&["one", "two"]));
    assert_eq!(store.len(), 2);
    store.set_max_events(1);
    assert_eq!(store.get(0).unwrap().source, "two");
}
