use dee_bugee::bookmark::{
    active_filter_count, apply_primary_facet_click, bookmark_name, compact_identifier,
    facet_section_open_request, facet_title, facet_value_matches_search, is_saved,
    opening_items, remove_query_expression, switch_scope, FilterBookmark,
};
use dee_bugee::describe::{
    cell, console_argument_summary, event_field_summaries, format_elapsed, format_relative_elapsed,
    message_details, pin_labels, Cell, ElapsedText, PinInfo,
};
use dee_bugee::event::LogEvent;
use dee_bugee::facet::{FacetSelection, FilterState};
use dee_bugee::hash::fingerprint;
use dee_bugee::json::{push_compact, JsonNumber, JsonValue};
use dee_bugee::layout::TableColumn;
use dee_bugee::level::Level;
use dee_bugee::number::Double;
use dee_bugee::ordered::TextMap;
use dee_bugee::pin::{position_of_pin, set_note, toggle_pin, PinnedEvent};
use dee_bugee::query::parse_structured_query;
use dee_bugee::record::{event_index_by_key, event_pin_key};
use dee_bugee::scope::{bookmark_scope_key, PathStep, SourcePlace, StepKind};
use dee_bugee::settings::{
    adopt_settings, check_workspace_version, places_to_open, starting_settings, startup_error,
    ViewSettings,
};
use dee_bugee::store::EventStore;
use dee_bugee::time::Timestamp;

fn event(level: Level, subsystem: &str, name: &str, message: &str) -> LogEvent {
    LogEvent::new(
        level,
        "renderer".to_string(),
        subsystem.to_string(),
        name.to_string(),
        message.to_string(),
        "session".to_string(),
    )
}

fn text(value: &str) -> JsonValue {
    JsonValue::String(value.to_string())
}

fn place(path: &str) -> SourcePlace {
    SourcePlace {
        steps: path
            .split('/')
            .map(|name| PathStep { kind: StepKind::Named, name: name.to_string() })
            .collect(),
        text: path.to_string(),
    }
}

#[test]
fn console_error_arguments_are_shown_as_a_secondary_message() {
    let mut event = event(
        Level::Error,
        "smart_next_autoload",
        "console.message",
        "[Smart Next Autoload] Source preparation failed:",
    );
    event.fields.insert(
        "args".to_string(),
        JsonValue::Array(vec![JsonValue::Object(vec![
            ("name".to_string(), text("Error")),
            ("message".to_string(), text("No later aired episode is available yet.")),
        ])]),
    );

    assert_eq!(
        console_argument_summary(&event).as_deref(),
        Some("Error: No later aired episode is available yet.")
    );

    event.event = "player.failed".to_string();
    assert_eq!(console_argument_summary(&event), None);
}

#[test]
fn field_summaries_separate_args_from_remaining_fields() {
    let mut event = event(Level::Info, "player", "console.message", "[Player] Started");
    event.fields.insert(
        "arguments".to_string(),
        JsonValue::Array(vec![
            text("[Player] Started"),
            JsonValue::Object(vec![(
                "attempt".to_string(),
                JsonValue::Number(JsonNumber::Natural(2)),
            )]),
        ]),
    );
    event.fields.insert("provider".to_string(), text("native"));

    assert!(event_field_summaries(&event, false).is_empty());
    assert_eq!(
        event_field_summaries(&event, true),
        vec![
            "args: [\"[Player] Started\",{\"attempt\":2}]".to_string(),
            "fields: {\"provider\":\"native\"}".to_string(),
        ]
    );
    let details = message_details(&event, true, Some("Repeated 2 times".to_string()));
    assert!(details.contains(&"Repeated 2 times".to_string()));
    assert!(details.contains(&"fields: {\"provider\":\"native\"}".to_string()));
}

#[test]
fn clicking_an_included_facet_again_clears_it_even_with_hidden_values() {
    let mut selection = FacetSelection::default();
    selection.toggle_exclude("hidden".to_string());

    apply_primary_facet_click(&mut selection, "visible", false);
    assert!(selection.included.contains("visible"));
    assert!(selection.excluded.contains("hidden"));

    apply_primary_facet_click(&mut selection, "visible", false);
    assert!(selection.included.is_empty());
    assert!(selection.excluded.contains("hidden"));
}

#[test]
fn bookmark_names_summarize_search_and_multi_facet_filters() {
    let mut filter = FilterState {
        text: "segment local".to_string(),
        ..FilterState::default()
    };
    let mut subsystem = FacetSelection::default();
    subsystem.toggle_include("player".to_string());
    subsystem.toggle_include("normalizer".to_string());
    filter.facets.insert("subsystem".to_string(), subsystem);

    let name = bookmark_name(&filter);
    assert!(name.contains("Search: segment local"));
    assert!(name.contains("Subsystem: normalizer + player"));
    assert_eq!(active_filter_count(&filter), 2);
}

#[test]
fn bookmark_names_are_short() {
    let filter = FilterState {
        text: "x".repeat(200),
        minimum_level: Some(Level::Warn),
        ..FilterState::default()
    };
    assert_eq!(bookmark_name(&filter).chars().count(), 72);
    assert_eq!(facet_title("app_session_id"), "App Session Id");
    assert_eq!(compact_identifier("abcdef", 4), "abc…");
    assert_eq!(compact_identifier("abcd", 4), "abcd");
    assert_eq!(compact_identifier("ab", 0), "…");
}

#[test]
fn structured_query_chips_remove_only_their_expression() {
    let query = "sync duration_ms > 1000 provider=remote";
    let parsed = parse_structured_query(query, Timestamp::now());
    assert_eq!(parsed.predicates.len(), 2);

    let without_duration = remove_query_expression(query, parsed.predicates[0].range.clone());
    assert_eq!(without_duration, "sync provider=remote");

    let reparsed = parse_structured_query(&without_duration, Timestamp::now());
    let without_provider =
        remove_query_expression(&without_duration, reparsed.predicates[0].range.clone());
    assert_eq!(without_provider, "sync");
}

#[test]
fn bookmark_scopes_are_stable_per_jsonl_source_set() {
    let alpha = || place("C:/logs/alpha.jsonl");
    let beta = || place("C:/logs/beta.jsonl");

    assert_eq!(
        bookmark_scope_key(vec![alpha(), beta()]),
        bookmark_scope_key(vec![beta(), alpha()])
    );
    assert_ne!(bookmark_scope_key(vec![alpha()]), bookmark_scope_key(vec![beta()]));
}

#[test]
fn scopes_are_sorted_by_path_and_list_each_once() {
    assert_eq!(bookmark_scope_key(vec![]), None);
    let mut paths = vec!["a/b-1", "a/b/c", "a", "a/b", "a.b"];
    let key = bookmark_scope_key(paths.iter().chain(paths.iter()).map(|path| place(path)).collect());
    paths.sort_by_key(|path| std::path::PathBuf::from(path));
    assert_eq!(key.as_deref(), Some(paths.join("\u{1f}").as_str()));
}

#[test]
fn facet_value_search_is_case_insensitive_and_empty_search_matches_all() {
    assert!(facet_value_matches_search("Remote Provider", "provider"));
    assert!(facet_value_matches_search("Remote Provider", "remote"));
    assert!(facet_value_matches_search("Remote Provider", ""));
    assert!(!facet_value_matches_search("Local Cache", "remote"));
}

#[test]
fn facet_search_results_stay_open_during_expand_collapse_all_requests() {
    assert_eq!(facet_section_open_request(false, Some(true)), Some(true));
    assert_eq!(facet_section_open_request(false, Some(false)), Some(false));
    assert_eq!(facet_section_open_request(true, Some(false)), Some(true));
    assert_eq!(facet_section_open_request(false, None), None);
}

#[test]
fn relative_time_is_signed_and_millisecond_precise() {
    assert_eq!(format_relative_elapsed(1_842), "+1.842s");
    assert_eq!(format_relative_elapsed(-25), "-0.025s");
}

#[test]
fn longer_times_are_shown_in_larger_units() {
    assert_eq!(format_relative_elapsed(0), "+0.000s");
    assert_eq!(format_relative_elapsed(61_005), "+1m 1.005s");
    assert_eq!(format_relative_elapsed(-7_380_000), "-2h 03m");
    assert!(matches!(format_elapsed(999), ElapsedText::Exact(text) if text == "999 ms"));
    assert!(matches!(format_elapsed(1_500), ElapsedText::Seconds(1_500)));
    assert!(matches!(format_elapsed(61_999), ElapsedText::Exact(text) if text == "1m 01s"));
}

fn pinned_run_event(name: &str, time: &str, level: Level) -> LogEvent {
    let mut event = event(level, "session-test", name, "[Session Test] Event");
    event.app_session_id = "run-pin".to_string();
    event.timestamp = Timestamp::from_rfc3339(time).unwrap();
    event
}

#[test]
fn pin_lookup_finds_events_hidden_from_the_presented_table() {
    let hidden = pinned_run_event("sync.started", "2026-08-22T10:00:00Z", Level::Info);
    let visible = pinned_run_event("sync.failed", "2026-08-22T10:00:01Z", Level::Error);
    let hidden_key = event_pin_key(&hidden, "");
    let visible_key = event_pin_key(&visible, "");
    let mut store = EventStore::new(10);
    store.extend(vec![hidden, visible]);
    let durations = vec![String::new(), String::new()];
    assert_eq!(event_index_by_key(&store, &durations, &hidden_key), Some(0));
    assert_eq!(event_index_by_key(&store, &durations, &visible_key), Some(1));
    assert_eq!(event_index_by_key(&store, &durations, "unknown"), None);
}

#[test]
fn records_are_compact_objects() {
    let made = || {
        let mut event = pinned_run_event("sync.failed", "2026-08-22T10:00:01Z", Level::Error);
        event.duration_ms = Some(Double { bits: 420.0f64.to_bits() });
        event.provider = Some("say \"hi\"".to_string());
        event.status = Some(text("failed"));
        event.fields.insert("attempt".to_string(), JsonValue::Bool(true));
        event.fields.insert("a".to_string(), JsonValue::Null);
        event
    };
    let record = made().to_record("420.0");
    let mut object = String::new();
    push_compact(
        &mut object,
        &JsonValue::Object(made().into_members("420.0".to_string())),
    );
    assert_eq!(record, object);
    let parsed: serde_json::Value = serde_json::from_str(&record).unwrap();
    assert_eq!(serde_json::to_string(&parsed["provider"]).unwrap(), "\"say \\\"hi\\\"\"");
    assert_eq!(parsed["duration_ms"].as_f64(), Some(420.0));
    assert!(record.ends_with("\"fields\":{\"a\":null,\"attempt\":true}}"));
    assert_eq!(event_pin_key(&made(), "420.0"), fingerprint(record.as_bytes()));
}

#[test]
fn kept_items_are_opened_before_others() {
    let mut kept: TextMap<Vec<u8>> = TextMap::new();
    kept.insert("here".to_string(), vec![1, 2]);
    assert_eq!(opening_items(&None, &mut kept, vec![9]), Vec::<u8>::new());
    assert_eq!(
        opening_items(&Some("elsewhere".to_string()), &mut kept, vec![9]),
        vec![9]
    );
    assert_eq!(
        opening_items(&Some("here".to_string()), &mut kept, vec![9]),
        vec![1, 2]
    );
    assert!(kept.is_empty());
}

fn pinned(key: &str, time: Option<&str>) -> PinnedEvent {
    PinnedEvent {
        key: key.to_string(),
        note: String::new(),
        event_json: "{}".to_string(),
        timestamp: time.map(|time| Timestamp::from_rfc3339(time).unwrap()),
    }
}

#[test]
fn pins_are_kept_in_the_order_of_time() {
    let mut pins = Vec::new();
    assert!(toggle_pin(&mut pins, pinned("late", Some("2026-08-22T10:00:05Z"))));
    assert!(toggle_pin(&mut pins, pinned("early", Some("2026-08-22T10:00:01Z"))));
    assert_eq!(position_of_pin(&pins, "early"), Some(0));
    assert_eq!(position_of_pin(&pins, "late"), Some(1));
    set_note(&mut pins, "late", "look here".to_string());
    assert_eq!(pins[1].note, "look here");
    assert!(!toggle_pin(&mut pins, pinned("early", None)));
    assert_eq!(position_of_pin(&pins, "early"), None);
    assert_eq!(pins.len(), 1);
}

#[test]
fn pins_tell_the_time_from_the_one_before() {
    let info = |time: &str, correlation: &str| {
        Some(PinInfo {
            timestamp: Timestamp::from_rfc3339(time).unwrap(),
            event: "sync".to_string(),
            correlation: correlation.to_string(),
        })
    };
    let labels = pin_labels(&vec![
        info("2026-08-22T10:00:00Z", "a"),
        None,
        info("2026-08-22T10:00:01.5Z", "a-very-long-correlation"),
    ]);
    assert_eq!(
        labels,
        vec!["sync · a", "Unavailable event", "+1.500s · sync · a-very-long-c…"]
    );
}

#[test]
fn cells_show_what_the_event_has() {
    let subject = event(Level::Warn, "player", "player.slow", "[Player] Slow");
    assert!(matches!(cell(TableColumn::Level, &subject), Cell::Text(_)));
    assert!(matches!(cell(TableColumn::Provider, &subject), Cell::Missing));
    assert!(matches!(cell(TableColumn::Message, &subject), Cell::Special));
    match cell(TableColumn::Tag, &subject) {
        Cell::Text(tag) => assert_eq!(tag, "Player"),
        _ => panic!("expected a text"),
    }
}

#[test]
fn saved_filters_are_recognized() {
    let filter = FilterState {
        text: "cache".to_string(),
        ..FilterState::default()
    };
    let saved = vec![FilterBookmark { name: bookmark_name(&filter), filter: filter.clone() }];
    assert!(is_saved(&saved, &filter));
    assert!(!is_saved(&saved, &FilterState::default()));
}

#[test]
fn scopes_keep_their_items() {
    let mut scope = None;
    let mut items: Vec<u8> = vec![];
    let mut kept = TextMap::new();
    assert!(switch_scope(&mut scope, &mut items, &mut kept, Some("a".to_string())));
    items.push(1);
    assert!(switch_scope(&mut scope, &mut items, &mut kept, Some("b".to_string())));
    assert!(items.is_empty());
    items.push(2);
    assert!(!switch_scope(&mut scope, &mut items, &mut kept, Some("b".to_string())));
    assert!(switch_scope(&mut scope, &mut items, &mut kept, Some("a".to_string())));
    assert_eq!(items, vec![1]);
}

#[test]
fn saved_settings_are_put_in_order() {
    let mut saved = ViewSettings::default();
    saved.column_order = vec![TableColumn::Message];
    saved.facet_order = vec!["status".to_string(), "status".to_string()];
    saved.max_events = 0;
    saved.filter.text = "cache".to_string();
    let adopted = adopt_settings(saved);
    assert_eq!(adopted.column_order.len(), 12);
    assert_eq!(adopted.facet_order[0], "status");
    assert_eq!(adopted.facet_order.len(), 9);
    assert_eq!(adopted.max_events, 1);
    assert_eq!(adopted.filter.text, "cache");
    let started = starting_settings(adopted, None);
    assert_eq!(started.filter.text, "");
}

#[test]
fn starts_open_what_was_asked_for() {
    assert_eq!(places_to_open(vec![1], Some(vec![2]), Some(vec![3])), vec![1]);
    assert_eq!(places_to_open(vec![], Some(vec![2]), Some(vec![3])), vec![2]);
    assert_eq!(places_to_open(vec![], None, Some(vec![3])), vec![3]);
    assert!(places_to_open::<u8>(vec![], None, None).is_empty());
    assert_eq!(
        startup_error(true, true, None, None).as_deref(),
        Some("Use either --project or --workspace, not both")
    );
    let error = |text: &str| Some(text.to_string());
    assert_eq!(startup_error(true, false, error("p"), error("w")).as_deref(), Some("p"));
    assert_eq!(startup_error(false, true, None, error("w")).as_deref(), Some("w"));
    assert_eq!(check_workspace_version(1, "w.toml"), Ok(()));
    assert_eq!(
        check_workspace_version(2, "w.toml"),
        Err("Unsupported workspace version 2 in w.toml".to_string())
    );
}

#[test]
fn records_are_single_lines() {
    let mut event = pinned_run_event("sync.failed", "2026-08-22T10:00:01Z", Level::Error);
    event.message = "first\nsecond\r\nthird".to_string();
    event.status = Some(JsonValue::Array(vec![text("a\nb")]));
    event.fields.insert("a\nb".to_string(), text("\n"));
    let record = event.to_record("");
    assert!(!record.contains('\n'));
    let parsed: serde_json::Value = serde_json::from_str(&record).unwrap();
    assert_eq!(parsed["message"].as_str(), Some("first\nsecond\r\nthird"));
    assert_eq!(parsed["fields"]["a\nb"].as_str(), Some("\n"));
}

#[test]
fn sources_are_sorted_by_their_steps() {
    let step = |kind: StepKind, name: &str| PathStep {
        kind,
        name: name.to_string(),
    };
    let source = |steps: Vec<PathStep>, text: &str| SourcePlace {
        steps,
        text: text.to_string(),
    };
    let places = vec![
        source(vec![step(StepKind::Named, "a.b")], "4"),
        source(vec![step(StepKind::Named, "a"), step(StepKind::Named, "b")], "3"),
        source(vec![step(StepKind::Parent, "")], "1"),
        source(vec![step(StepKind::Named, "a")], "2"),
        source(vec![step(StepKind::Root, ""), step(StepKind::Named, "z")], "0"),
    ];
    assert_eq!(
        bookmark_scope_key(places).as_deref(),
        Some("0\u{1f}1\u{1f}2\u{1f}3\u{1f}4")
    );
}
