use dee_bugee::bookmark::{
    facet_section_starts_open, is_saved, overwrite_bookmark, rename_bookmark, save_filter,
    shown_facet_values, SHOWN_VALUES,
};
use dee_bugee::describe::{pin_span, PinInfo};
use dee_bugee::event::LogEvent;
use dee_bugee::facet::FilterState;
use dee_bugee::follow::should_reload_after_limit_change;
use dee_bugee::follower::ReaderMessage;
use dee_bugee::health::SourceLog;
use dee_bugee::keys::{key_actions, KeyAction, Keys};
use dee_bugee::level::Level;
use dee_bugee::pin::PinnedEvent;
use dee_bugee::project::{is_project_path, workspace_display_name};
use dee_bugee::record::{event_pin_key, next_pin_key};
use dee_bugee::store::EventStore;
use dee_bugee::time::Timestamp;

fn searching(text: &str) -> FilterState {
    let mut filter = FilterState::default();
    filter.text = text.to_string();
    filter
}

#[test]
fn saved_filters_are_found_overwritten_and_renamed() {
    let mut bookmarks = Vec::new();
    let cache = searching("cache");
    assert!(!is_saved(&bookmarks, &cache));
    save_filter(&mut bookmarks, &cache);
    assert!(is_saved(&bookmarks, &cache));
    assert_eq!(bookmarks[0].name, "Search: cache");

    let other = searching("other");
    overwrite_bookmark(&mut bookmarks, 0, &other);
    assert_eq!(bookmarks[0].name, "Search: cache");
    assert_eq!(bookmarks[0].filter.text, "other");
    assert!(!is_saved(&bookmarks, &cache));

    rename_bookmark(&mut bookmarks, 0, "  Mine ");
    assert_eq!(bookmarks[0].name, "Mine");
    assert_eq!(bookmarks[0].filter.text, "other");
    rename_bookmark(&mut bookmarks, 7, "nobody");
    overwrite_bookmark(&mut bookmarks, 7, &cache);
    assert_eq!(bookmarks.len(), 1);
    assert_eq!(bookmarks[0].name, "Mine");
}

#[test]
fn clicks_change_one_facet_of_the_filter() {
    let mut filter = searching("cache");
    filter.click_facet_value("level", "error", false);
    filter.click_facet_value("level", "warn", true);
    let selection = filter.facets.get("level").unwrap();
    assert_eq!(*selection.included.items(), vec!["error", "warn"]);
    filter.hide_facet_value("level", "warn");
    let selection = filter.facets.get("level").unwrap();
    assert_eq!(*selection.included.items(), vec!["error"]);
    assert_eq!(*selection.excluded.items(), vec!["warn"]);
    filter.click_facet_value("level", "error", false);
    let selection = filter.facets.get("level").unwrap();
    assert!(selection.included.is_empty());
    assert_eq!(*selection.excluded.items(), vec!["warn"]);
    filter.hide_facet_value("level", "warn");
    assert!(filter.facets.get("level").unwrap().is_empty());
    assert_eq!(filter.text, "cache");
    assert_eq!(filter.facets.len(), 1);
}

#[test]
fn sections_show_the_first_values_that_are_searched_for() {
    let counts: Vec<(String, u64)> = (0..250u64)
        .map(|number| (format!("Value {number}"), number))
        .collect();
    let shown = shown_facet_values(&counts, "");
    assert_eq!(shown.len(), SHOWN_VALUES);
    assert_eq!(shown[99], ("Value 99".to_string(), 99));
    let shown = shown_facet_values(&counts, "value 24");
    let names: Vec<&str> = shown.iter().map(|(name, _)| name.as_str()).collect();
    assert_eq!(names[0], "Value 24");
    assert_eq!(names[1], "Value 240");
    assert_eq!(names.len(), 11);
    assert!(facet_section_starts_open("level"));
    assert!(!facet_section_starts_open("provider"));
}

fn event(name: &str, time: &str) -> LogEvent {
    let mut event = LogEvent::new(
        Level::Info,
        "app".to_string(),
        "sync".to_string(),
        name.to_string(),
        "message".to_string(),
        "run".to_string(),
    );
    event.timestamp = Timestamp::from_rfc3339(time).unwrap();
    event
}

fn pin(key: &str) -> PinnedEvent {
    PinnedEvent {
        key: key.to_string(),
        note: String::new(),
        event_json: "{}".to_string(),
        timestamp: None,
    }
}

#[test]
fn pins_that_are_held_are_walked_in_a_ring() {
    let first = event("first", "2026-08-22T10:00:00Z");
    let second = event("second", "2026-08-22T10:00:05Z");
    let keys = [event_pin_key(&first, ""), event_pin_key(&second, "")];
    let pins = vec![pin(&keys[0]), pin("lost"), pin(&keys[1])];
    let mut store = EventStore::new(10);
    let durations = vec![String::new(), String::new()];
    assert_eq!(next_pin_key(&store, &vec![], &pins, None, true), None);
    store.extend(vec![first, second]);
    let next = |selected: Option<&str>, forward: bool| {
        next_pin_key(&store, &durations, &pins, selected, forward).unwrap()
    };
    assert_eq!(next(None, true), keys[0]);
    assert_eq!(next(None, false), keys[1]);
    assert_eq!(next(Some(keys[0].as_str()), true), keys[1]);
    assert_eq!(next(Some(keys[1].as_str()), true), keys[0]);
    assert_eq!(next(Some("elsewhere"), true), keys[0]);
}

#[test]
fn the_span_of_pins_reaches_from_the_first_to_the_last() {
    let info = |time: &str| {
        Some(PinInfo {
            timestamp: Timestamp::from_rfc3339(time).unwrap(),
            event: "event".to_string(),
            correlation: "run".to_string(),
        })
    };
    assert_eq!(pin_span(&vec![info("2026-08-22T10:00:00Z")]), None);
    let pins = vec![info("2026-08-22T10:00:00Z"), None, info("2026-08-22T10:00:01.250Z")];
    assert_eq!(pin_span(&pins), Some(1_250));
    assert_eq!(pin_span(&vec![info("2026-08-22T10:00:00Z"), None]), None);
}

#[test]
fn keys_ask_for_actions() {
    let none = Keys {
        up: false,
        down: false,
        f8: false,
        p: false,
        n: false,
        control: false,
        shift: false,
    };
    assert!(key_actions(none).is_empty());
    assert_eq!(key_actions(Keys { up: true, ..none }), vec![KeyAction::PreviousEvent]);
    assert_eq!(
        key_actions(Keys { down: true, control: true, ..none }),
        vec![KeyAction::NextPin]
    );
    assert_eq!(
        key_actions(Keys { f8: true, shift: true, ..none }),
        vec![KeyAction::PreviousError]
    );
    assert_eq!(
        key_actions(Keys { n: true, p: true, down: true, ..none }),
        vec![KeyAction::NextEvent, KeyAction::TogglePin, KeyAction::EditNote]
    );
}

#[test]
fn sources_are_told_in_short() {
    let mut log = SourceLog::new();
    assert_eq!(log.label(2), "Sources 2");
    log.note(
        &ReaderMessage::InvalidRecord {
            path: "a.jsonl".to_string(),
            line: 3,
            error: "expected a value".to_string(),
        },
        true,
    );
    assert_eq!(log.label(2), "Sources 2 · 1!");
}

#[test]
fn limits_reload_once_they_are_settled() {
    assert!(!should_reload_after_limit_change(false, true, true, false, false, true));
    assert!(should_reload_after_limit_change(true, false, false, false, false, false));
    assert!(!should_reload_after_limit_change(true, false, false, true, false, false));
    assert!(should_reload_after_limit_change(true, false, false, true, false, true));
    assert!(!should_reload_after_limit_change(true, false, false, false, true, false));
}

#[test]
fn projects_and_workspaces_are_told_by_their_directories() {
    assert!(is_project_path(true, false, None, None));
    assert!(is_project_path(false, true, Some("project.toml"), Some(".deebugee")));
    assert!(!is_project_path(false, true, Some("project.toml"), Some("elsewhere")));
    assert!(!is_project_path(false, false, Some("project.toml"), Some(".deebugee")));

    let name = |text: &str| Some(text.to_string());
    assert_eq!(workspace_display_name(name("logs"), true, name("home")), name("logs"));
    assert_eq!(workspace_display_name(name(".deebugee"), true, name("app")), name("app"));
    assert_eq!(
        workspace_display_name(name(".deebugee"), false, None),
        name(".deebugee")
    );
    assert_eq!(workspace_display_name(None, true, name("home")), None);
}
