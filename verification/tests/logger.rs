use dee_bugee::event::LogEvent;
use dee_bugee::json::{JsonNumber, JsonValue};
use dee_bugee::level::Level;
use dee_bugee::logger::{
    archive_suffix, direct_event, dropped_report, lost_events, promote_fields, rotation_plan,
    takes_more, value_to_number, ArchiveStep, LoggerConfig, Rotation, SendOutcome,
    DEFAULT_ARCHIVE_COUNT, DEFAULT_QUEUE_CAPACITY, DEFAULT_ROTATION_BYTES, LARGEST_DRAIN,
};
use dee_bugee::number::Double;
use dee_bugee::ordered::TextMap;

fn text(value: &str) -> JsonValue {
    JsonValue::String(value.to_string())
}

#[test]
fn tracing_layer_promotes_filterable_fields() {
    let mut fields = TextMap::new();
    fields.insert("subsystem".to_string(), text("torrent"));
    fields.insert("event".to_string(), text("torrent.ready"));
    fields.insert("request_id".to_string(), text("request-1"));
    fields.insert(
        "duration_ms".to_string(),
        JsonValue::Number(JsonNumber::Real {
            number: Double { bits: 42.5f64.to_bits() },
            text: "42.5".to_string(),
        }),
    );
    fields.insert("peers".to_string(), JsonValue::Number(JsonNumber::Natural(12)));
    fields.insert("message".to_string(), text("Torrent ready"));
    let event = promote_fields(
        fields,
        Level::Info,
        "event tests/logger.rs",
        "logger",
        "backend".to_string(),
        "app-1".to_string(),
    );
    assert_eq!(event.source, "backend");
    assert_eq!(event.subsystem, "torrent");
    assert_eq!(event.event, "torrent.ready");
    assert_eq!(event.message, "Torrent ready");
    assert_eq!(event.request_id.as_deref(), Some("request-1"));
    assert_eq!(event.duration_ms, Some(Double { bits: 42.5f64.to_bits() }));
    assert_eq!(event.fields.len(), 1);
    assert_eq!(event.scalar_field_text("peers").as_deref(), Some("12"));
    assert_eq!(event.target.as_deref(), Some("logger"));
}

#[test]
fn records_without_fields_are_named_by_their_callsite() {
    let event = promote_fields(
        TextMap::new(),
        Level::Warn,
        "event name",
        "target",
        "app".to_string(),
        "app-1".to_string(),
    );
    assert_eq!(event.message, "event name");
    assert_eq!(event.event, "event name");
    assert_eq!(event.subsystem, "target");
    assert_eq!(event.duration_ms, None);
}

#[test]
fn rotation_happens_between_complete_json_records() {
    let mut rotation = Rotation::new(0, 300, 2);
    let records: Vec<String> = (0..8)
        .map(|index| {
            LogEvent::new(
                Level::Info,
                "backend".to_string(),
                "test".to_string(),
                "test.event".to_string(),
                format!("record-{index}-{}", "x".repeat(80)),
                "app-1".to_string(),
            )
            .to_record("")
        })
        .collect();
    let mut files = vec![String::new()];
    for record in &records {
        let line = format!("{record}\n");
        let length = line.len() as u64;
        if rotation.needs_rotation(length) {
            rotation.restart();
            files.push(String::new());
        }
        rotation.count(length);
        files.last_mut().unwrap().push_str(&line);
    }
    let mut written = Vec::new();
    for file in &files {
        assert!(file.ends_with('\n'));
        for line in file.lines() {
            let parsed: serde_json::Value = serde_json::from_str(line).unwrap();
            assert_eq!(parsed["event"].as_str(), Some("test.event"));
            written.push(line.to_string());
        }
    }
    assert_eq!(written, records);
    assert_eq!(files.len(), 8);
}

#[test]
fn archives_grow_older() {
    assert_eq!(
        rotation_plan(2),
        vec![ArchiveStep::Remove(2), ArchiveStep::Age(1), ArchiveStep::Age(0)]
    );
    assert_eq!(archive_suffix(3), ".3");
}

#[test]
fn lost_events_are_counted_while_somebody_reads() {
    assert_eq!(lost_events(SendOutcome::Full, 3), 3);
    assert_eq!(lost_events(SendOutcome::Sent, 3), 0);
    assert_eq!(lost_events(SendOutcome::Disconnected, 3), 0);
    assert!(takes_more(LARGEST_DRAIN - 1));
    assert!(!takes_more(LARGEST_DRAIN));
    let report = dropped_report(12, "app".to_string(), "app-1".to_string());
    assert_eq!(report.level, Level::Warn);
    assert_eq!(
        report.message,
        "Dropped 12 log events because the writer queue was full"
    );
    assert_eq!(report.scalar_field_text("count").as_deref(), Some("12"));
}

#[test]
fn loggers_start_with_defaults() {
    let mut config = LoggerConfig::new("app.jsonl", "app".to_string());
    assert_eq!(config.queue_capacity, DEFAULT_QUEUE_CAPACITY);
    assert_eq!(config.rotation_bytes, DEFAULT_ROTATION_BYTES);
    assert_eq!(config.archive_count, DEFAULT_ARCHIVE_COUNT);
    assert_eq!(config.app_session_id.len(), 36);
    config.queue_capacity = 0;
    assert_eq!(config.capacity(), 1);
}

#[test]
fn direct_events_carry_their_fields() {
    let mut fields = TextMap::new();
    fields.insert("provider".to_string(), text("local"));
    let event = direct_event(
        Level::Error,
        "app".to_string(),
        "sync".to_string(),
        "sync.failed".to_string(),
        "Failed".to_string(),
        "app-1".to_string(),
        fields,
    );
    assert_eq!(event.provider, None);
    assert_eq!(event.scalar_field_text("provider").as_deref(), Some("local"));
}

#[test]
fn values_give_numbers() {
    let number = |value: &JsonValue| value_to_number(value).map(|number| f64::from_bits(number.bits));
    assert_eq!(number(&text("12.5")), Some(12.5));
    assert_eq!(number(&text("slow")), None);
    assert_eq!(number(&JsonValue::Number(JsonNumber::Integer(-3))), Some(-3.0));
    assert_eq!(number(&JsonValue::Bool(true)), None);
}

#[test]
fn archives_and_log_hold_the_last_records() {
    for archive_count in 0..4 {
        let mut rotation = Rotation::new(0, 10, archive_count);
        let mut generations: Vec<Option<Vec<u64>>> = vec![None; archive_count + 2];
        for record in 0..20u64 {
            let length = 3 + record % 4;
            if rotation.needs_rotation(length) {
                for step in rotation_plan(archive_count) {
                    match step {
                        ArchiveStep::Remove(generation) => generations[generation] = None,
                        ArchiveStep::Age(generation) => {
                            if let Some(held) = generations[generation].take() {
                                generations[generation + 1] = Some(held);
                            }
                        }
                    }
                }
                rotation.restart();
            }
            generations[0].get_or_insert_with(Vec::new).push(record);
            rotation.count(length);
            assert!(rotation.bytes_written <= 10);
            let held: Vec<u64> = generations.iter().rev().flatten().flatten().copied().collect();
            let expected: Vec<u64> = (record + 1 - held.len() as u64..=record).collect();
            assert_eq!(held, expected);
        }
    }
}

#[test]
fn a_log_that_is_too_large_is_archived_first() {
    let mut rotation = Rotation::new(500, 10, 1);
    assert!(rotation.needs_rotation(3));
    rotation.restart();
    assert!(!rotation.needs_rotation(30));
    rotation.count(30);
    assert_eq!(rotation.bytes_written, 30);
    assert!(rotation.needs_rotation(1));
}
