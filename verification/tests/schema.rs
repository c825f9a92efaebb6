use dee_bugee::event::{status_text, tag_text, LogEvent, SCHEMA_VERSION};
use dee_bugee::json::{push_compact, scalar_text, JsonNumber, JsonValue};
use dee_bugee::level::Level;
use dee_bugee::number::Double;
use dee_bugee::members::arranged;
use dee_bugee::schema::{repeated_member, EventField, Fault, SchemaError};
use dee_bugee::time::Timestamp;

fn value_of(value: &serde_json::Value) -> JsonValue {
    match value {
        serde_json::Value::Null => JsonValue::Null,
        serde_json::Value::Bool(value) => JsonValue::Bool(*value),
        serde_json::Value::Number(number) => JsonValue::Number(if let Some(natural) = number.as_u64() {
            JsonNumber::Natural(natural)
        } else if let Some(integer) = number.as_i64() {
            JsonNumber::Integer(integer)
        } else {
            JsonNumber::Real {
                number: Double { bits: number.as_f64().unwrap().to_bits() },
                text: number.to_string(),
            }
        }),
        serde_json::Value::String(text) => JsonValue::String(text.clone()),
        serde_json::Value::Array(items) => JsonValue::Array(items.iter().map(value_of).collect()),
        serde_json::Value::Object(members) => JsonValue::Object(
            members
                .iter()
                .map(|(name, value)| (name.clone(), value_of(value)))
                .collect(),
        ),
    }
}

fn members_of(raw: &str) -> Vec<(String, JsonValue)> {
    let value: serde_json::Value = serde_json::from_str(raw).unwrap();
    match value_of(&value) {
        JsonValue::Object(members) => members,
        _ => panic!("expected an object"),
    }
}

fn decode(raw: &str) -> Result<LogEvent, SchemaError> {
    LogEvent::from_members(members_of(raw))
}

fn encode(event: LogEvent) -> String {
    let duration_text = match event.duration_ms {
        Some(duration) => serde_json::to_string(&f64::from_bits(duration.bits)).unwrap(),
        None => String::new(),
    };
    let mut text = String::new();
    push_compact(&mut text, &JsonValue::Object(event.into_members(duration_text)));
    text
}

fn event(level: Level, source: &str, subsystem: &str, name: &str, message: &str) -> LogEvent {
    LogEvent::new(
        level,
        source.to_string(),
        subsystem.to_string(),
        name.to_string(),
        message.to_string(),
        "app-1".to_string(),
    )
}

const VALID: &str = r#"{
    "schema_version": 1,
    "timestamp": 1786882449672,
    "level": "info",
    "source": "app",
    "subsystem": "startup",
    "event": "app.started",
    "message": "started",
    "app_session_id": "app-1"
}"#;

#[test]
fn round_trip_preserves_v1_event() {
    let mut event = event(
        Level::Warn,
        "backend",
        "torrent",
        "torrent.slow",
        "Torrent is responding slowly",
    );
    event.duration_ms = Some(Double { bits: 1250.5f64.to_bits() });
    event.request_id = Some("request-1".to_string());
    event
        .fields
        .insert("status_code".to_string(), JsonValue::Number(JsonNumber::Natural(503)));
    let timestamp = event.timestamp;

    let encoded = encode(event);
    let decoded = decode(&encoded).unwrap();

    assert_eq!(decoded.timestamp, timestamp);
    assert_eq!(decoded.level, Level::Warn);
    assert_eq!(decoded.source, "backend");
    assert_eq!(decoded.subsystem, "torrent");
    assert_eq!(decoded.target, None);
    assert_eq!(decoded.event, "torrent.slow");
    assert_eq!(decoded.message, "Torrent is responding slowly");
    assert_eq!(decoded.app_session_id, "app-1");
    assert_eq!(decoded.playback_session_id, None);
    assert_eq!(decoded.request_id.as_deref(), Some("request-1"));
    assert_eq!(decoded.session_id, None);
    assert_eq!(decoded.provider, None);
    assert_eq!(decoded.duration_ms, Some(Double { bits: 1250.5f64.to_bits() }));
    assert_eq!(decoded.error_kind, None);
    assert!(decoded.status.is_none());
    assert_eq!(decoded.fields.len(), 1);
    assert_eq!(decoded.scalar_field_text("status_code").as_deref(), Some("503"));
    assert_eq!(decoded.schema_version, SCHEMA_VERSION);
    assert_eq!(decoded.correlation_id(), "request-1");
    assert_eq!(encode(decoded), encoded);
}

#[test]
fn correlation_uses_most_specific_available_id() {
    let mut event = LogEvent::new(
        Level::Info,
        "app".to_string(),
        "test".to_string(),
        "test".to_string(),
        "test".to_string(),
        "app".to_string(),
    );
    assert_eq!(event.correlation_id(), "app");
    event.session_id = Some("session".to_string());
    assert_eq!(event.correlation_id(), "session");
    event.request_id = Some("request".to_string());
    assert_eq!(event.correlation_id(), "request");
    event.playback_session_id = Some("playback".to_string());
    assert_eq!(event.correlation_id(), "playback");
}

#[test]
fn reads_streamee_epoch_timestamp_and_numeric_session_id() {
    let raw = r#"{
        "schema_version": 1,
        "timestamp": 1786882449672,
        "level": "info",
        "source": "backend",
        "subsystem": "mpv.launch",
        "target": "streamee_lib",
        "event": "mpv.spawned",
        "message": "MPV process spawned",
        "app_session_id": "1786882386729-11152",
        "playback_session_id": 51872
    }"#;

    let event = decode(raw).unwrap();
    assert_eq!(event.timestamp.timestamp_millis(), 1_786_882_449_672);
    assert_eq!(event.playback_session_id.as_deref(), Some("51872"));
    assert_eq!(event.target.as_deref(), Some("streamee_lib"));

    let encoded: serde_json::Value = serde_json::from_str(&encode(event)).unwrap();
    assert_eq!(encoded["timestamp"], 1_786_882_449_672_i64);
    assert_eq!(encoded["playback_session_id"], "51872");
}

#[test]
fn also_reads_rfc3339_timestamp_for_adapter_compatibility() {
    let raw = r#"{
        "schema_version": 1,
        "timestamp": "2026-08-16T12:00:00.000Z",
        "level": "info",
        "source": "app",
        "subsystem": "startup",
        "event": "app.started",
        "message": "started",
        "app_session_id": "app-1"
    }"#;
    let event = decode(raw).unwrap();
    assert_eq!(event.timestamp_text(), "2026-08-16T12:00:00.000Z");
}

#[test]
fn rejects_missing_or_unsupported_schema_contract_fields() {
    let missing_version = r#"{
            "timestamp": 1786882449672,
            "level": "info",
            "source": "app",
            "subsystem": "startup",
            "event": "app.started",
            "message": "started",
            "app_session_id": "app-1"
        }"#;
    assert!(decode(missing_version).is_err());

    let missing_level = missing_version.replace(
        "\"timestamp\": 1786882449672,",
        "\"schema_version\": 1, \"timestamp\": 1786882449672,",
    );
    let missing_level = missing_level.replace("\"level\": \"info\",", "");
    assert!(decode(&missing_level).is_err());

    let unsupported_version = missing_version.replace(
        "\"timestamp\": 1786882449672,",
        "\"schema_version\": 2, \"timestamp\": 1786882449672,",
    );
    assert!(decode(&unsupported_version).is_err());

    let valid_v1 = missing_version.replace(
        "\"timestamp\": 1786882449672,",
        "\"schema_version\": 1, \"timestamp\": 1786882449672,",
    );
    assert!(decode(&valid_v1).is_ok());
    let boolean_identifier = valid_v1.replace("\"app-1\"", "true");
    assert!(decode(&boolean_identifier).is_err());

    let empty_source = valid_v1.replace("\"source\": \"app\"", "\"source\": \"\"");
    assert!(decode(&empty_source).is_err());

    let negative_duration = valid_v1.replace(
        "\"app_session_id\":",
        "\"duration_ms\": -1, \"app_session_id\":",
    );
    assert!(decode(&negative_duration).is_err());
}

#[test]
fn derives_feature_tag_across_sources_and_context_prefixes() {
    let mut event = event(
        Level::Debug,
        "backend",
        "segment_detection.local",
        "segment_detection.message",
        "[Segment Detection][Local] Lookup started",
    );
    assert_eq!(event.tag(), "Segment Detection");

    event.message = "[Settings][WhisperLive] Runtime test started".to_string();
    event.subsystem = "settings.whisperlive".to_string();
    assert_eq!(event.tag(), "WhisperLive");

    event.message = "Cache inventory refreshed".to_string();
    event.subsystem = "audio_normalizer.storage".to_string();
    assert_eq!(event.tag(), "Audio Normalizer");
    assert_eq!(tag_text("Cache inventory refreshed", "audio_normalizer.storage"), "Audio Normalizer");
}

#[test]
fn refusals_say_what_is_wrong() {
    let missing = members_of(VALID)
        .into_iter()
        .filter(|(name, _)| name != "level")
        .collect();
    let missing = LogEvent::from_members(missing).err().unwrap();
    assert!(matches!(missing, SchemaError::Missing(_)));
    assert_eq!(missing.to_text(), "missing field `level`");

    let mut twice = members_of(VALID);
    twice.push(("level".to_string(), JsonValue::String("warn".to_string())));
    let twice = LogEvent::from_members(twice).err().unwrap();
    assert!(matches!(twice, SchemaError::Duplicate(_)));
    assert_eq!(twice.to_text(), "duplicate field `level`");

    let version = decode(&VALID.replace("\"schema_version\": 1", "\"schema_version\": 2"))
        .err()
        .unwrap();
    assert!(matches!(version, SchemaError::Invalid(_, _)));
    assert!(version.to_text().contains("schema version"));
}

#[test]
fn unknown_members_are_left_out() {
    let raw = VALID.replace("\"message\":", "\"colour\": \"red\", \"message\":");
    let event = decode(&raw).unwrap();
    assert!(event.fields.is_empty());
}

#[test]
fn timestamps_keep_milliseconds() {
    let time = Timestamp::from_rfc3339("2026-08-22T12:00:00.1239+02:00").unwrap();
    assert_eq!(time.to_rfc3339(), "2026-08-22T10:00:00.123Z");
    assert_eq!(time.timestamp_millis(), 1_787_392_800_123);
    assert_eq!(Timestamp::from_millis(1_787_392_800_123).unwrap().to_rfc3339(), "2026-08-22T10:00:00.123Z");
    assert_eq!(Timestamp::from_millis(-1).unwrap().to_rfc3339(), "1969-12-31T23:59:59.999Z");
    assert!(Timestamp::from_rfc3339("yesterday").is_none());
    assert!(Timestamp::from_millis(i64::MAX).is_none());
    let later = Timestamp::from_millis(1_787_392_801_000).unwrap();
    assert!(time.is_before(later));
    assert_eq!(later.milliseconds_since(time), 876);
    assert_eq!(time.milliseconds_since(later), -876);
}

#[test]
fn the_range_of_times_is_that_of_the_calendar() {
    let first = chrono::DateTime::<chrono::Utc>::MIN_UTC;
    let last = chrono::DateTime::<chrono::Utc>::MAX_UTC;
    assert_eq!(first.timestamp(), dee_bugee::time::FIRST_SECOND);
    assert_eq!(last.timestamp(), dee_bugee::time::LAST_SECOND);
    assert!(Timestamp::from_parts(dee_bugee::time::FIRST_SECOND, 0).is_some());
    assert!(Timestamp::from_parts(dee_bugee::time::FIRST_SECOND - 1, 0).is_none());
    assert!(Timestamp::from_parts(dee_bugee::time::LAST_SECOND, 999_999_999).is_some());
    assert!(Timestamp::from_parts(dee_bugee::time::LAST_SECOND + 1, 0).is_none());
}

#[test]
fn the_clock_moves_forward() {
    let before = Timestamp::precise_now();
    let event = event(Level::Info, "app", "test", "test", "test");
    let after = Timestamp::precise_now();
    assert_eq!(event.timestamp.parts().1 % 1_000_000, 0);
    assert!(event.timestamp.milliseconds_since(before) >= -1);
    assert!(!after.is_before(event.timestamp));
}

#[test]
fn session_identifiers_differ() {
    let first = LogEvent::new_app_session_id();
    let second = LogEvent::new_app_session_id();
    assert_ne!(first, second);
    assert_eq!(first.len(), 36);
    assert_eq!(first.matches('-').count(), 4);
    assert_eq!(first.as_bytes()[14], b'4');
}

#[test]
fn levels_are_ranked_and_named() {
    let names: Vec<&str> = Level::ALL.iter().map(|level| level.name()).collect();
    assert_eq!(names, vec!["trace", "debug", "info", "warn", "error", "fatal"]);
    for pair in Level::ALL.windows(2) {
        assert!(pair[0].severity() < pair[1].severity());
    }
    for level in Level::ALL {
        assert_eq!(Level::from_name(level.name()), Some(level));
        assert_eq!(Level::from_str(&level.to_string()), Ok(level));
    }
    assert_eq!(Level::from_name("loud"), None);
    assert!(Level::from_str("loud").is_err());
    assert_eq!(Level::default(), Level::Info);
}

#[test]
fn values_are_written_as_compact_text() {
    let raw = "{\"a\":[1,-2,2.5,true,null],\"b\":\"line\\n\\\"quoted\\\" \\u0001é\"}";
    let value: serde_json::Value = serde_json::from_str(raw).unwrap();
    let mut text = String::new();
    push_compact(&mut text, &value_of(&value));
    assert_eq!(text, serde_json::to_string(&value).unwrap());
    assert_eq!(scalar_text(&JsonValue::Number(JsonNumber::Integer(-7))).as_deref(), Some("-7"));
    assert_eq!(scalar_text(&JsonValue::Bool(false)).as_deref(), Some("false"));
    assert!(scalar_text(&JsonValue::Array(vec![])).is_none());
    assert_eq!(status_text(None), "-");
    assert_eq!(status_text(Some(&JsonValue::String("done".to_string()))), "done");
}

#[test]
fn tags_come_from_bracketed_prefixes_or_the_subsystem() {
    assert_eq!(tag_text("[Settings] Saved", "storage"), "Storage");
    assert_eq!(tag_text("Cache [Alpha] refreshed", "sync"), "Sync");
    assert_eq!(tag_text("[Alpha] Cache [Beta] refreshed", "sync"), "Alpha");
    assert_eq!(tag_text("[Settings] [WhisperLive] Runtime test", "settings"), "WhisperLive");
    assert_eq!(tag_text("  [Alpha] Started", "sync"), "Alpha");
    assert_eq!(tag_text("[Settings] Saved [Alpha]", "storage"), "Storage");
    assert_eq!(tag_text("[Alpha", "sync"), "Sync");
}

#[test]
fn copies_of_events_are_equal() {
    let mut event = event(Level::Info, "backend", "sync", "sync.done", "Done");
    event.status = Some(JsonValue::Array(vec![
        JsonValue::Null,
        JsonValue::Object(vec![("a".to_string(), JsonValue::Bool(true))]),
    ]));
    event.fields.insert("text".to_string(), JsonValue::String("value".to_string()));
    let mut copy = event.clone();
    assert_eq!(copy, event);
    copy.fields.insert("text".to_string(), JsonValue::Null);
    assert_ne!(copy, event);
}

fn field(name: &str, value: JsonValue) -> (String, JsonValue) {
    (name.to_string(), value)
}

fn natural(value: u64) -> JsonValue {
    JsonValue::Number(JsonNumber::Natural(value))
}

fn with_fields(fields: Vec<(String, JsonValue)>) -> LogEvent {
    let mut members = members_of(VALID);
    members.retain(|member| member.0 != "fields");
    members.push(field("fields", JsonValue::Object(fields)));
    LogEvent::from_members(members).ok().unwrap()
}

#[test]
fn nested_objects_keep_one_value_of_each_name_in_order() {
    let nested = JsonValue::Object(vec![
        field("b", natural(1)),
        field("a", natural(2)),
        field("b", natural(3)),
    ]);
    let event = with_fields(vec![
        field("z", JsonValue::Array(vec![nested.clone()])),
        field("y", JsonValue::Null),
        field("z", JsonValue::Array(vec![nested.clone(), natural(4)])),
    ]);
    let mut text = String::new();
    push_compact(&mut text, event.fields.get("z").unwrap());
    assert_eq!(text, "[{\"a\":2,\"b\":3},4]");
    assert!(event.to_record("").ends_with("\"fields\":{\"y\":null,\"z\":[{\"a\":2,\"b\":3},4]}}"));

    let mut members = members_of(VALID);
    members.retain(|member| member.0 != "status");
    members.push(field("status", nested));
    let event = LogEvent::from_members(members).ok().unwrap();
    let expected = JsonValue::Object(vec![field("a", natural(2)), field("b", natural(3))]);
    assert_eq!(event.status, Some(expected.clone()));
    assert_eq!(arranged(&expected), expected);
}

#[test]
fn events_are_read_from_arrays() {
    let text = |value: &str| JsonValue::String(value.to_string());
    let items = || {
        vec![
            natural(1),
            natural(1_700_000_000_000),
            text("warn"),
            text("backend"),
            text("sync"),
            JsonValue::Null,
            text("sync.done"),
            text("Done"),
            text("app-1"),
        ]
    };
    let event = LogEvent::from_items(items()).ok().unwrap();
    assert_eq!(event.level, Level::Warn);
    assert_eq!(event.event, "sync.done");
    assert_eq!(event.target, None);
    assert_eq!(event.session_id, None);
    let mut longer = items();
    longer.push(text("play"));
    let event = LogEvent::from_items(longer).ok().unwrap();
    assert_eq!(event.playback_session_id.as_deref(), Some("play"));
    let mut shorter = items();
    shorter.pop();
    assert_eq!(
        LogEvent::from_items(shorter).err(),
        Some(SchemaError::Missing(EventField::AppSessionId))
    );
    let mut wrong = items();
    wrong[7] = JsonValue::Bool(true);
    assert_eq!(
        LogEvent::from_items(wrong).err(),
        Some(SchemaError::Invalid(EventField::Message, Fault::WrongType))
    );
    let many = (0..18).map(natural).collect();
    assert_eq!(LogEvent::from_items(many).err(), Some(SchemaError::TooManyItems));
    assert_eq!(SchemaError::TooManyItems.to_text(), "trailing characters");
    assert_eq!(EventField::at(16), Some(EventField::Fields));
    assert_eq!(EventField::at(17), None);
}

#[test]
fn levels_may_be_named_by_an_object() {
    let read = |value: JsonValue| {
        let mut members = members_of(VALID);
        members.retain(|member| member.0 != "level");
        members.push(field("level", value));
        LogEvent::from_members(members)
    };
    let named = |name: &str, value: JsonValue| JsonValue::Object(vec![field(name, value)]);
    assert_eq!(read(named("fatal", JsonValue::Null)).ok().unwrap().level, Level::Fatal);
    assert_eq!(
        read(named("loud", JsonValue::Null)).err(),
        Some(SchemaError::Invalid(EventField::Level, Fault::UnknownLevel))
    );
    assert_eq!(
        read(named("fatal", natural(1))).err(),
        Some(SchemaError::Invalid(EventField::Level, Fault::WrongType))
    );
}

#[test]
fn repeated_members_are_known_by_their_names() {
    let members = members_of(VALID);
    assert_eq!(
        repeated_member(&members, "level"),
        Some(SchemaError::Duplicate(EventField::Level))
    );
    assert_eq!(repeated_member(&members, "unknown"), None);
    assert_eq!(repeated_member(&vec![], "level"), None);
}
