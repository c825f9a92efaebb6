use dee_bugee::event::LogEvent;
use dee_bugee::follower::{
    is_jsonl_name, FileCursor, ReaderCommand, ReaderMessage, MAX_BATCH_EVENTS, MAX_READ_PER_POLL,
};
use dee_bugee::health::{SourceHealthState, SourceLog};
use dee_bugee::json::{JsonNumber, JsonValue};
use dee_bugee::level::Level;

fn event(name: &str, message: &str) -> LogEvent {
    LogEvent::new(
        Level::Info,
        "backend".to_string(),
        "test".to_string(),
        name.to_string(),
        message.to_string(),
        "app-1".to_string(),
    )
}

fn value_of(value: &serde_json::Value) -> JsonValue {
    match value {
        serde_json::Value::Null => JsonValue::Null,
        serde_json::Value::Bool(value) => JsonValue::Bool(*value),
        serde_json::Value::Number(number) => {
            JsonValue::Number(JsonNumber::Natural(number.as_u64().unwrap()))
        }
        serde_json::Value::String(text) => JsonValue::String(text.clone()),
        serde_json::Value::Array(items) => JsonValue::Array(items.iter().map(value_of).collect()),
        serde_json::Value::Object(members) => JsonValue::Object(
            members
                .iter()
                .map(|(name, value)| (name.clone(), value_of(value)))
                .collect(),
        ),
    }
}

fn read(record: &[u8]) -> Result<LogEvent, String> {
    let value: serde_json::Value = match serde_json::from_slice(record) {
        Ok(value) => value,
        Err(error) => return Err(error.to_string()),
    };
    match value_of(&value) {
        JsonValue::Object(members) => {
            LogEvent::from_members(members).map_err(|error| error.to_text())
        }
        _ => Err("expected an object".to_string()),
    }
}

fn poll(cursor: &mut FileCursor, content: &[u8], identity: (u64, u64)) -> Vec<ReaderMessage<()>> {
    let (mut messages, start) = cursor.start_poll(content.len() as u64, Some(identity), 5);
    if let Some(offset) = start {
        let (mut opened, records) = cursor.receive(&content[offset as usize..]);
        messages.append(&mut opened);
        let results = records.iter().map(|record| read(record)).collect();
        messages.append(&mut cursor.read_records(results, 9));
    }
    if let Some(message) = cursor.end_poll(Ok(())) {
        messages.push(message);
    }
    messages
}

fn events(messages: Vec<ReaderMessage<()>>) -> Vec<LogEvent> {
    let mut result = Vec::new();
    for message in messages {
        if let ReaderMessage::Batch(mut events) = message {
            result.append(&mut events);
        }
    }
    result
}

#[test]
fn cursor_waits_for_complete_jsonl_records_and_then_emits_them() {
    let event = event("test", "hello");
    let encoded = event.to_record("");
    let split = encoded.len() / 2;
    let mut cursor = FileCursor::default();
    let messages = poll(&mut cursor, &encoded.as_bytes()[..split], (1, 1));
    assert!(messages
        .iter()
        .all(|message| !matches!(message, ReaderMessage::Batch(_))));
    let content = format!("{encoded}\n");
    let messages = poll(&mut cursor, content.as_bytes(), (1, 1));
    assert_eq!(events(messages), vec![event]);
    assert!(cursor.partial.is_empty());
    assert_eq!(cursor.line, 1);
}

#[test]
fn cursor_restarts_when_a_rotated_file_is_replaced() {
    let first = event("first", "first");
    let second = event(
        "second",
        "a replacement record long enough to exceed the previous cursor offset",
    );
    let mut cursor = FileCursor::default();
    let content = format!("{}\n", first.to_record(""));
    assert_eq!(events(poll(&mut cursor, content.as_bytes(), (1, 1))), vec![first]);
    let content = format!("{}\n", second.to_record(""));
    assert!(content.len() as u64 >= cursor.offset);
    let messages = poll(&mut cursor, content.as_bytes(), (1, 2));
    assert!(matches!(messages[0], ReaderMessage::SourceReplaced(())));
    assert_eq!(events(messages), vec![second]);
    let short = event("short", "short");
    let content = format!("{}\n", short.to_record(""));
    let messages = poll(&mut cursor, content.as_bytes(), (1, 2));
    assert!(matches!(messages[0], ReaderMessage::SourceReplaced(())));
    assert_eq!(events(messages), vec![short]);
}

#[test]
fn successful_poll_reports_recovery_after_a_transient_source_error() {
    let mut cursor = FileCursor::default();
    let told = cursor.end_poll(Err("missing".to_string()));
    assert!(matches!(told, Some(ReaderMessage::SourceError { .. })));
    assert!(cursor.end_poll(Err("missing".to_string())).is_none());
    assert!(cursor.end_poll(Err("locked".to_string())).is_some());
    let messages = poll(&mut cursor, b"", (1, 1));
    assert!(messages
        .iter()
        .any(|message| matches!(message, ReaderMessage::SourceRecovered(()))));
    assert!(cursor.last_error.is_none());
}

#[test]
fn initial_load_telemetry_is_reported_once_with_record_counts() {
    let mut cursor = FileCursor::default();
    let content = format!("{}\nnot-json\n", event("test", "hello").to_record(""));
    let mut messages = poll(&mut cursor, content.as_bytes(), (1, 1));
    messages.append(&mut poll(&mut cursor, content.as_bytes(), (1, 1)));
    assert_eq!(
        messages
            .iter()
            .filter(|message| matches!(message, ReaderMessage::InitialLoadStarted { .. }))
            .count(),
        1
    );
    let completed: Vec<_> = messages
        .iter()
        .filter_map(|message| match message {
            ReaderMessage::InitialLoadCompleted {
                file_size_bytes,
                event_count,
                invalid_count,
                duration_nanos,
                ..
            } => Some((*file_size_bytes, *event_count, *invalid_count, *duration_nanos)),
            _ => None,
        })
        .collect();
    assert_eq!(completed, vec![(content.len() as u64, 1, 1, 4)]);
    assert!(messages
        .iter()
        .any(|message| matches!(message, ReaderMessage::InvalidRecord { line: 2, .. })));
}

#[test]
fn records_are_the_same_whether_read_at_once_or_in_parts() {
    let content = b"one\n\ntwo\r\nthree\nrest";
    let mut whole = FileCursor::default();
    let (_, all) = whole.receive(content);
    for cut in 0..content.len() {
        let mut parts = FileCursor::default();
        let (_, mut records) = parts.receive(&content[..cut]);
        let (_, mut more) = parts.receive(&content[cut..]);
        records.append(&mut more);
        assert_eq!(records, all);
        assert_eq!(parts.partial, whole.partial);
    }
    assert_eq!(all, vec![b"one".to_vec(), b"two".to_vec(), b"three".to_vec()]);
    assert_eq!(whole.partial, b"rest".to_vec());
}

#[test]
fn batches_are_handed_over_when_full() {
    let mut cursor = FileCursor::default();
    let mut batch = Vec::new();
    let mut full = 0;
    for _ in 0..MAX_BATCH_EVENTS + 1 {
        if let Some(ReaderMessage::Batch(events)) = cursor.accept(&mut batch, Ok(event("test", "x"))) {
            assert_eq!(events.len(), MAX_BATCH_EVENTS);
            full += 1;
        }
    }
    assert_eq!(full, 1);
    assert_eq!(batch.len(), 1);
    assert!(MAX_READ_PER_POLL > 0);
}

#[test]
fn log_files_are_known_by_their_names() {
    assert!(is_jsonl_name("app.jsonl"));
    assert!(!is_jsonl_name("app.json"));
    assert!(!is_jsonl_name("app.log"));
    let command: ReaderCommand<String> = ReaderCommand::AddPaths(vec!["app.jsonl".to_string()]);
    assert!(matches!(command, ReaderCommand::AddPaths(_)));
}

#[test]
fn messages_take_a_path() {
    let message: ReaderMessage<()> = ReaderMessage::InvalidRecord {
        path: (),
        line: 3,
        error: "bad".to_string(),
    };
    match message.with_path("a.jsonl".to_string()) {
        ReaderMessage::InvalidRecord { path, line, error } => {
            assert_eq!(path, "a.jsonl");
            assert_eq!(line, 3);
            assert_eq!(error, "bad");
        }
        _ => panic!("expected an invalid record"),
    }
}

#[test]
fn sources_stay_apart() {
    let mut log = SourceLog::new();
    let place = |name: &str| name.to_string();
    log.note(&ReaderMessage::SourceOpened(place("a")), true);
    log.note(
        &ReaderMessage::InvalidRecord { path: place("a"), line: 7, error: "bad".to_string() },
        true,
    );
    log.note(
        &ReaderMessage::SourceError { path: place("b"), error: "gone".to_string() },
        false,
    );
    let first = log.health.get("a").unwrap();
    assert_eq!(first.parse_errors, 1);
    let second = log.health.get("b").unwrap();
    assert_eq!(second.state, SourceHealthState::Missing);
    assert_eq!(second.parse_errors, 0);
    assert_eq!(log.invalid_records, 1);
    assert_eq!(log.last_error.as_deref(), Some("b: gone"));
    log.note(&ReaderMessage::SourceReplaced(place("a")), true);
    assert_eq!(log.health.get("a").unwrap().rotations, 1);
    assert!(log.problems() > 0);
    log.clear();
    assert_eq!(log.problems(), 0);
    assert!(log.health.is_empty());
}

#[test]
fn growing_files_give_their_events_however_they_are_cut() {
    let written: Vec<LogEvent> = (0..5).map(|index| event("test", &format!("{index}"))).collect();
    let mut content = String::new();
    for (index, event) in written.iter().enumerate() {
        content.push_str(&event.to_record(""));
        content.push_str(if index % 2 == 0 { "\n" } else { "\r\n\nbroken\n" });
    }
    content.push_str("{\"schema_version\"");
    for step in [1, 7, 100, 10_000] {
        let mut cursor = FileCursor::default();
        let mut messages = Vec::new();
        let mut end = 0;
        while end < content.len() {
            end = content.len().min(end + step);
            messages.append(&mut poll(&mut cursor, &content.as_bytes()[..end], (1, 1)));
        }
        let refused = messages
            .iter()
            .filter(|message| matches!(message, ReaderMessage::InvalidRecord { .. }))
            .count();
        assert_eq!(refused, 2);
        assert_eq!(events(messages), written);
        assert_eq!(cursor.partial, b"{\"schema_version\"".to_vec());
    }
}

#[test]
fn results_are_told_in_batches() {
    let mut cursor = FileCursor::default();
    let mut results: Vec<Result<LogEvent, String>> = Vec::new();
    for _ in 0..MAX_BATCH_EVENTS + 3 {
        results.push(Ok(event("test", "x")));
    }
    results.insert(1, Err("bad".to_string()));
    let messages = cursor.read_records(results, 1);
    assert_eq!(messages.len(), 3);
    assert!(matches!(messages[0], ReaderMessage::InvalidRecord { line: 2, .. }));
    assert!(matches!(&messages[1], ReaderMessage::Batch(events) if events.len() == MAX_BATCH_EVENTS));
    assert!(matches!(&messages[2], ReaderMessage::Batch(events) if events.len() == 3));
    assert_eq!(cursor.line, MAX_BATCH_EVENTS as u64 + 4);
}
