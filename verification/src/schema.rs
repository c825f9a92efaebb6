//! Reading events from, and writing them as, the members of JSON objects.
use vstd::prelude::*;

use crate::event::{LogEvent, SCHEMA_VERSION};
use crate::json::{
    decimal_text, lemma_same_value_symmetric, number_text, option_view, push_decimal, same_value,
    JsonNumber, JsonValue,
};
use crate::level::{lemma_level_text_names_level, level_text, Level};
use crate::members::{
    arranged, arranges, gathered, gathers, is_arranged, is_last, lemma_arranged_is_in_order,
    lemma_arranged_stays, lemma_gathered_is_in_order, names_of,
};
use crate::number::{integer_double, magnitude, Double};
use crate::ordered::TextMap;
use crate::text::{owned, same};
use crate::time::{
    is_instant, rfc3339_instant, Timestamp, FIRST_SECOND, LAST_SECOND, NANOS_PER_SECOND,
};

verus! {

/// The members of an event's JSON object.
#[derive(Clone, Copy, PartialEq, Eq, Structural, Debug)]
pub enum EventField {
    SchemaVersion,
    Timestamp,
    Level,
    Source,
    Subsystem,
    Target,
    Event,
    Message,
    AppSessionId,
    PlaybackSessionId,
    RequestId,
    SessionId,
    Provider,
    DurationMs,
    ErrorKind,
    Status,
    Fields,
}

/// The name of a member.
pub open spec fn field_name(field: EventField) -> Seq<char> {
    match field {
        EventField::SchemaVersion => "schema_version"@,
        EventField::Timestamp => "timestamp"@,
        EventField::Level => "level"@,
        EventField::Source => "source"@,
        EventField::Subsystem => "subsystem"@,
        EventField::Target => "target"@,
        EventField::Event => "event"@,
        EventField::Message => "message"@,
        EventField::AppSessionId => "app_session_id"@,
        EventField::PlaybackSessionId => "playback_session_id"@,
        EventField::RequestId => "request_id"@,
        EventField::SessionId => "session_id"@,
        EventField::Provider => "provider"@,
        EventField::DurationMs => "duration_ms"@,
        EventField::ErrorKind => "error_kind"@,
        EventField::Status => "status"@,
        EventField::Fields => "fields"@,
    }
}

/// The member with a name.
pub open spec fn field_named(name: Seq<char>) -> Option<EventField> {
    if name == "schema_version"@ {
        Some(EventField::SchemaVersion)
    } else if name == "timestamp"@ {
        Some(EventField::Timestamp)
    } else if name == "level"@ {
        Some(EventField::Level)
    } else if name == "source"@ {
        Some(EventField::Source)
    } else if name == "subsystem"@ {
        Some(EventField::Subsystem)
    } else if name == "target"@ {
        Some(EventField::Target)
    } else if name == "event"@ {
        Some(EventField::Event)
    } else if name == "message"@ {
        Some(EventField::Message)
    } else if name == "app_session_id"@ {
        Some(EventField::AppSessionId)
    } else if name == "playback_session_id"@ {
        Some(EventField::PlaybackSessionId)
    } else if name == "request_id"@ {
        Some(EventField::RequestId)
    } else if name == "session_id"@ {
        Some(EventField::SessionId)
    } else if name == "provider"@ {
        Some(EventField::Provider)
    } else if name == "duration_ms"@ {
        Some(EventField::DurationMs)
    } else if name == "error_kind"@ {
        Some(EventField::ErrorKind)
    } else if name == "status"@ {
        Some(EventField::Status)
    } else if name == "fields"@ {
        Some(EventField::Fields)
    } else {
        None
    }
}

impl EventField {
    /// The name of the member.
    pub fn name(self) -> (name: &'static str)
        ensures
            name@ == field_name(self),
    {
        match self {
            EventField::SchemaVersion => "schema_version",
            EventField::Timestamp => "timestamp",
            EventField::Level => "level",
            EventField::Source => "source",
            EventField::Subsystem => "subsystem",
            EventField::Target => "target",
            EventField::Event => "event",
            EventField::Message => "message",
            EventField::AppSessionId => "app_session_id",
            EventField::PlaybackSessionId => "playback_session_id",
            EventField::RequestId => "request_id",
            EventField::SessionId => "session_id",
            EventField::Provider => "provider",
            EventField::DurationMs => "duration_ms",
            EventField::ErrorKind => "error_kind",
            EventField::Status => "status",
            EventField::Fields => "fields",
        }
    }

    /// The member with a name.
    pub fn from_name(name: &str) -> (field: Option<Self>)
        ensures
            field == field_named(name@),
    {
        if same(name, "schema_version") {
            Some(EventField::SchemaVersion)
        } else if same(name, "timestamp") {
            Some(EventField::Timestamp)
        } else if same(name, "level") {
            Some(EventField::Level)
        } else if same(name, "source") {
            Some(EventField::Source)
        } else if same(name, "subsystem") {
            Some(EventField::Subsystem)
        } else if same(name, "target") {
            Some(EventField::Target)
        } else if same(name, "event") {
            Some(EventField::Event)
        } else if same(name, "message") {
            Some(EventField::Message)
        } else if same(name, "app_session_id") {
            Some(EventField::AppSessionId)
        } else if same(name, "playback_session_id") {
            Some(EventField::PlaybackSessionId)
        } else if same(name, "request_id") {
            Some(EventField::RequestId)
        } else if same(name, "session_id") {
            Some(EventField::SessionId)
        } else if same(name, "provider") {
            Some(EventField::Provider)
        } else if same(name, "duration_ms") {
            Some(EventField::DurationMs)
        } else if same(name, "error_kind") {
            Some(EventField::ErrorKind)
        } else if same(name, "status") {
            Some(EventField::Status)
        } else if same(name, "fields") {
            Some(EventField::Fields)
        } else {
            None
        }
    }
}

/// The name of a member names that member.
pub proof fn lemma_field_name_names_field(field: EventField)
    ensures
        field_named(field_name(field)) == Some(field),
{
    reveal_strlit("schema_version");
    reveal_strlit("timestamp");
    reveal_strlit("level");
    reveal_strlit("source");
    reveal_strlit("subsystem");
    reveal_strlit("target");
    reveal_strlit("event");
    reveal_strlit("message");
    reveal_strlit("app_session_id");
    reveal_strlit("playback_session_id");
    reveal_strlit("request_id");
    reveal_strlit("session_id");
    reveal_strlit("provider");
    reveal_strlit("duration_ms");
    reveal_strlit("error_kind");
    reveal_strlit("status");
    reveal_strlit("fields");
    assert("schema_version"@[0] == 's' && "schema_version"@[1] == 'c');
    assert("timestamp"@[0] == 't' && "timestamp"@[1] == 'i');
    assert("level"@[0] == 'l' && "level"@[1] == 'e');
    assert("source"@[0] == 's' && "source"@[1] == 'o');
    assert("subsystem"@[0] == 's' && "subsystem"@[1] == 'u');
    assert("target"@[0] == 't' && "target"@[1] == 'a');
    assert("event"@[0] == 'e' && "event"@[1] == 'v');
    assert("message"@[0] == 'm' && "message"@[1] == 'e');
    assert("app_session_id"@[0] == 'a' && "app_session_id"@[1] == 'p');
    assert("playback_session_id"@[0] == 'p' && "playback_session_id"@[1] == 'l');
    assert("request_id"@[0] == 'r' && "request_id"@[1] == 'e');
    assert("session_id"@[0] == 's' && "session_id"@[1] == 'e');
    assert("provider"@[0] == 'p' && "provider"@[1] == 'r');
    assert("duration_ms"@[0] == 'd' && "duration_ms"@[1] == 'u');
    assert("error_kind"@[0] == 'e' && "error_kind"@[1] == 'r');
    assert("status"@[0] == 's' && "status"@[1] == 't');
    assert("fields"@[0] == 'f' && "fields"@[1] == 'i');
}

/// What is wrong with the value of a member.
#[derive(Clone, Copy, PartialEq, Eq, Structural, Debug)]
pub enum Fault {
    WrongType,
    UnsupportedVersion(u16),
    UnknownLevel,
    EmptyText,
    NotAnIdentifier,
    NotAnOptionalIdentifier,
    NotADuration,
    NotATimestamp,
    NotRfc3339,
    TimestampOutOfRange,
}

/// Why the members of a JSON object, or the items of an array, give no event.
#[derive(Clone, Copy, PartialEq, Eq, Structural, Debug)]
pub enum SchemaError {
    Duplicate(EventField),
    Missing(EventField),
    Invalid(EventField, Fault),
    TooManyItems,
}

/// The integer that a JSON number is.
pub open spec fn number_integer(number: JsonNumber) -> Option<int> {
    match number {
        JsonNumber::Natural(value) => Some(value as int),
        JsonNumber::Integer(value) => Some(value as int),
        JsonNumber::Real { .. } => None,
    }
}

/// The instant that a timestamp member gives, as seconds and nanoseconds.
pub open spec fn timestamp_reading(value: JsonValue) -> Result<(int, int), Fault> {
    match value {
        JsonValue::Number(number) => match number_integer(number) {
            Some(milliseconds) => if !(i64::MIN <= milliseconds <= i64::MAX) {
                Err(Fault::NotATimestamp)
            } else if FIRST_SECOND <= milliseconds / 1000 <= LAST_SECOND {
                Ok((milliseconds / 1000, (milliseconds % 1000) * 1_000_000))
            } else {
                Err(Fault::TimestampOutOfRange)
            },
            None => Err(Fault::NotATimestamp),
        },
        JsonValue::String(text) => match rfc3339_instant(text@) {
            Some(instant) => Ok(instant),
            None => Err(Fault::NotRfc3339),
        },
        _ => Err(Fault::NotATimestamp),
    }
}

/// The text of an identifier, which may be written as a number.
pub open spec fn identifier_of(value: JsonValue) -> Option<Seq<char>> {
    match value {
        JsonValue::String(text) => Some(text@),
        JsonValue::Number(number) => Some(number_text(number)),
        _ => None,
    }
}

/// Whether a double is the one that a JSON number gives.
pub open spec fn number_gives(number: JsonNumber, result: Double) -> bool {
    match number {
        JsonNumber::Natural(value) => result.holds_integer(value as int),
        JsonNumber::Integer(value) => result.holds_integer(value as int),
        JsonNumber::Real { number, .. } => result == number,
    }
}

/// Whether a JSON number is finite and not negative.
pub open spec fn is_duration(number: JsonNumber) -> bool {
    match number {
        JsonNumber::Natural(_) => true,
        JsonNumber::Integer(value) => value >= 0,
        JsonNumber::Real { number, .. } => number.finite() && number.value() >= 0,
    }
}

/// The name of a level: a text, or the name of the only member of an object, without a
/// value.
pub open spec fn level_name(value: JsonValue) -> Option<Seq<char>> {
    match value {
        JsonValue::String(text) => Some(text@),
        JsonValue::Object(members) => if members@.len() == 1 && members@[0].1 is Null {
            Some(members@[0].0@)
        } else {
            None
        },
        _ => None,
    }
}

/// What is wrong with the value of a member, if anything is.
pub open spec fn fault_of(field: EventField, value: JsonValue) -> Option<Fault> {
    match field {
        EventField::SchemaVersion => match value {
            JsonValue::Number(number) => match number_integer(number) {
                Some(version) => if version == SCHEMA_VERSION {
                    None
                } else if 0 <= version <= u16::MAX {
                    Some(Fault::UnsupportedVersion(version as u16))
                } else {
                    Some(Fault::WrongType)
                },
                None => Some(Fault::WrongType),
            },
            _ => Some(Fault::WrongType),
        },
        EventField::Timestamp => match timestamp_reading(value) {
            Ok(_) => None,
            Err(fault) => Some(fault),
        },
        EventField::Level => match level_name(value) {
            Some(text) => if exists|level: Level| text == #[trigger] level_text(level) {
                None
            } else {
                Some(Fault::UnknownLevel)
            },
            None => Some(Fault::WrongType),
        },
        EventField::Source | EventField::Subsystem | EventField::Event => match value {
            JsonValue::String(text) => if text@.len() > 0 {
                None
            } else {
                Some(Fault::EmptyText)
            },
            _ => Some(Fault::WrongType),
        },
        EventField::Message => if value is String {
            None
        } else {
            Some(Fault::WrongType)
        },
        EventField::AppSessionId => match identifier_of(value) {
            Some(text) => if text.len() > 0 {
                None
            } else {
                Some(Fault::NotAnIdentifier)
            },
            None => Some(Fault::NotAnIdentifier),
        },
        EventField::PlaybackSessionId | EventField::RequestId | EventField::SessionId => if value
            is Null || identifier_of(value) is Some {
            None
        } else {
            Some(Fault::NotAnOptionalIdentifier)
        },
        EventField::Target | EventField::Provider | EventField::ErrorKind => if value is Null
            || value is String {
            None
        } else {
            Some(Fault::WrongType)
        },
        EventField::DurationMs => match value {
            JsonValue::Null => None,
            JsonValue::Number(number) => if is_duration(number) {
                None
            } else {
                Some(Fault::NotADuration)
            },
            _ => Some(Fault::WrongType),
        },
        EventField::Status => None,
        EventField::Fields => if value is Object {
            None
        } else {
            Some(Fault::WrongType)
        },
    }
}

/// Where a member first stands among the members of an object, or their number.
pub open spec fn index_of_field(members: Seq<(String, JsonValue)>, field: EventField) -> int
    decreases members.len(),
{
    if members.len() == 0 || field_named(members[0].0@) == Some(field) {
        0
    } else {
        1 + index_of_field(members.drop_first(), field)
    }
}

/// The value of a member.
pub open spec fn member_value(
    members: Seq<(String, JsonValue)>,
    field: EventField,
) -> Option<JsonValue> {
    let index = index_of_field(members, field);
    if index < members.len() {
        Some(members[index].1)
    } else {
        None
    }
}

/// What is wrong with the member at a position: that it stands there before, or
/// its value. Members that an event does not have are passed over.
pub open spec fn problem_at(members: Seq<(String, JsonValue)>, index: int) -> Option<SchemaError> {
    match field_named(members[index].0@) {
        Some(field) => if index_of_field(members, field) < index {
            Some(SchemaError::Duplicate(field))
        } else {
            match fault_of(field, members[index].1) {
                Some(fault) => Some(SchemaError::Invalid(field, fault)),
                None => None,
            }
        },
        None => None,
    }
}

/// What is wrong with the first faulty member from a position on.
pub open spec fn first_problem(members: Seq<(String, JsonValue)>, from: int) -> Option<SchemaError>
    decreases members.len() - from,
{
    if from >= members.len() {
        None
    } else {
        match problem_at(members, from) {
            Some(error) => Some(error),
            None => first_problem(members, from + 1),
        }
    }
}

/// The members that every event has, in the order in which they are missed.
pub open spec fn required_fields() -> Seq<EventField> {
    seq![
        EventField::SchemaVersion,
        EventField::Timestamp,
        EventField::Level,
        EventField::Source,
        EventField::Subsystem,
        EventField::Event,
        EventField::Message,
        EventField::AppSessionId,
    ]
}

/// The first of some members that is absent.
pub open spec fn first_missing(
    members: Seq<(String, JsonValue)>,
    fields: Seq<EventField>,
) -> Option<SchemaError>
    decreases fields.len(),
{
    if fields.len() == 0 {
        None
    } else if member_value(members, fields[0]) is None {
        Some(SchemaError::Missing(fields[0]))
    } else {
        first_missing(members, fields.drop_first())
    }
}

/// Why the members of an object give no event, if they give none.
pub open spec fn decoding_error(members: Seq<(String, JsonValue)>) -> Option<SchemaError> {
    match first_problem(members, 0) {
        Some(error) => Some(error),
        None => first_missing(members, required_fields()),
    }
}

/// The text of an optional text member.
pub open spec fn optional_text(value: Option<JsonValue>) -> Option<Seq<char>> {
    match value {
        Some(JsonValue::String(text)) => Some(text@),
        _ => None,
    }
}

/// The text of an optional identifier.
pub open spec fn optional_identifier(value: Option<JsonValue>) -> Option<Seq<char>> {
    match value {
        Some(value) => identifier_of(value),
        None => None,
    }
}

/// Whether an event is the one that the members of an object give. Inside its status and
/// its fields the members of objects stand in the order of their names, of members with
/// one name the last.
pub open spec fn describes(members: Seq<(String, JsonValue)>, event: LogEvent) -> bool {
    &&& event.schema_version == SCHEMA_VERSION
    &&& timestamp_reading(member_value(members, EventField::Timestamp)->0) == Ok::<
        (int, int),
        Fault,
    >((event.timestamp.seconds(), event.timestamp.nanos()))
    &&& level_name(member_value(members, EventField::Level)->0) == Some(level_text(event.level))
    &&& optional_text(member_value(members, EventField::Source)) == Some(event.source@)
    &&& optional_text(member_value(members, EventField::Subsystem)) == Some(event.subsystem@)
    &&& optional_text(member_value(members, EventField::Target)) == option_view(event.target)
    &&& optional_text(member_value(members, EventField::Event)) == Some(event.event@)
    &&& optional_text(member_value(members, EventField::Message)) == Some(event.message@)
    &&& optional_identifier(member_value(members, EventField::AppSessionId)) == Some(
        event.app_session_id@,
    )
    &&& optional_identifier(member_value(members, EventField::PlaybackSessionId)) == option_view(
        event.playback_session_id,
    )
    &&& optional_identifier(member_value(members, EventField::RequestId)) == option_view(
        event.request_id,
    )
    &&& optional_identifier(member_value(members, EventField::SessionId)) == option_view(
        event.session_id,
    )
    &&& optional_text(member_value(members, EventField::Provider)) == option_view(event.provider)
    &&& match member_value(members, EventField::DurationMs) {
        Some(JsonValue::Number(number)) => event.duration_ms is Some && number_gives(
            number,
            event.duration_ms->0,
        ),
        _ => event.duration_ms is None,
    }
    &&& optional_text(member_value(members, EventField::ErrorKind)) == option_view(
        event.error_kind,
    )
    &&& match member_value(members, EventField::Status) {
        Some(JsonValue::Null) | None => event.status is None,
        Some(value) => event.status is Some && arranges(value, event.status->0),
    }
    &&& match member_value(members, EventField::Fields) {
        Some(JsonValue::Object(fields)) => gathers(fields@, event.fields@),
        _ => event.fields@ == Map::<Seq<char>, JsonValue>::empty(),
    }
}

/// The integer that a JSON number is.
fn integer_of_number(number: &JsonNumber) -> (result: Option<i128>)
    ensures
        match result {
            Some(value) => number_integer(*number) == Some(value as int),
            None => number_integer(*number) is None,
        },
{
    match number {
        JsonNumber::Natural(value) => Some(*value as i128),
        JsonNumber::Integer(value) => Some(*value as i128),
        JsonNumber::Real { .. } => None,
    }
}

/// The instant that a timestamp member gives.
fn read_timestamp(value: &JsonValue) -> (result: Result<Timestamp, Fault>)
    ensures
        match result {
            Ok(instant) => timestamp_reading(*value) == Ok::<(int, int), Fault>(
                (instant.seconds(), instant.nanos()),
            ),
            Err(fault) => timestamp_reading(*value) == Err::<(int, int), Fault>(fault),
        },
{
    match value {
        JsonValue::Number(number) => match integer_of_number(number) {
            Some(milliseconds) => {
                if milliseconds < i64::MIN as i128 || milliseconds > i64::MAX as i128 {
                    return Err(Fault::NotATimestamp);
                }
                match Timestamp::from_millis(milliseconds as i64) {
                    Some(instant) => Ok(instant),
                    None => Err(Fault::TimestampOutOfRange),
                }
            },
            None => Err(Fault::NotATimestamp),
        },
        JsonValue::String(text) => match Timestamp::from_rfc3339(text.as_str()) {
            Some(instant) => Ok(instant),
            None => Err(Fault::NotRfc3339),
        },
        _ => Err(Fault::NotATimestamp),
    }
}

/// The text of an identifier, which may be written as a number.
pub fn stringish(value: &JsonValue) -> (result: Option<String>)
    ensures
        option_view(result) == identifier_of(*value),
{
    match value {
        JsonValue::String(text) => Some(text.clone()),
        JsonValue::Number(number) => Some(number.to_text()),
        _ => None,
    }
}

/// Whether a JSON number is finite and not negative.
fn holds_duration(number: &JsonNumber) -> (result: bool)
    ensures
        result == is_duration(*number),
{
    match number {
        JsonNumber::Natural(_) => true,
        JsonNumber::Integer(value) => *value >= 0,
        JsonNumber::Real { number, .. } => {
            let zero = Double { bits: 0 };
            proof {
                assert(magnitude(0) == 0) by {
                    assert(0nat / 0x10_0000_0000_0000 == 0 && 0nat % 0x10_0000_0000_0000 == 0);
                }
            }
            number.is_finite() && !number.is_less(zero)
        },
    }
}

/// The double that a JSON number gives.
pub fn double_of(number: &JsonNumber) -> (result: Double)
    ensures
        number_gives(*number, result),
        result == (match *number {
            JsonNumber::Natural(value) => integer_double(value as int),
            JsonNumber::Integer(value) => integer_double(value as int),
            JsonNumber::Real { number, .. } => number,
        }),
{
    match number {
        JsonNumber::Natural(value) => Double::from_u64(*value),
        JsonNumber::Integer(value) => Double::from_i64(*value),
        JsonNumber::Real { number, .. } => *number,
    }
}

/// The name of a level.
fn named_level(value: &JsonValue) -> (name: Option<String>)
    ensures
        option_view(name) == level_name(*value),
{
    match value {
        JsonValue::String(text) => Some(text.clone()),
        JsonValue::Object(members) => {
            if members.len() == 1 {
                if let JsonValue::Null = members[0].1 {
                    return Some(members[0].0.clone());
                }
            }
            None
        },
        _ => None,
    }
}

/// What is wrong with the value of a member, if anything is.
pub fn check_value(field: EventField, value: &JsonValue) -> (result: Option<Fault>)
    ensures
        result == fault_of(field, *value),
{
    match field {
        EventField::SchemaVersion => match value {
            JsonValue::Number(number) => match integer_of_number(number) {
                Some(version) => if version == SCHEMA_VERSION as i128 {
                    None
                } else if 0 <= version && version <= u16::MAX as i128 {
                    Some(Fault::UnsupportedVersion(version as u16))
                } else {
                    Some(Fault::WrongType)
                },
                None => Some(Fault::WrongType),
            },
            _ => Some(Fault::WrongType),
        },
        EventField::Timestamp => match read_timestamp(value) {
            Ok(_) => None,
            Err(fault) => Some(fault),
        },
        EventField::Level => match named_level(value) {
            Some(name) => match Level::from_name(name.as_str()) {
                Some(level) => {
                    assert(name@ == level_text(level));
                    None
                },
                None => Some(Fault::UnknownLevel),
            },
            None => Some(Fault::WrongType),
        },
        EventField::Source | EventField::Subsystem | EventField::Event => match value {
            JsonValue::String(text) => if text.as_str().is_empty() {
                Some(Fault::EmptyText)
            } else {
                None
            },
            _ => Some(Fault::WrongType),
        },
        EventField::Message => match value {
            JsonValue::String(_) => None,
            _ => Some(Fault::WrongType),
        },
        EventField::AppSessionId => match stringish(value) {
            Some(text) => if text.as_str().is_empty() {
                Some(Fault::NotAnIdentifier)
            } else {
                None
            },
            None => Some(Fault::NotAnIdentifier),
        },
        EventField::PlaybackSessionId | EventField::RequestId | EventField::SessionId => {
            match value {
                JsonValue::Null | JsonValue::String(_) | JsonValue::Number(_) => None,
                _ => Some(Fault::NotAnOptionalIdentifier),
            }
        },
        EventField::Target | EventField::Provider | EventField::ErrorKind => match value {
            JsonValue::Null | JsonValue::String(_) => None,
            _ => Some(Fault::WrongType),
        },
        EventField::DurationMs => match value {
            JsonValue::Null => None,
            JsonValue::Number(number) => if holds_duration(number) {
                None
            } else {
                Some(Fault::NotADuration)
            },
            _ => Some(Fault::WrongType),
        },
        EventField::Status => None,
        EventField::Fields => match value {
            JsonValue::Object(_) => None,
            _ => Some(Fault::WrongType),
        },
    }
}

/// The members that are known, each at its position.
pub open spec fn kinds_of(members: Seq<(String, JsonValue)>) -> Seq<Option<EventField>> {
    members.map_values(|member: (String, JsonValue)| field_named(member.0@))
}

/// Where a member first stands.
fn find_field(kinds: &Vec<Option<EventField>>, field: EventField, Ghost(members): Ghost<
    Seq<(String, JsonValue)>,
>) -> (index: usize)
    requires
        kinds@ == kinds_of(members),
    ensures
        index == index_of_field(members, field),
        index <= members.len(),
{
    let mut index: usize = 0;
    assert(members.skip(0) == members);
    while index < kinds.len()
        invariant
            index <= kinds.len(),
            kinds@ == kinds_of(members),
            index_of_field(members, field) == index + index_of_field(
                members.skip(index as int),
                field,
            ),
        decreases kinds.len() - index,
    {
        assert(members.skip(index as int)[0] == members[index as int]);
        if let Some(kind) = kinds[index] {
            if kind == field {
                return index;
            }
        }
        assert(members.skip(index as int).drop_first() == members.skip(index + 1));
        index += 1;
    }
    index
}

/// Takes the value at a position, where there is one, out of the members.
fn take_member(members: &mut Vec<(String, JsonValue)>, index: usize) -> (value: Option<JsonValue>)
    ensures
        final(members)@.len() == old(members)@.len(),
        forall|i: int|
            0 <= i < old(members)@.len() && i != index ==> #[trigger] final(members)@[i] == old(
                members,
            )@[i],
        match value {
            Some(value) => index < old(members)@.len() && value == old(members)@[index as int].1,
            None => index >= old(members)@.len(),
        },
{
    if index < members.len() {
        let mut value = JsonValue::Null;
        std::mem::swap(&mut members[index].1, &mut value);
        Some(value)
    } else {
        None
    }
}

/// Where no member is faulty, each of them is sound.
proof fn lemma_no_problem(members: Seq<(String, JsonValue)>, from: int, index: int)
    requires
        0 <= from <= index < members.len(),
        first_problem(members, from) is None,
    ensures
        problem_at(members, index) is None,
    decreases members.len() - from,
{
    if from < index {
        lemma_no_problem(members, from + 1, index);
    }
}

/// What stands at the first position of a member.
proof fn lemma_index_of_field(members: Seq<(String, JsonValue)>, field: EventField)
    ensures
        0 <= index_of_field(members, field) <= members.len(),
        index_of_field(members, field) < members.len() ==> field_named(
            members[index_of_field(members, field)].0@,
        ) == Some(field),
    decreases members.len(),
{
    if members.len() > 0 && field_named(members[0].0@) != Some(field) {
        lemma_index_of_field(members.drop_first(), field);
        let index = index_of_field(members.drop_first(), field);
        if index < members.drop_first().len() {
            assert(members.drop_first()[index] == members[index + 1]);
        }
    }
}

/// The value of a member that is there is sound where no member is faulty.
proof fn lemma_value_is_sound(members: Seq<(String, JsonValue)>, field: EventField)
    requires
        first_problem(members, 0) is None,
        member_value(members, field) is Some,
    ensures
        fault_of(field, member_value(members, field)->0) is None,
{
    lemma_index_of_field(members, field);
    lemma_no_problem(members, 0, index_of_field(members, field));
}

/// The text of an optional text member at a position.
fn text_at(members: &Vec<(String, JsonValue)>, index: usize) -> (result: Option<String>)
    ensures
        option_view(result) == optional_text(
            if index < members@.len() {
                Some(members@[index as int].1)
            } else {
                None
            },
        ),
{
    if index < members.len() {
        match &members[index].1 {
            JsonValue::String(text) => Some(text.clone()),
            _ => None,
        }
    } else {
        None
    }
}

/// The text of an optional identifier at a position.
fn identifier_at(members: &Vec<(String, JsonValue)>, index: usize) -> (result: Option<String>)
    ensures
        option_view(result) == optional_identifier(
            if index < members@.len() {
                Some(members@[index as int].1)
            } else {
                None
            },
        ),
{
    if index < members.len() {
        stringish(&members[index].1)
    } else {
        None
    }
}

/// What is wrong with the first faulty member.
fn find_problem(members: &Vec<(String, JsonValue)>, kinds: &Vec<Option<EventField>>) -> (result:
    Option<SchemaError>)
    requires
        kinds@ == kinds_of(members@),
    ensures
        result == first_problem(members@, 0),
{
    let mut index: usize = 0;
    while index < members.len()
        invariant
            index <= members.len(),
            kinds@ == kinds_of(members@),
            first_problem(members@, index as int) == first_problem(members@, 0),
        decreases members.len() - index,
    {
        if let Some(field) = kinds[index] {
            if find_field(kinds, field, Ghost(members@)) < index {
                return Some(SchemaError::Duplicate(field));
            }
            if let Some(fault) = check_value(field, &members[index].1) {
                return Some(SchemaError::Invalid(field, fault));
            }
        }
        index += 1;
    }
    None
}

/// The first of the members that every event has that is absent.
fn find_missing(kinds: &Vec<Option<EventField>>, Ghost(members): Ghost<
    Seq<(String, JsonValue)>,
>) -> (result: Option<SchemaError>)
    requires
        kinds@ == kinds_of(members),
    ensures
        result == first_missing(members, required_fields()),
{
    let required: [EventField; 8] = [
        EventField::SchemaVersion,
        EventField::Timestamp,
        EventField::Level,
        EventField::Source,
        EventField::Subsystem,
        EventField::Event,
        EventField::Message,
        EventField::AppSessionId,
    ];
    assert(required@ == required_fields());
    assert(required@.skip(0) == required@);
    let mut index: usize = 0;
    while index < 8
        invariant
            index <= 8,
            required@ == required_fields(),
            kinds@ == kinds_of(members),
            first_missing(members, required@.skip(index as int)) == first_missing(
                members,
                required_fields(),
            ),
        decreases 8 - index,
    {
        let field = required[index];
        assert(required@.skip(index as int)[0] == field);
        assert(required@.skip(index as int).drop_first() == required@.skip(index + 1));
        if find_field(kinds, field, Ghost(members)) == kinds.len() {
            return Some(SchemaError::Missing(field));
        }
        index += 1;
    }
    None
}

/// Which member stands where.
fn classify(members: &Vec<(String, JsonValue)>) -> (kinds: Vec<Option<EventField>>)
    ensures
        kinds@ == kinds_of(members@),
{
    let mut kinds: Vec<Option<EventField>> = Vec::new();
    let mut index: usize = 0;
    while index < members.len()
        invariant
            index <= members.len(),
            kinds@ == kinds_of(members@).take(index as int),
        decreases members.len() - index,
    {
        kinds.push(EventField::from_name(members[index].0.as_str()));
        index += 1;
    }
    assert(kinds_of(members@).take(index as int) == kinds_of(members@));
    kinds
}

impl LogEvent {
    /// The event that the members of a JSON object give.
    #[verifier::rlimit(40)]
    pub fn from_members(members: Vec<(String, JsonValue)>) -> (result: Result<Self, SchemaError>)
        ensures
            match result {
                Ok(event) => decoding_error(members@) is None && describes(members@, event),
                Err(error) => decoding_error(members@) == Some(error),
            },
    {
        let mut members = members;
        let ghost given = members@;
        let kinds = classify(&members);
        if let Some(error) = find_problem(&members, &kinds) {
            return Err(error);
        }
        if let Some(error) = find_missing(&kinds, Ghost(given)) {
            return Err(error);
        }
        proof {
            lemma_required_present(given);
            assert forall|field: EventField|
                member_value(given, field) is Some implies #[trigger] fault_of(
                field,
                member_value(given, field)->0,
            ) is None by {
                lemma_value_is_sound(given, field);
            }
        }
        let timestamp_index = find_field(&kinds, EventField::Timestamp, Ghost(given));
        let level_index = find_field(&kinds, EventField::Level, Ghost(given));
        let duration_index = find_field(&kinds, EventField::DurationMs, Ghost(given));
        assert(fault_of(
            EventField::SchemaVersion,
            member_value(given, EventField::SchemaVersion)->0,
        ) is None);
        assert(fault_of(EventField::Timestamp, member_value(given, EventField::Timestamp)->0)
            is None);
        assert(fault_of(EventField::Level, member_value(given, EventField::Level)->0) is None);
        let timestamp = match read_timestamp(&members[timestamp_index].1) {
            Ok(timestamp) => timestamp,
            Err(fault) => return Err(SchemaError::Invalid(EventField::Timestamp, fault)),
        };
        let name = match named_level(&members[level_index].1) {
            Some(name) => name,
            None => return Err(SchemaError::Missing(EventField::Level)),
        };
        let level = match Level::from_name(name.as_str()) {
            Some(level) => level,
            None => return Err(SchemaError::Invalid(EventField::Level, Fault::UnknownLevel)),
        };
        let source = match text_at(
            &members,
            find_field(&kinds, EventField::Source, Ghost(given)),
        ) {
            Some(text) => text,
            None => {
                assert(fault_of(EventField::Source, member_value(given, EventField::Source)->0)
                    is None);
                return Err(SchemaError::Missing(EventField::Source));
            },
        };
        let subsystem = match text_at(
            &members,
            find_field(&kinds, EventField::Subsystem, Ghost(given)),
        ) {
            Some(text) => text,
            None => {
                assert(fault_of(
                    EventField::Subsystem,
                    member_value(given, EventField::Subsystem)->0,
                ) is None);
                return Err(SchemaError::Missing(EventField::Subsystem));
            },
        };
        let event = match text_at(
            &members,
            find_field(&kinds, EventField::Event, Ghost(given)),
        ) {
            Some(text) => text,
            None => {
                assert(fault_of(EventField::Event, member_value(given, EventField::Event)->0)
                    is None);
                return Err(SchemaError::Missing(EventField::Event));
            },
        };
        let message = match text_at(
            &members,
            find_field(&kinds, EventField::Message, Ghost(given)),
        ) {
            Some(text) => text,
            None => {
                assert(fault_of(EventField::Message, member_value(given, EventField::Message)->0)
                    is None);
                return Err(SchemaError::Missing(EventField::Message));
            },
        };
        let app_session_id = match identifier_at(
            &members,
            find_field(&kinds, EventField::AppSessionId, Ghost(given)),
        ) {
            Some(text) => text,
            None => {
                assert(fault_of(
                    EventField::AppSessionId,
                    member_value(given, EventField::AppSessionId)->0,
                ) is None);
                return Err(SchemaError::Missing(EventField::AppSessionId));
            },
        };
        let target = text_at(&members, find_field(&kinds, EventField::Target, Ghost(given)));
        let provider = text_at(&members, find_field(&kinds, EventField::Provider, Ghost(given)));
        let error_kind = text_at(&members, find_field(&kinds, EventField::ErrorKind, Ghost(given)));
        let playback_session_id = identifier_at(
            &members,
            find_field(&kinds, EventField::PlaybackSessionId, Ghost(given)),
        );
        let request_id = identifier_at(
            &members,
            find_field(&kinds, EventField::RequestId, Ghost(given)),
        );
        let session_id = identifier_at(
            &members,
            find_field(&kinds, EventField::SessionId, Ghost(given)),
        );
        let duration_ms = if duration_index < members.len() {
            match &members[duration_index].1 {
                JsonValue::Number(number) => Some(double_of(number)),
                _ => None,
            }
        } else {
            None
        };
        let status_index = find_field(&kinds, EventField::Status, Ghost(given));
        let fields_index = find_field(&kinds, EventField::Fields, Ghost(given));
        proof {
            lemma_index_of_field(given, EventField::Status);
            lemma_index_of_field(given, EventField::Fields);
        }
        let status = match take_member(&mut members, status_index) {
            Some(JsonValue::Null) => None,
            Some(value) => Some(arranged(&value)),
            None => None,
        };
        let fields = match take_member(&mut members, fields_index) {
            Some(JsonValue::Object(entries)) => gathered(&entries),
            _ => TextMap::new(),
        };
        Ok(
            LogEvent {
                schema_version: SCHEMA_VERSION,
                timestamp,
                level,
                source,
                subsystem,
                target,
                event,
                message,
                app_session_id,
                playback_session_id,
                request_id,
                session_id,
                provider,
                duration_ms,
                error_kind,
                status,
                fields,
            },
        )
    }
}

/// The number of members that an event has.
pub const FIELD_COUNT: usize = 17;

/// The members of an event, in the order in which they are written.
pub open spec fn all_fields() -> Seq<EventField> {
    seq![
        EventField::SchemaVersion,
        EventField::Timestamp,
        EventField::Level,
        EventField::Source,
        EventField::Subsystem,
        EventField::Target,
        EventField::Event,
        EventField::Message,
        EventField::AppSessionId,
        EventField::PlaybackSessionId,
        EventField::RequestId,
        EventField::SessionId,
        EventField::Provider,
        EventField::DurationMs,
        EventField::ErrorKind,
        EventField::Status,
        EventField::Fields,
    ]
}

/// Whether items stand for members: one after the other, in the order in which the members
/// of an event are written.
pub open spec fn lists_members(items: Seq<JsonValue>, members: Seq<(String, JsonValue)>) -> bool {
    &&& items.len() <= all_fields().len()
    &&& members.len() == items.len()
    &&& forall|i: int|
        0 <= i < items.len() ==> (#[trigger] members[i]).0@ == field_name(all_fields()[i])
            && members[i].1 == items[i]
}

impl EventField {
    /// The member at a place, in the order in which the members are written.
    pub fn at(place: usize) -> (field: Option<Self>)
        ensures
            match field {
                Some(field) => place < all_fields().len() && field == all_fields()[place as int],
                None => place >= all_fields().len(),
            },
    {
        let fields: [EventField; 17] = [
            EventField::SchemaVersion,
            EventField::Timestamp,
            EventField::Level,
            EventField::Source,
            EventField::Subsystem,
            EventField::Target,
            EventField::Event,
            EventField::Message,
            EventField::AppSessionId,
            EventField::PlaybackSessionId,
            EventField::RequestId,
            EventField::SessionId,
            EventField::Provider,
            EventField::DurationMs,
            EventField::ErrorKind,
            EventField::Status,
            EventField::Fields,
        ];
        assert(fields@ == all_fields());
        if place < FIELD_COUNT {
            Some(fields[place])
        } else {
            None
        }
    }
}

/// The error that a name gives behind some members: that the member stands there before.
pub fn repeated_member(members: &Vec<(String, JsonValue)>, name: &str) -> (result: Option<
    SchemaError,
>)
    ensures
        result == match field_named(name@) {
            Some(field) => if member_value(members@, field) is Some {
                Some(SchemaError::Duplicate(field))
            } else {
                None
            },
            None => None,
        },
{
    if let Some(field) = EventField::from_name(name) {
        let kinds = classify(members);
        if find_field(&kinds, field, Ghost(members@)) < members.len() {
            return Some(SchemaError::Duplicate(field));
        }
    }
    None
}

impl LogEvent {
    /// The event that the items of a JSON array give: the values of its members, in the
    /// order in which they are written. Those at the end may be left out where an event need
    /// not have them.
    pub fn from_items(items: Vec<JsonValue>) -> (result: Result<Self, SchemaError>)
        ensures
            match result {
                Ok(event) => exists|members: Seq<(String, JsonValue)>| #[trigger]
                    lists_members(items@, members) && decoding_error(members) is None && describes(
                        members,
                        event,
                    ),
                Err(error) => if items@.len() > all_fields().len() {
                    error == SchemaError::TooManyItems
                } else {
                    exists|members: Seq<(String, JsonValue)>| #[trigger]
                        lists_members(items@, members) && decoding_error(members) == Some(error)
                },
            },
    {
        if items.len() > FIELD_COUNT {
            return Err(SchemaError::TooManyItems);
        }
        let mut items = items;
        let ghost given = items@;
        let mut members: Vec<(String, JsonValue)> = Vec::new();
        let mut index: usize = 0;
        while index < items.len()
            invariant
                index <= items.len() <= FIELD_COUNT,
                items@.len() == given.len(),
                forall|i: int| index <= i < given.len() ==> #[trigger] items@[i] == given[i],
                members@.len() == index,
                forall|i: int|
                    0 <= i < index ==> (#[trigger] members@[i]).0@ == field_name(all_fields()[i])
                        && members@[i].1 == given[i],
            decreases items.len() - index,
        {
            if let Some(field) = EventField::at(index) {
                let mut value = JsonValue::Null;
                std::mem::swap(&mut items[index], &mut value);
                members.push((owned(field.name()), value));
            }
            index += 1;
        }
        assert(lists_members(given, members@));
        LogEvent::from_members(members)
    }
}

/// Where no required member is missing, each of them is there.
proof fn lemma_required_present(members: Seq<(String, JsonValue)>)
    requires
        first_missing(members, required_fields()) is None,
    ensures
        member_value(members, EventField::SchemaVersion) is Some,
        member_value(members, EventField::Timestamp) is Some,
        member_value(members, EventField::Level) is Some,
        member_value(members, EventField::Source) is Some,
        member_value(members, EventField::Subsystem) is Some,
        member_value(members, EventField::Event) is Some,
        member_value(members, EventField::Message) is Some,
        member_value(members, EventField::AppSessionId) is Some,
{
    assert forall|index: int|
        0 <= index < required_fields().len() implies #[trigger] member_value(
        members,
        required_fields()[index],
    ) is Some by {
        lemma_missing_none(members, required_fields(), index);
    }
    assert(required_fields()[0] == EventField::SchemaVersion);
    assert(required_fields()[1] == EventField::Timestamp);
    assert(required_fields()[2] == EventField::Level);
    assert(required_fields()[3] == EventField::Source);
    assert(required_fields()[4] == EventField::Subsystem);
    assert(required_fields()[5] == EventField::Event);
    assert(required_fields()[6] == EventField::Message);
    assert(required_fields()[7] == EventField::AppSessionId);
}

proof fn lemma_missing_none(
    members: Seq<(String, JsonValue)>,
    fields: Seq<EventField>,
    index: int,
)
    requires
        first_missing(members, fields) is None,
        0 <= index < fields.len(),
    ensures
        member_value(members, fields[index]) is Some,
    decreases fields.len(),
{
    if index > 0 {
        lemma_missing_none(members, fields.drop_first(), index - 1);
        assert(fields.drop_first()[index - 1] == fields[index]);
    }
}

/// What is written of a member.
pub enum Written {
    Integer(int),
    Text(Seq<char>),
    Duration(Double, Seq<char>),
    Value(JsonValue),
    Fields(Seq<Seq<char>>, Map<Seq<char>, JsonValue>),
}

/// Whether a JSON value is what is to be written.
pub open spec fn writes(value: JsonValue, written: Written) -> bool {
    match written {
        Written::Integer(number) => match value {
            JsonValue::Number(held) => number_integer(held) == Some(number),
            _ => false,
        },
        Written::Text(text) => match value {
            JsonValue::String(held) => held@ == text,
            _ => false,
        },
        Written::Duration(number, text) => match value {
            JsonValue::Number(JsonNumber::Real { number: held, text: held_text }) => held == number
                && held_text@ == text,
            _ => false,
        },
        Written::Value(expected) => value == expected,
        Written::Fields(names, map) => match value {
            JsonValue::Object(members) => {
                &&& members@.len() == names.len()
                &&& forall|i: int|
                    0 <= i < names.len() ==> (#[trigger] members@[i]).0@ == names[i]
                        && map.contains_key(names[i]) && members@[i].1 == map[names[i]]
            },
            _ => false,
        },
    }
}

/// An optional text to be written.
pub open spec fn optional_written(text: Option<String>) -> Option<Written> {
    match text {
        Some(text) => Some(Written::Text(text@)),
        None => None,
    }
}

/// What is written of each member of an event, in the order of the members;
/// nothing of those that are absent.
pub open spec fn written_members(event: LogEvent, duration_text: Seq<char>) -> Seq<
    (EventField, Option<Written>),
> {
    seq![
        (EventField::SchemaVersion, Some(Written::Integer(event.schema_version as int))),
        (EventField::Timestamp, Some(Written::Integer(event.timestamp.millis()))),
        (EventField::Level, Some(Written::Text(level_text(event.level)))),
        (EventField::Source, Some(Written::Text(event.source@))),
        (EventField::Subsystem, Some(Written::Text(event.subsystem@))),
        (EventField::Target, optional_written(event.target)),
        (EventField::Event, Some(Written::Text(event.event@))),
        (EventField::Message, Some(Written::Text(event.message@))),
        (EventField::AppSessionId, Some(Written::Text(event.app_session_id@))),
        (EventField::PlaybackSessionId, optional_written(event.playback_session_id)),
        (EventField::RequestId, optional_written(event.request_id)),
        (EventField::SessionId, optional_written(event.session_id)),
        (EventField::Provider, optional_written(event.provider)),
        (EventField::DurationMs, match event.duration_ms {
            Some(duration) => Some(Written::Duration(duration, duration_text)),
            None => None,
        }),
        (EventField::ErrorKind, optional_written(event.error_kind)),
        (EventField::Status, match event.status {
            Some(value) => Some(Written::Value(value)),
            None => None,
        }),
        (EventField::Fields, if event.fields@ == Map::<Seq<char>, JsonValue>::empty() {
            None
        } else {
            Some(Written::Fields(event.fields.ordered(), event.fields@))
        }),
    ]
}

/// Whether members are those to be written, in their order.
pub open spec fn encodes(
    members: Seq<(String, JsonValue)>,
    written: Seq<(EventField, Option<Written>)>,
) -> bool
    decreases written.len(),
{
    if written.len() == 0 {
        members.len() == 0
    } else {
        match written.last().1 {
            Some(expected) => {
                &&& members.len() > 0
                &&& members.last().0@ == field_name(written.last().0)
                &&& writes(members.last().1, expected)
                &&& encodes(members.drop_last(), written.drop_last())
            },
            None => encodes(members, written.drop_last()),
        }
    }
}

/// Adds a member to those already written.
fn write_member(
    members: &mut Vec<(String, JsonValue)>,
    field: EventField,
    value: Option<JsonValue>,
    Ghost(written): Ghost<Seq<(EventField, Option<Written>)>>,
    Ghost(index): Ghost<int>,
)
    requires
        0 <= index < written.len(),
        encodes(old(members)@, written.take(index)),
        written[index].0 == field,
        match written[index].1 {
            Some(expected) => value is Some && writes(value->0, expected),
            None => value is None,
        },
    ensures
        encodes(final(members)@, written.take(index + 1)),
{
    proof {
        assert(written.take(index + 1).drop_last() == written.take(index));
    }
    if let Some(value) = value {
        let ghost before = members@;
        members.push((owned(field.name()), value));
        assert(members@.drop_last() == before);
    }
}

/// A JSON value that holds an optional text.
fn text_value(text: Option<String>) -> (value: Option<JsonValue>)
    ensures
        match optional_written(text) {
            Some(expected) => value is Some && writes(value->0, expected),
            None => value is None,
        },
{
    match text {
        Some(text) => Some(JsonValue::String(text)),
        None => None,
    }
}

impl LogEvent {
    /// The members of the JSON object that stands for the event. The text of the
    /// duration is written where the event has one.
    #[verifier::rlimit(40)]
    pub fn into_members(self, duration_text: String) -> (members: Vec<(String, JsonValue)>)
        ensures
            encodes(members@, written_members(self, duration_text@)),
    {
        let ghost written = written_members(self, duration_text@);
        let mut members: Vec<(String, JsonValue)> = Vec::new();
        let milliseconds = self.timestamp.timestamp_millis();
        let stamp = if milliseconds >= 0 {
            JsonNumber::Natural(milliseconds as u64)
        } else {
            JsonNumber::Integer(milliseconds)
        };
        let version = JsonNumber::Natural(self.schema_version as u64);
        write_member(
            &mut members,
            EventField::SchemaVersion,
            Some(JsonValue::Number(version)),
            Ghost(written),
            Ghost(0),
        );
        write_member(
            &mut members,
            EventField::Timestamp,
            Some(JsonValue::Number(stamp)),
            Ghost(written),
            Ghost(1),
        );
        write_member(
            &mut members,
            EventField::Level,
            Some(JsonValue::String(self.level.to_string())),
            Ghost(written),
            Ghost(2),
        );
        write_member(
            &mut members,
            EventField::Source,
            Some(JsonValue::String(self.source)),
            Ghost(written),
            Ghost(3),
        );
        write_member(
            &mut members,
            EventField::Subsystem,
            Some(JsonValue::String(self.subsystem)),
            Ghost(written),
            Ghost(4),
        );
        write_member(
            &mut members,
            EventField::Target,
            text_value(self.target),
            Ghost(written),
            Ghost(5),
        );
        write_member(
            &mut members,
            EventField::Event,
            Some(JsonValue::String(self.event)),
            Ghost(written),
            Ghost(6),
        );
        write_member(
            &mut members,
            EventField::Message,
            Some(JsonValue::String(self.message)),
            Ghost(written),
            Ghost(7),
        );
        write_member(
            &mut members,
            EventField::AppSessionId,
            Some(JsonValue::String(self.app_session_id)),
            Ghost(written),
            Ghost(8),
        );
        write_member(
            &mut members,
            EventField::PlaybackSessionId,
            text_value(self.playback_session_id),
            Ghost(written),
            Ghost(9),
        );
        write_member(
            &mut members,
            EventField::RequestId,
            text_value(self.request_id),
            Ghost(written),
            Ghost(10),
        );
        write_member(
            &mut members,
            EventField::SessionId,
            text_value(self.session_id),
            Ghost(written),
            Ghost(11),
        );
        write_member(
            &mut members,
            EventField::Provider,
            text_value(self.provider),
            Ghost(written),
            Ghost(12),
        );
        let duration = match self.duration_ms {
            Some(number) => Some(
                JsonValue::Number(JsonNumber::Real { number, text: duration_text }),
            ),
            None => None,
        };
        write_member(
            &mut members,
            EventField::DurationMs,
            duration,
            Ghost(written),
            Ghost(13),
        );
        write_member(
            &mut members,
            EventField::ErrorKind,
            text_value(self.error_kind),
            Ghost(written),
            Ghost(14),
        );
        write_member(&mut members, EventField::Status, self.status, Ghost(written), Ghost(15));
        let fields = if self.fields.is_empty() {
            None
        } else {
            Some(JsonValue::Object(self.fields.into_entries()))
        };
        write_member(&mut members, EventField::Fields, fields, Ghost(written), Ghost(16));
        assert(written.take(17) == written);
        members
    }
}

/// Whether an event can be written so that it can be read again: its version is
/// the current one, the texts that may not be empty are not, its instant is
/// exact to the millisecond, its duration is one, and the members of the objects inside
/// its status and its fields are in order.
pub open spec fn writable(event: LogEvent) -> bool {
    &&& event.schema_version == SCHEMA_VERSION
    &&& is_instant(event.timestamp.seconds(), event.timestamp.nanos())
    &&& event.timestamp.nanos() < NANOS_PER_SECOND
    &&& event.timestamp.nanos() % 1_000_000 == 0
    &&& event.source@.len() > 0
    &&& event.subsystem@.len() > 0
    &&& event.event@.len() > 0
    &&& event.app_session_id@.len() > 0
    &&& match event.duration_ms {
        Some(duration) => duration.finite() && duration.value() >= 0,
        None => true,
    }
    &&& match event.status {
        Some(status) => !(status is Null) && is_arranged(status),
        None => true,
    }
    &&& forall|name: Seq<char>| #[trigger]
        event.fields@.contains_key(name) ==> is_arranged(event.fields@[name])
    &&& event.fields.ordered().no_duplicates()
    &&& event.fields.ordered().to_set() == event.fields@.dom()
}

/// Whether two events have the same parts.
pub open spec fn same_event(left: LogEvent, right: LogEvent) -> bool {
    &&& left.schema_version == right.schema_version
    &&& left.timestamp.seconds() == right.timestamp.seconds()
    &&& left.timestamp.nanos() == right.timestamp.nanos()
    &&& left.level == right.level
    &&& left.source@ == right.source@
    &&& left.subsystem@ == right.subsystem@
    &&& option_view(left.target) == option_view(right.target)
    &&& left.event@ == right.event@
    &&& left.message@ == right.message@
    &&& left.app_session_id@ == right.app_session_id@
    &&& option_view(left.playback_session_id) == option_view(right.playback_session_id)
    &&& option_view(left.request_id) == option_view(right.request_id)
    &&& option_view(left.session_id) == option_view(right.session_id)
    &&& option_view(left.provider) == option_view(right.provider)
    &&& left.duration_ms == right.duration_ms
    &&& option_view(left.error_kind) == option_view(right.error_kind)
    &&& match (left.status, right.status) {
        (Some(left), Some(right)) => same_value(left, right),
        (None, None) => true,
        _ => false,
    }
    &&& left.fields@.dom() == right.fields@.dom()
    &&& forall|name: Seq<char>| #[trigger]
        left.fields@.contains_key(name) ==> same_value(left.fields@[name], right.fields@[name])
}

/// The members of a list name different members of an event.
pub open spec fn distinct_fields(written: Seq<(EventField, Option<Written>)>) -> bool {
    forall|i: int, j: int| 0 <= i < j < written.len() ==> written[i].0 != written[j].0
}

/// Where the last of some members names a member for the first time, its index
/// is the last one; the other members keep theirs.
proof fn lemma_index_last(members: Seq<(String, JsonValue)>, field: EventField)
    requires
        members.len() > 0,
    ensures
        index_of_field(members.drop_last(), field) < members.len() - 1 ==> index_of_field(
            members,
            field,
        ) == index_of_field(members.drop_last(), field),
        index_of_field(members.drop_last(), field) == members.len() - 1 ==> index_of_field(
            members,
            field,
        ) == if field_named(members.last().0@) == Some(field) {
            members.len() - 1
        } else {
            members.len() as int
        },
    decreases members.len(),
{
    if members.len() > 1 && field_named(members[0].0@) != Some(field) {
        let rest = members.drop_first();
        lemma_index_last(rest, field);
        assert(members.drop_last().drop_first() == rest.drop_last());
        assert(rest.last() == members.last());
        lemma_index_of_field(rest.drop_last(), field);
    } else if members.len() == 1 {
        assert(index_of_field(members.drop_first(), field) == 0);
    }
}

/// The members that are written are found again under their names.
proof fn lemma_written_is_found(
    members: Seq<(String, JsonValue)>,
    written: Seq<(EventField, Option<Written>)>,
    field: EventField,
)
    requires
        encodes(members, written),
        distinct_fields(written),
    ensures
        forall|i: int|
            #![trigger written[i]]
            0 <= i < written.len() && written[i].0 == field ==> match written[i].1 {
                Some(expected) => member_value(members, field) is Some && writes(
                    member_value(members, field)->0,
                    expected,
                ),
                None => member_value(members, field) is None,
            },
        (forall|i: int| 0 <= i < written.len() ==> (#[trigger] written[i]).0 != field)
            ==> member_value(members, field) is None,
    decreases written.len(),
{
    lemma_index_of_field(members, field);
    if written.len() > 0 {
        let last = written.last();
        let shorter = written.drop_last();
        assert(forall|i: int| 0 <= i < shorter.len() ==> #[trigger] shorter[i] == written[i]);
        lemma_field_name_names_field(last.0);
        match last.1 {
            Some(expected) => {
                let fewer = members.drop_last();
                lemma_written_is_found(fewer, shorter, field);
                lemma_index_last(members, field);
                lemma_index_of_field(fewer, field);
                let found = index_of_field(fewer, field);
                if found < fewer.len() {
                    assert(fewer[found] == members[found]);
                }
            },
            None => {
                lemma_written_is_found(members, shorter, field);
            },
        }
        assert forall|i: int|
            #![trigger written[i]]
            0 <= i < written.len() && written[i].0 == field implies match written[i].1 {
            Some(expected) => member_value(members, field) is Some && writes(
                member_value(members, field)->0,
                expected,
            ),
            None => member_value(members, field) is None,
        } by {
            if i < shorter.len() {
                assert(shorter[i] == written[i]);
                assert(written[i].0 != last.0);
            } else {
                assert(forall|j: int| 0 <= j < shorter.len() ==> (#[trigger] shorter[j]).0 != field);
            }
        }
    }
}

/// Written members are known, stand once, and are sound where what is written
/// of each is.
proof fn lemma_written_is_sound(
    members: Seq<(String, JsonValue)>,
    written: Seq<(EventField, Option<Written>)>,
    index: int,
)
    requires
        encodes(members, written),
        distinct_fields(written),
        0 <= index < members.len(),
        forall|i: int, value: JsonValue|
            0 <= i < written.len() && (#[trigger] written[i]).1 is Some && #[trigger] writes(
                value,
                written[i].1->0,
            ) ==> fault_of(written[i].0, value) is None,
    ensures
        problem_at(members, index) is None,
    decreases written.len(),
{
    let last = written.last();
    let shorter = written.drop_last();
    assert(forall|i: int| 0 <= i < shorter.len() ==> #[trigger] shorter[i] == written[i]);
    lemma_field_name_names_field(last.0);
    match last.1 {
        Some(expected) => {
            let fewer = members.drop_last();
            if index < members.len() - 1 {
                lemma_written_is_sound(fewer, shorter, index);
                assert(fewer[index] == members[index]);
                match field_named(members[index].0@) {
                    Some(field) => {
                        lemma_index_last(members, field);
                        lemma_index_of_field(fewer, field);
                    },
                    None => {},
                }
            } else {
                lemma_written_is_found(fewer, shorter, last.0);
                lemma_index_last(members, last.0);
                lemma_index_of_field(fewer, last.0);
                assert(written[written.len() - 1].1 is Some);
                assert(writes(members.last().1, written[written.len() - 1].1->0));
            }
        },
        None => {
            lemma_written_is_sound(members, shorter, index);
        },
    }
}

proof fn lemma_problems_none(members: Seq<(String, JsonValue)>, from: int)
    requires
        0 <= from,
        forall|i: int| 0 <= i < members.len() ==> #[trigger] problem_at(members, i) is None,
    ensures
        first_problem(members, from) is None,
    decreases members.len() - from,
{
    if from < members.len() {
        assert(problem_at(members, from) is None);
        lemma_problems_none(members, from + 1);
    }
}

/// A number of milliseconds from 1970 gives back the instant it was taken from.
proof fn lemma_millis_give_instant(seconds: int, nanos: int)
    requires
        is_instant(seconds, nanos),
        nanos < NANOS_PER_SECOND,
        nanos % 1_000_000 == 0,
    ensures
        ({
            let milliseconds = seconds * 1000 + nanos / 1_000_000;
            &&& i64::MIN <= milliseconds <= i64::MAX
            &&& milliseconds / 1000 == seconds
            &&& (milliseconds % 1000) * 1_000_000 == nanos
        }),
{
}

/// What is written of a writable event is sound, whatever value it is written as.
proof fn lemma_writable_is_sound(event: LogEvent, duration_text: Seq<char>)
    requires
        writable(event),
    ensures
        forall|i: int, value: JsonValue|
            0 <= i < written_members(event, duration_text).len() && (#[trigger] written_members(
                event,
                duration_text,
            )[i]).1 is Some && #[trigger] writes(
                value,
                written_members(event, duration_text)[i].1->0,
            ) ==> fault_of(written_members(event, duration_text)[i].0, value) is None,
        distinct_fields(written_members(event, duration_text)),
{
    let written = written_members(event, duration_text);
    lemma_millis_give_instant(event.timestamp.seconds(), event.timestamp.nanos());
    assert forall|i: int, value: JsonValue|
        0 <= i < written.len() && (#[trigger] written[i]).1 is Some && #[trigger] writes(
            value,
            written[i].1->0,
        ) implies fault_of(written[i].0, value) is None by {
        if i == 2 {
            assert(value->String_0@ == level_text(event.level));
        }
    }
}

/// In an event that was read, the members of the objects inside the status and the fields
/// are in the order of their names, each name once.
pub proof fn lemma_read_values_are_in_order(members: Seq<(String, JsonValue)>, event: LogEvent)
    requires
        describes(members, event),
    ensures
        match event.status {
            Some(status) => is_arranged(status),
            None => true,
        },
        forall|name: Seq<char>| #[trigger]
            event.fields@.contains_key(name) ==> is_arranged(event.fields@[name]),
{
    if let Some(status) = event.status {
        lemma_arranged_is_in_order(member_value(members, EventField::Status)->0, status);
    }
    if let Some(JsonValue::Object(fields)) = member_value(members, EventField::Fields) {
        lemma_gathered_is_in_order(fields@, event.fields@);
    }
}

/// An event that is written and read again is the same event.
pub proof fn lemma_round_trip(
    event: LogEvent,
    duration_text: Seq<char>,
    members: Seq<(String, JsonValue)>,
    read: LogEvent,
)
    requires
        writable(event),
        encodes(members, written_members(event, duration_text)),
        describes(members, read),
    ensures
        decoding_error(members) is None,
        same_event(read, event),
{
    let written = written_members(event, duration_text);
    lemma_writable_is_sound(event, duration_text);
    assert forall|index: int| 0 <= index < members.len() implies #[trigger] problem_at(
        members,
        index,
    ) is None by {
        lemma_written_is_sound(members, written, index);
    }
    lemma_problems_none(members, 0);
    assert forall|i: int| 0 <= i < written.len() implies match (#[trigger] written[i]).1 {
        Some(expected) => member_value(members, written[i].0) is Some && writes(
            member_value(members, written[i].0)->0,
            expected,
        ),
        None => member_value(members, written[i].0) is None,
    } by {
        lemma_written_is_found(members, written, written[i].0);
    }
    lemma_millis_give_instant(event.timestamp.seconds(), event.timestamp.nanos());
    lemma_no_required_missing(members, written);
    lemma_read_parts(event, duration_text, members, read);
}

proof fn lemma_no_required_missing(
    members: Seq<(String, JsonValue)>,
    written: Seq<(EventField, Option<Written>)>,
)
    requires
        written.len() == 17,
        forall|i: int|
            0 <= i < written.len() && (#[trigger] written[i]).1 is Some ==> member_value(
                members,
                written[i].0,
            ) is Some,
        written[0] == (EventField::SchemaVersion, written[0].1) && written[0].1 is Some,
        written[1] == (EventField::Timestamp, written[1].1) && written[1].1 is Some,
        written[2] == (EventField::Level, written[2].1) && written[2].1 is Some,
        written[3] == (EventField::Source, written[3].1) && written[3].1 is Some,
        written[4] == (EventField::Subsystem, written[4].1) && written[4].1 is Some,
        written[6] == (EventField::Event, written[6].1) && written[6].1 is Some,
        written[7] == (EventField::Message, written[7].1) && written[7].1 is Some,
        written[8] == (EventField::AppSessionId, written[8].1) && written[8].1 is Some,
    ensures
        first_missing(members, required_fields()) is None,
{
    let required = required_fields();
    assert forall|i: int| 0 <= i < required.len() implies #[trigger] member_value(
        members,
        required[i],
    ) is Some by {
        if i == 0 {
            assert(written[0].1 is Some);
        } else if i == 1 {
            assert(written[1].1 is Some);
        } else if i == 2 {
            assert(written[2].1 is Some);
        } else if i == 3 {
            assert(written[3].1 is Some);
        } else if i == 4 {
            assert(written[4].1 is Some);
        } else if i == 5 {
            assert(written[6].1 is Some);
        } else if i == 6 {
            assert(written[7].1 is Some);
        } else {
            assert(written[8].1 is Some);
        }
    }
    lemma_present_not_missing(members, required);
}

proof fn lemma_present_not_missing(members: Seq<(String, JsonValue)>, fields: Seq<EventField>)
    requires
        forall|i: int|
            0 <= i < fields.len() ==> #[trigger] member_value(members, fields[i]) is Some,
    ensures
        first_missing(members, fields) is None,
    decreases fields.len(),
{
    if fields.len() > 0 {
        assert(member_value(members, fields[0]) is Some);
        assert forall|i: int| 0 <= i < fields.drop_first().len() implies #[trigger] member_value(
            members,
            fields.drop_first()[i],
        ) is Some by {
            assert(fields.drop_first()[i] == fields[i + 1]);
        }
        lemma_present_not_missing(members, fields.drop_first());
    }
}

proof fn lemma_read_parts(
    event: LogEvent,
    duration_text: Seq<char>,
    members: Seq<(String, JsonValue)>,
    read: LogEvent,
)
    requires
        writable(event),
        describes(members, read),
        forall|i: int|
            0 <= i < written_members(event, duration_text).len() ==> match (
            #[trigger] written_members(event, duration_text)[i]).1 {
                Some(expected) => member_value(members, written_members(event, duration_text)[i].0)
                    is Some && writes(
                    member_value(members, written_members(event, duration_text)[i].0)->0,
                    expected,
                ),
                None => member_value(members, written_members(event, duration_text)[i].0) is None,
            },
    ensures
        same_event(read, event),
{
    let written = written_members(event, duration_text);
    lemma_millis_give_instant(event.timestamp.seconds(), event.timestamp.nanos());
    lemma_level_text_names_level(event.level);
    lemma_level_text_names_level(read.level);
    assert(written[0].1 is Some);
    assert(written[1].1 is Some);
    assert(written[2].1 is Some);
    assert(written[3].1 is Some);
    assert(written[4].1 is Some);
    assert(written[5].0 == EventField::Target);
    assert(written[6].1 is Some);
    assert(written[7].1 is Some);
    assert(written[8].1 is Some);
    assert(written[9].0 == EventField::PlaybackSessionId);
    assert(written[10].0 == EventField::RequestId);
    assert(written[11].0 == EventField::SessionId);
    assert(written[12].0 == EventField::Provider);
    assert(written[13].0 == EventField::DurationMs);
    assert(written[14].0 == EventField::ErrorKind);
    assert(written[15].0 == EventField::Status);
    assert(written[16].0 == EventField::Fields);
    if let Some(status) = event.status {
        lemma_arranged_stays(status, read.status->0);
        lemma_same_value_symmetric(status, read.status->0);
    }
    if event.fields@ != Map::<Seq<char>, JsonValue>::empty() {
        let value = member_value(members, EventField::Fields)->0;
        let entries = value->Object_0@;
        lemma_entries_are_read(entries, event.fields.ordered(), event.fields@, read.fields@);
    }
}

/// A map whose entries are listed in members, each once, is gathered from them again.
proof fn lemma_entries_are_read(
    entries: Seq<(String, JsonValue)>,
    names: Seq<Seq<char>>,
    map: Map<Seq<char>, JsonValue>,
    read: Map<Seq<char>, JsonValue>,
)
    requires
        gathers(entries, read),
        entries.len() == names.len(),
        names.no_duplicates(),
        names.to_set() == map.dom(),
        forall|i: int|
            0 <= i < names.len() ==> (#[trigger] entries[i]).0@ == names[i] && entries[i].1
                == map[names[i]],
        forall|name: Seq<char>| #[trigger] map.contains_key(name) ==> is_arranged(map[name]),
    ensures
        read.dom() == map.dom(),
        forall|name: Seq<char>| #[trigger]
            read.contains_key(name) ==> same_value(read[name], map[name]),
{
    assert(names_of(entries) =~= names);
    assert forall|name: Seq<char>| #[trigger] read.contains_key(name) implies same_value(
        read[name],
        map[name],
    ) by {
        assert(names.to_set().contains(name));
        let i = names.index_of(name);
        assert(entries[i].0@ == name);
        assert(is_last(entries, i)) by {
            assert forall|later: int| i < later < entries.len() implies (
            #[trigger] entries[later]).0@ != entries[i].0@ by {
                assert(names[later] != names[i]);
            }
        }
        assert(arranges(entries[i].1, read[name]));
        lemma_arranged_stays(map[name], read[name]);
        lemma_same_value_symmetric(map[name], read[name]);
    }
}

/// A text about a member: the text, and the name of the member between grave
/// accents.
pub open spec fn about_member(text: Seq<char>, field: EventField) -> Seq<char> {
    text + " `"@ + field_name(field) + "`"@
}

/// What is told of a schema error.
pub open spec fn error_text(error: SchemaError) -> Seq<char> {
    match error {
        SchemaError::Duplicate(field) => about_member("duplicate field"@, field),
        SchemaError::Missing(field) => about_member("missing field"@, field),
        SchemaError::TooManyItems => "trailing characters"@,
        SchemaError::Invalid(field, fault) => match fault {
            Fault::WrongType => about_member("unexpected type of field"@, field),
            Fault::UnsupportedVersion(version) => "unsupported schema version "@ + decimal_text(
                version as nat,
            ) + "; expected "@ + decimal_text(SCHEMA_VERSION as nat),
            Fault::UnknownLevel => about_member("unknown level in field"@, field),
            Fault::EmptyText => "expected a non-empty string"@,
            Fault::NotAnIdentifier => "expected a non-empty string or number identifier"@,
            Fault::NotAnOptionalIdentifier => "expected a string, number, or null identifier"@,
            Fault::NotADuration => "expected a non-negative finite number"@,
            Fault::NotATimestamp => "expected Unix milliseconds or an RFC 3339 timestamp"@,
            Fault::NotRfc3339 => about_member("invalid RFC 3339 timestamp in field"@, field),
            Fault::TimestampOutOfRange => "timestamp is outside the supported range"@,
        },
    }
}

/// A text about a member.
fn tell_of_member(text: &str, field: EventField) -> (result: String)
    ensures
        result@ == about_member(text@, field),
{
    let mut result = owned(text);
    result.append(" `");
    result.append(field.name());
    result.append("`");
    result
}

impl SchemaError {
    /// What is told of the error.
    pub fn to_text(self) -> (text: String)
        ensures
            text@ == error_text(self),
    {
        match self {
            SchemaError::Duplicate(field) => tell_of_member("duplicate field", field),
            SchemaError::Missing(field) => tell_of_member("missing field", field),
            SchemaError::TooManyItems => owned("trailing characters"),
            SchemaError::Invalid(field, fault) => match fault {
                Fault::WrongType => tell_of_member("unexpected type of field", field),
                Fault::UnsupportedVersion(version) => {
                    let mut text = owned("unsupported schema version ");
                    push_decimal(&mut text, version as u64);
                    text.append("; expected ");
                    push_decimal(&mut text, SCHEMA_VERSION as u64);
                    text
                },
                Fault::UnknownLevel => tell_of_member("unknown level in field", field),
                Fault::EmptyText => owned("expected a non-empty string"),
                Fault::NotAnIdentifier => owned("expected a non-empty string or number identifier"),
                Fault::NotAnOptionalIdentifier => owned(
                    "expected a string, number, or null identifier",
                ),
                Fault::NotADuration => owned("expected a non-negative finite number"),
                Fault::NotATimestamp => owned("expected Unix milliseconds or an RFC 3339 timestamp"),
                Fault::NotRfc3339 => tell_of_member("invalid RFC 3339 timestamp in field", field),
                Fault::TimestampOutOfRange => owned("timestamp is outside the supported range"),
            },
        }
    }
}

/// Where a member stands once one that an event does not have was put in.
proof fn lemma_index_beside_other(
    members: Seq<(String, JsonValue)>,
    place: int,
    other: (String, JsonValue),
    field: EventField,
)
    requires
        0 <= place <= members.len(),
        field_named(other.0@) is None,
    ensures
        index_of_field(members.insert(place, other), field) == index_of_field(members, field) + (
        if index_of_field(members, field) >= place {
            1int
        } else {
            0int
        }),
    decreases members.len(),
{
    let longer = members.insert(place, other);
    lemma_index_of_field(members, field);
    if place == 0 {
        assert(longer.drop_first() == members);
    } else {
        assert(longer[0] == members[0]);
        if field_named(members[0].0@) != Some(field) {
            lemma_index_beside_other(members.drop_first(), place - 1, other, field);
            assert(longer.drop_first() == members.drop_first().insert(place - 1, other));
        }
    }
}

/// What is wrong with the members behind one that an event does not have.
proof fn lemma_problems_beside_other(
    members: Seq<(String, JsonValue)>,
    place: int,
    other: (String, JsonValue),
    from: int,
)
    requires
        0 <= from <= members.len(),
        0 <= place <= members.len(),
        field_named(other.0@) is None,
    ensures
        from < place ==> first_problem(members.insert(place, other), from) == first_problem(
            members,
            from,
        ),
        from >= place ==> first_problem(members.insert(place, other), from + 1) == first_problem(
            members,
            from,
        ),
    decreases members.len() - from,
{
    let longer = members.insert(place, other);
    if from < members.len() {
        lemma_problems_beside_other(members, place, other, from + 1);
        let index = if from < place {
            from
        } else {
            from + 1
        };
        assert(longer[index] == members[from]);
        if let Some(field) = field_named(members[from].0@) {
            lemma_index_beside_other(members, place, other, field);
        }
        assert(problem_at(longer, index) == problem_at(members, from));
        if from + 1 == place {
            assert(longer[place] == other);
            assert(problem_at(longer, place) is None);
            assert(first_problem(longer, place) == first_problem(longer, place + 1));
        }
    }
}

/// What is missing does not depend on a member that an event does not have.
proof fn lemma_missing_beside_other(
    members: Seq<(String, JsonValue)>,
    place: int,
    other: (String, JsonValue),
    fields: Seq<EventField>,
)
    requires
        0 <= place <= members.len(),
        forall|field: EventField|
            member_value(members.insert(place, other), field) == #[trigger] member_value(
                members,
                field,
            ),
    ensures
        first_missing(members.insert(place, other), fields) == first_missing(members, fields),
    decreases fields.len(),
{
    if fields.len() > 0 {
        assert(member_value(members.insert(place, other), fields[0]) == member_value(
            members,
            fields[0],
        ));
        lemma_missing_beside_other(members, place, other, fields.drop_first());
    }
}

/// Members that an event does not have are accepted, wherever they stand: they change
/// neither whether an object gives an event nor which one.
pub proof fn lemma_other_members_are_accepted(
    members: Seq<(String, JsonValue)>,
    place: int,
    other: (String, JsonValue),
    event: LogEvent,
)
    requires
        0 <= place <= members.len(),
        field_named(other.0@) is None,
    ensures
        decoding_error(members.insert(place, other)) == decoding_error(members),
        describes(members.insert(place, other), event) == describes(members, event),
{
    let longer = members.insert(place, other);
    assert forall|field: EventField| member_value(longer, field) == #[trigger] member_value(
        members,
        field,
    ) by {
        lemma_index_of_field(members, field);
        lemma_index_beside_other(members, place, other, field);
    }
    lemma_missing_beside_other(members, place, other, required_fields());
    lemma_problems_beside_other(members, place, other, 0);
    if place == 0 {
        assert(longer[0] == other);
        assert(problem_at(longer, 0) is None);
        assert(first_problem(longer, 0) == first_problem(longer, 1));
    }
    assert(member_value(longer, EventField::Timestamp) == member_value(
        members,
        EventField::Timestamp,
    ));
    assert(member_value(longer, EventField::Level) == member_value(members, EventField::Level));
    assert(member_value(longer, EventField::Source) == member_value(members, EventField::Source));
    assert(member_value(longer, EventField::Fields) == member_value(members, EventField::Fields));
}

/// Members that give an event have no fault, and none of those that an event knows stands
/// twice.
proof fn lemma_known_members_stand_once(members: Seq<(String, JsonValue)>, index: int)
    requires
        decoding_error(members) is None,
        0 <= index < members.len(),
    ensures
        field_named(members[index].0@) matches Some(field) ==> index_of_field(members, field)
            == index && fault_of(field, members[index].1) is None && member_value(members, field)
            == Some(members[index].1),
{
    lemma_no_problem_at(members, 0, index);
    if let Some(field) = field_named(members[index].0@) {
        lemma_first_place_of_field(members, field, index);
    }
}

proof fn lemma_no_problem_at(members: Seq<(String, JsonValue)>, from: int, index: int)
    requires
        first_problem(members, from) is None,
        0 <= from <= index < members.len(),
    ensures
        problem_at(members, index) is None,
    decreases index - from,
{
    if from < index {
        lemma_no_problem_at(members, from + 1, index);
    }
}

proof fn lemma_first_place_of_field(
    members: Seq<(String, JsonValue)>,
    field: EventField,
    index: int,
)
    requires
        0 <= index < members.len(),
        field_named(members[index].0@) == Some(field),
    ensures
        0 <= index_of_field(members, field) <= index,
    decreases members.len(),
{
    if index > 0 && field_named(members[0].0@) != Some(field) {
        assert(members.drop_first()[index - 1] == members[index]);
        lemma_first_place_of_field(members.drop_first(), field, index - 1);
    }
}

proof fn lemma_all_names()
    ensures
        field_named("schema_version"@) == Some(EventField::SchemaVersion),
        field_named("timestamp"@) == Some(EventField::Timestamp),
        field_named("level"@) == Some(EventField::Level),
        field_named("source"@) == Some(EventField::Source),
        field_named("subsystem"@) == Some(EventField::Subsystem),
        field_named("target"@) == Some(EventField::Target),
        field_named("event"@) == Some(EventField::Event),
        field_named("message"@) == Some(EventField::Message),
        field_named("app_session_id"@) == Some(EventField::AppSessionId),
        field_named("playback_session_id"@) == Some(EventField::PlaybackSessionId),
        field_named("request_id"@) == Some(EventField::RequestId),
        field_named("session_id"@) == Some(EventField::SessionId),
        field_named("provider"@) == Some(EventField::Provider),
        field_named("duration_ms"@) == Some(EventField::DurationMs),
        field_named("error_kind"@) == Some(EventField::ErrorKind),
        field_named("status"@) == Some(EventField::Status),
        field_named("fields"@) == Some(EventField::Fields),
{
    lemma_field_name_names_field(EventField::SchemaVersion);
    lemma_field_name_names_field(EventField::Timestamp);
    lemma_field_name_names_field(EventField::Level);
    lemma_field_name_names_field(EventField::Source);
    lemma_field_name_names_field(EventField::Subsystem);
    lemma_field_name_names_field(EventField::Target);
    lemma_field_name_names_field(EventField::Event);
    lemma_field_name_names_field(EventField::Message);
    lemma_field_name_names_field(EventField::AppSessionId);
    lemma_field_name_names_field(EventField::PlaybackSessionId);
    lemma_field_name_names_field(EventField::RequestId);
    lemma_field_name_names_field(EventField::SessionId);
    lemma_field_name_names_field(EventField::Provider);
    lemma_field_name_names_field(EventField::DurationMs);
    lemma_field_name_names_field(EventField::ErrorKind);
    lemma_field_name_names_field(EventField::Status);
    lemma_field_name_names_field(EventField::Fields);
}

/// An event holds what the members of its object say, each under its name: texts and
/// identifiers as they are, an identifier also where it is written as a number, the
/// timestamp in milliseconds, the level by its name, and the duration as the number it is.
pub proof fn lemma_events_hold_their_members(
    members: Seq<(String, JsonValue)>,
    event: LogEvent,
    index: int,
)
    requires
        decoding_error(members) is None,
        describes(members, event),
        0 <= index < members.len(),
    ensures
        ({
            let (name, value) = (members[index].0@, members[index].1);
            let text = match value {
                JsonValue::String(text) => Some(text@),
                _ => None,
            };
            let identifier = match value {
                JsonValue::String(text) => Some(text@),
                JsonValue::Number(number) => Some(number_text(number)),
                _ => None,
            };
            &&& name == "source"@ ==> text == Some(event.source@)
            &&& name == "subsystem"@ ==> text == Some(event.subsystem@)
            &&& name == "event"@ ==> text == Some(event.event@)
            &&& name == "message"@ ==> text == Some(event.message@)
            &&& name == "target"@ ==> text == option_view(event.target)
            &&& name == "provider"@ ==> text == option_view(event.provider)
            &&& name == "error_kind"@ ==> text == option_view(event.error_kind)
            &&& name == "app_session_id"@ ==> identifier == Some(event.app_session_id@)
            &&& name == "playback_session_id"@ ==> identifier == option_view(
                event.playback_session_id,
            )
            &&& name == "request_id"@ ==> identifier == option_view(event.request_id)
            &&& name == "session_id"@ ==> identifier == option_view(event.session_id)
            &&& name == "schema_version"@ ==> (value matches JsonValue::Number(number)
                && number_integer(number) == Some(1int))
            &&& name == "timestamp"@ ==> (value matches JsonValue::Number(number)
                ==> number_integer(number) == Some(event.timestamp.millis()))
            &&& name == "level"@ && text is Some ==> text == Some(level_text(event.level))
            &&& name == "duration_ms"@ && value is Null ==> event.duration_ms is None
            &&& name == "duration_ms"@ ==> (value matches JsonValue::Number(number)
                ==> event.duration_ms is Some && number_gives(number, event.duration_ms->0))
        }),
{
    lemma_known_members_stand_once(members, index);
    lemma_all_names();
    let (name, value) = (members[index].0@, members[index].1);
    if name == "timestamp"@ {
        if let JsonValue::Number(number) = value {
            let milliseconds = number_integer(number)->0;
            assert(event.timestamp.seconds() == milliseconds / 1000);
            assert(event.timestamp.nanos() == (milliseconds % 1000) * 1_000_000);
        }
    }
}

/// An object gives an event only where it has a version, a timestamp, a level, a source, a
/// subsystem, an event, a message and an application session.
pub proof fn lemma_events_need_their_members(members: Seq<(String, JsonValue)>, name: Seq<char>)
    requires
        decoding_error(members) is None,
        name == "schema_version"@ || name == "timestamp"@ || name == "level"@ || name == "source"@
            || name == "subsystem"@ || name == "event"@ || name == "message"@ || name
            == "app_session_id"@,
    ensures
        exists|index: int| 0 <= index < members.len() && (#[trigger] members[index]).0@ == name,
{
    lemma_all_names();
    let field = field_named(name)->0;
    let required = required_fields();
    assert(required[0] == EventField::SchemaVersion && required[1] == EventField::Timestamp);
    assert(required[2] == EventField::Level && required[3] == EventField::Source);
    assert(required[4] == EventField::Subsystem && required[5] == EventField::Event);
    assert(required[6] == EventField::Message && required[7] == EventField::AppSessionId);
    let place: int = if name == "schema_version"@ {
        0
    } else if name == "timestamp"@ {
        1
    } else if name == "level"@ {
        2
    } else if name == "source"@ {
        3
    } else if name == "subsystem"@ {
        4
    } else if name == "event"@ {
        5
    } else if name == "message"@ {
        6
    } else {
        7
    };
    assert(required[place] == field);
    lemma_none_is_missing(members, required, place);
    lemma_index_of_field(members, field);
    let index = index_of_field(members, field);
    assert(index < members.len());
    assert(field_named(members[index].0@) == Some(field));
    assert(members[index].0@ == name);
}

proof fn lemma_none_is_missing(
    members: Seq<(String, JsonValue)>,
    fields: Seq<EventField>,
    place: int,
)
    requires
        first_missing(members, fields) is None,
        0 <= place < fields.len(),
    ensures
        member_value(members, fields[place]) is Some,
    decreases fields.len(),
{
    if place > 0 {
        assert(fields.drop_first()[place - 1] == fields[place]);
        lemma_none_is_missing(members, fields.drop_first(), place - 1);
    }
}

/// Which values members cannot have: an empty source, subsystem or event, a level without a
/// name that is known, a negative duration, and another version than the first.
pub proof fn lemma_wrong_values_are_refused(text: String, number: i64, version: u64)
    ensures
        text@.len() == 0 ==> fault_of(EventField::Source, JsonValue::String(text)) is Some
            && fault_of(EventField::Subsystem, JsonValue::String(text)) is Some && fault_of(
            EventField::Event,
            JsonValue::String(text),
        ) is Some && fault_of(EventField::AppSessionId, JsonValue::String(text)) is Some,
        text@.len() > 0 ==> fault_of(EventField::Source, JsonValue::String(text)) is None
            && fault_of(EventField::Subsystem, JsonValue::String(text)) is None && fault_of(
            EventField::Event,
            JsonValue::String(text),
        ) is None && fault_of(EventField::AppSessionId, JsonValue::String(text)) is None,
        fault_of(EventField::Message, JsonValue::String(text)) is None,
        fault_of(EventField::Level, JsonValue::String(text)) is None <==> text@ == "trace"@ || text@
            == "debug"@ || text@ == "info"@ || text@ == "warn"@ || text@ == "error"@ || text@
            == "fatal"@,
        fault_of(EventField::DurationMs, JsonValue::Number(JsonNumber::Integer(number))) is None
            <==> number >= 0,
        fault_of(EventField::SchemaVersion, JsonValue::Number(JsonNumber::Natural(version)))
            is None <==> version == 1,
        fault_of(EventField::Message, JsonValue::Null) is Some,
        fault_of(EventField::Target, JsonValue::Null) is None,
        fault_of(EventField::RequestId, JsonValue::Null) is None,
        fault_of(EventField::Fields, JsonValue::Null) is Some,
{
    assert("trace"@ == level_text(Level::Trace));
    assert("debug"@ == level_text(Level::Debug));
    assert("info"@ == level_text(Level::Info));
    assert("warn"@ == level_text(Level::Warn));
    assert("error"@ == level_text(Level::Error));
    assert("fatal"@ == level_text(Level::Fatal));
}

}
