//! How an application writes its events to a log.
use vstd::prelude::*;

use crate::conditions::lemma_digits_are_read;
use crate::event::{is_random_identifier, LogEvent, SCHEMA_VERSION};
use crate::json::{
    decimal_text, natural_to_text, option_view, scalar_of, scalar_text, JsonNumber, JsonValue,
};
use crate::level::Level;
use crate::natural::two_to;
use crate::number::{integer_double, lemma_integer_is_exact, Double};
use crate::numeral::{all_digits, digits_value, number_reading, parse_number};
use crate::ordered::TextMap;
use crate::schema::double_of;
use crate::text::owned;
use crate::time::{Timestamp, NANOS_PER_SECOND};

verus! {

/// How many events wait to be written, unless something else is asked for.
pub const DEFAULT_QUEUE_CAPACITY: usize = 16_384;

/// The size at which a log is archived, unless something else is asked for.
pub const DEFAULT_ROTATION_BYTES: u64 = 52_428_800;

/// How many archived logs are kept, unless something else is asked for.
pub const DEFAULT_ARCHIVE_COUNT: usize = 4;

/// How many events are taken from the queue at once.
pub const LARGEST_DRAIN: usize = 1_024;

/// How a log is written. The place of the log is of any type.
#[derive(Debug, Clone)]
pub struct LoggerConfig<P> {
    pub path: P,
    pub source: String,
    pub app_session_id: String,
    pub queue_capacity: usize,
    pub rotation_bytes: u64,
    pub archive_count: usize,
}

impl<P> LoggerConfig<P> {
    /// The usual way to write the log of a new session.
    pub fn new(path: P, source: String) -> (config: Self)
        ensures
            config.path == path,
            config.source@ == source@,
            is_random_identifier(config.app_session_id@),
            config.queue_capacity == DEFAULT_QUEUE_CAPACITY,
            config.rotation_bytes == DEFAULT_ROTATION_BYTES,
            config.archive_count == DEFAULT_ARCHIVE_COUNT,
    {
        LoggerConfig {
            path,
            source,
            app_session_id: LogEvent::new_app_session_id(),
            queue_capacity: DEFAULT_QUEUE_CAPACITY,
            rotation_bytes: DEFAULT_ROTATION_BYTES,
            archive_count: DEFAULT_ARCHIVE_COUNT,
        }
    }

    /// How many events wait to be written: at least one.
    pub fn capacity(&self) -> (capacity: usize)
        ensures
            capacity == if self.queue_capacity == 0 {
                1
            } else {
                self.queue_capacity
            },
    {
        if self.queue_capacity == 0 {
            1
        } else {
            self.queue_capacity
        }
    }
}

/// An event with fields, at the current instant.
pub fn direct_event(
    level: Level,
    source: String,
    subsystem: String,
    event: String,
    message: String,
    app_session_id: String,
    fields: TextMap<JsonValue>,
) -> (record: LogEvent)
    ensures
        record.schema_version == SCHEMA_VERSION,
        record.timestamp.nanos() < NANOS_PER_SECOND,
        record.level == level,
        record.source@ == source@,
        record.subsystem@ == subsystem@,
        record.event@ == event@,
        record.message@ == message@,
        record.app_session_id@ == app_session_id@,
        record.fields == fields,
        has_no_details(record),
{
    let mut record = LogEvent::new(level, source, subsystem, event, message, app_session_id);
    record.timestamp = Timestamp::precise_now();
    record.fields = fields;
    record
}

/// Whether an event has none of the parts that it may lack.
pub open spec fn has_no_details(event: LogEvent) -> bool {
    &&& event.target is None
    &&& event.playback_session_id is None
    &&& event.request_id is None
    &&& event.session_id is None
    &&& event.provider is None
    &&& event.duration_ms is None
    &&& event.error_kind is None
    &&& event.status is None
}

/// The text of a field.
pub open spec fn text_of_field(fields: Map<Seq<char>, JsonValue>, key: Seq<char>) -> Option<
    Seq<char>,
> {
    if fields.contains_key(key) {
        scalar_of(fields[key])
    } else {
        None
    }
}

/// The text of a field, or another text.
pub open spec fn text_or(
    fields: Map<Seq<char>, JsonValue>,
    key: Seq<char>,
    other: Seq<char>,
) -> Seq<char> {
    match text_of_field(fields, key) {
        Some(text) => text,
        None => other,
    }
}

/// The number that a value gives.
pub open spec fn number_of(value: JsonValue) -> Option<Double> {
    match value {
        JsonValue::Number(number) => Some(
            match number {
                JsonNumber::Natural(value) => integer_double(value as int),
                JsonNumber::Integer(value) => integer_double(value as int),
                JsonNumber::Real { number, .. } => number,
            },
        ),
        JsonValue::String(text) => number_reading(text@),
        _ => None,
    }
}

/// The number that a value gives.
pub fn value_to_number(value: &JsonValue) -> (number: Option<Double>)
    ensures
        number == number_of(*value),
{
    match value {
        JsonValue::Number(number) => Some(double_of(number)),
        JsonValue::String(text) => parse_number(text.as_str()),
        _ => None,
    }
}

/// Takes a field out: its text.
fn take_string(fields: &mut TextMap<JsonValue>, key: &str) -> (text: Option<String>)
    ensures
        option_view(text) == text_of_field(old(fields)@, key@),
        final(fields)@ == old(fields)@.remove(key@),
{
    match fields.remove(key) {
        Some(value) => scalar_text(&value),
        None => None,
    }
}

/// The fields that become parts of an event.
pub open spec fn promoted() -> Set<Seq<char>> {
    set![
        "message"@,
        "subsystem"@,
        "event"@,
        "playback_session_id"@,
        "request_id"@,
        "session_id"@,
        "provider"@,
        "error_kind"@,
        "duration_ms"@,
        "status"@,
    ]
}

/// Whether an event is made from the fields of a record: the known fields become
/// parts of it, and the others stay fields.
pub open spec fn is_promoted(
    fields: Map<Seq<char>, JsonValue>,
    name: Seq<char>,
    target: Seq<char>,
    event: LogEvent,
) -> bool {
    &&& event.message@ == text_or(fields, "message"@, name)
    &&& event.subsystem@ == text_or(fields, "subsystem"@, target)
    &&& event.event@ == text_or(fields, "event"@, name)
    &&& option_view(event.target) == Some(target)
    &&& option_view(event.playback_session_id) == text_of_field(fields, "playback_session_id"@)
    &&& option_view(event.request_id) == text_of_field(fields, "request_id"@)
    &&& option_view(event.session_id) == text_of_field(fields, "session_id"@)
    &&& option_view(event.provider) == text_of_field(fields, "provider"@)
    &&& option_view(event.error_kind) == text_of_field(fields, "error_kind"@)
    &&& event.duration_ms == if fields.contains_key("duration_ms"@) {
        number_of(fields["duration_ms"@])
    } else {
        None
    }
    &&& event.status == if fields.contains_key("status"@) {
        Some(fields["status"@])
    } else {
        None
    }
    &&& event.fields@ == fields.remove_keys(promoted())
}

/// The names of the fields that become parts of an event differ.
proof fn lemma_promoted_names()
    ensures
        "message"@ != "subsystem"@,
        "message"@ != "event"@,
        "message"@ != "playback_session_id"@,
        "message"@ != "request_id"@,
        "message"@ != "session_id"@,
        "message"@ != "provider"@,
        "message"@ != "error_kind"@,
        "message"@ != "duration_ms"@,
        "message"@ != "status"@,
        "subsystem"@ != "event"@,
        "subsystem"@ != "playback_session_id"@,
        "subsystem"@ != "request_id"@,
        "subsystem"@ != "session_id"@,
        "subsystem"@ != "provider"@,
        "subsystem"@ != "error_kind"@,
        "subsystem"@ != "duration_ms"@,
        "subsystem"@ != "status"@,
        "event"@ != "playback_session_id"@,
        "event"@ != "request_id"@,
        "event"@ != "session_id"@,
        "event"@ != "provider"@,
        "event"@ != "error_kind"@,
        "event"@ != "duration_ms"@,
        "event"@ != "status"@,
        "playback_session_id"@ != "request_id"@,
        "playback_session_id"@ != "session_id"@,
        "playback_session_id"@ != "provider"@,
        "playback_session_id"@ != "error_kind"@,
        "playback_session_id"@ != "duration_ms"@,
        "playback_session_id"@ != "status"@,
        "request_id"@ != "session_id"@,
        "request_id"@ != "provider"@,
        "request_id"@ != "error_kind"@,
        "request_id"@ != "duration_ms"@,
        "request_id"@ != "status"@,
        "session_id"@ != "provider"@,
        "session_id"@ != "error_kind"@,
        "session_id"@ != "duration_ms"@,
        "session_id"@ != "status"@,
        "provider"@ != "error_kind"@,
        "provider"@ != "duration_ms"@,
        "provider"@ != "status"@,
        "error_kind"@ != "duration_ms"@,
        "error_kind"@ != "status"@,
        "duration_ms"@ != "status"@,
{
    reveal_strlit("message");
    reveal_strlit("subsystem");
    reveal_strlit("event");
    reveal_strlit("playback_session_id");
    reveal_strlit("request_id");
    reveal_strlit("session_id");
    reveal_strlit("provider");
    reveal_strlit("error_kind");
    reveal_strlit("duration_ms");
    reveal_strlit("status");
    assert("message"@.len() == 7 && "message"@[0] == 'm');
    assert("subsystem"@.len() == 9 && "subsystem"@[0] == 's');
    assert("event"@.len() == 5 && "event"@[0] == 'e');
    assert("playback_session_id"@.len() == 19 && "playback_session_id"@[0] == 'p');
    assert("request_id"@.len() == 10 && "request_id"@[0] == 'r');
    assert("session_id"@.len() == 10 && "session_id"@[0] == 's');
    assert("provider"@.len() == 8 && "provider"@[0] == 'p');
    assert("error_kind"@.len() == 10 && "error_kind"@[0] == 'e');
    assert("duration_ms"@.len() == 11 && "duration_ms"@[0] == 'd');
    assert("status"@.len() == 6 && "status"@[0] == 's');
}

/// An event from the fields of a record, given the record's name and target.
pub fn promote_fields(
    fields: TextMap<JsonValue>,
    level: Level,
    name: &str,
    target: &str,
    source: String,
    app_session_id: String,
) -> (event: LogEvent)
    ensures
        is_promoted(fields@, name@, target@, event),
        event.level == level,
        event.source@ == source@,
        event.app_session_id@ == app_session_id@,
        event.schema_version == SCHEMA_VERSION,
        event.timestamp.nanos() < NANOS_PER_SECOND,
        event.timestamp.nanos() % 1_000_000 == 0,
{
    let ghost given = fields@;
    proof {
        lemma_promoted_names();
    }
    let mut fields = fields;
    let message = match take_string(&mut fields, "message") {
        Some(text) => text,
        None => owned(name),
    };
    let subsystem = match take_string(&mut fields, "subsystem") {
        Some(text) => text,
        None => owned(target),
    };
    let event_name = match take_string(&mut fields, "event") {
        Some(text) => text,
        None => owned(name),
    };
    let mut event = LogEvent::new(level, source, subsystem, event_name, message, app_session_id);
    event.target = Some(owned(target));
    event.playback_session_id = take_string(&mut fields, "playback_session_id");
    event.request_id = take_string(&mut fields, "request_id");
    event.session_id = take_string(&mut fields, "session_id");
    event.provider = take_string(&mut fields, "provider");
    event.error_kind = take_string(&mut fields, "error_kind");
    event.duration_ms = match fields.remove("duration_ms") {
        Some(value) => value_to_number(&value),
        None => None,
    };
    event.status = fields.remove("status");
    assert(fields@ =~= given.remove_keys(promoted()));
    event.fields = fields;
    event
}

/// The event that tells that events were lost.
pub fn dropped_report(count: u64, source: String, app_session_id: String) -> (event: LogEvent)
    ensures
        event.schema_version == SCHEMA_VERSION,
        event.level is Warn,
        event.source@ == source@,
        event.subsystem@ == "logging"@,
        event.event@ == "logger.events_dropped"@,
        event.message@ == "Dropped "@ + decimal_text(count as nat)
            + " log events because the writer queue was full"@,
        event.app_session_id@ == app_session_id@,
        event.fields@ == Map::<Seq<char>, JsonValue>::empty().insert(
            "count"@,
            JsonValue::Number(JsonNumber::Natural(count)),
        ),
        has_no_details(event),
        event.timestamp.nanos() < NANOS_PER_SECOND,
        event.timestamp.nanos() % 1_000_000 == 0,
{
    let number = natural_to_text(count);
    let mut message = owned("Dropped ");
    message.append(number.as_str());
    message.append(" log events because the writer queue was full");
    let mut event = LogEvent::new(
        Level::Warn,
        source,
        owned("logging"),
        owned("logger.events_dropped"),
        message,
        app_session_id,
    );
    event.fields.insert(owned("count"), JsonValue::Number(JsonNumber::Natural(count)));
    event
}

/// What became of an event that was handed to the queue.
#[derive(Clone, Copy, PartialEq, Eq, Structural, Debug)]
pub enum SendOutcome {
    Sent,
    Full,
    Disconnected,
}

/// How many events are lost with one that stands for some: all of them where the
/// queue is full. Once nobody reads the queue, nothing is counted.
pub fn lost_events(outcome: SendOutcome, stands_for: u64) -> (lost: u64)
    ensures
        lost == if outcome is Full {
            stands_for
        } else {
            0
        },
{
    match outcome {
        SendOutcome::Full => stands_for,
        SendOutcome::Sent | SendOutcome::Disconnected => 0,
    }
}

/// Whether more events are taken from the queue before those that were taken are
/// written.
pub fn takes_more(pending: usize) -> (result: bool)
    ensures
        result == (pending < LARGEST_DRAIN),
{
    pending < LARGEST_DRAIN
}

/// How much of a log is written, and when it is archived.
#[derive(Clone, Copy, PartialEq, Eq, Structural, Debug)]
pub struct Rotation {
    pub bytes_written: u64,
    pub rotation_bytes: u64,
    pub archive_count: usize,
}

/// Whether a log is archived before a record is written to it: where it is not
/// empty and would grow too large.
pub open spec fn rotates_before(rotation: Rotation, length: int) -> bool {
    rotation.bytes_written > 0 && rotation.bytes_written + length > rotation.rotation_bytes
}

/// How much of a log is written after a record.
pub open spec fn written_after(rotation: Rotation, length: int) -> int {
    if rotates_before(rotation, length) {
        length
    } else {
        rotation.bytes_written + length
    }
}

impl Rotation {
    /// A log of some size that is appended to.
    pub fn new(bytes_written: u64, rotation_bytes: u64, archive_count: usize) -> (rotation: Self)
        ensures
            rotation.bytes_written == bytes_written,
            rotation.rotation_bytes == if rotation_bytes == 0 {
                1
            } else {
                rotation_bytes
            },
            rotation.archive_count == archive_count,
    {
        Rotation {
            bytes_written,
            rotation_bytes: if rotation_bytes == 0 {
                1
            } else {
                rotation_bytes
            },
            archive_count,
        }
    }

    /// Whether the log is archived before a record is written to it.
    pub fn needs_rotation(&self, length: u64) -> (result: bool)
        requires
            self.bytes_written + length <= u64::MAX,
        ensures
            result == rotates_before(*self, length as int),
    {
        self.bytes_written > 0 && self.bytes_written + length > self.rotation_bytes
    }

    /// Begins a log that took the place of one that was archived.
    pub fn restart(&mut self)
        ensures
            *final(self) == (Rotation { bytes_written: 0, ..*old(self) }),
    {
        self.bytes_written = 0;
    }

    /// Counts a record that was written.
    pub fn count(&mut self, length: u64)
        requires
            old(self).bytes_written + length <= u64::MAX,
        ensures
            *final(self) == (Rotation {
                bytes_written: (old(self).bytes_written + length) as u64,
                ..*old(self)
            }),
    {
        self.bytes_written = self.bytes_written + length;
    }
}

/// After a record is written, a log is larger than its limit only where it holds
/// that record alone.
pub proof fn lemma_log_stays_small(rotation: Rotation, length: int)
    requires
        length >= 0,
    ensures
        written_after(rotation, length) <= rotation.rotation_bytes || written_after(
            rotation,
            length,
        ) == length,
{
}

/// A step of the archiving of a log. The log itself is generation zero, and the
/// newest archived log generation one.
#[derive(Clone, Copy, PartialEq, Eq, Structural, Debug)]
pub enum ArchiveStep {
    /// Removes a generation, where it exists.
    Remove(usize),
    /// Makes a generation the next older one, where it exists.
    Age(usize),
}

/// The steps in which each of the generations from the oldest to the log itself
/// becomes the next older one.
pub open spec fn aging_steps(oldest: nat) -> Seq<ArchiveStep>
    decreases oldest,
{
    if oldest == 0 {
        Seq::empty()
    } else {
        seq![ArchiveStep::Age((oldest - 1) as usize)] + aging_steps((oldest - 1) as nat)
    }
}

/// The steps of the archiving of a log.
pub open spec fn archive_steps(archive_count: nat) -> Seq<ArchiveStep> {
    seq![ArchiveStep::Remove(archive_count as usize)] + aging_steps(archive_count)
}

/// The steps of the archiving of a log.
pub fn rotation_plan(archive_count: usize) -> (steps: Vec<ArchiveStep>)
    ensures
        steps@ == archive_steps(archive_count as nat),
{
    let mut steps: Vec<ArchiveStep> = Vec::new();
    steps.push(ArchiveStep::Remove(archive_count));
    let mut generation: usize = archive_count;
    let ghost all = archive_steps(archive_count as nat);
    assert(steps@ + aging_steps(generation as nat) == all);
    while generation > 0
        invariant
            generation <= archive_count,
            steps@ + aging_steps(generation as nat) == all,
        decreases generation,
    {
        let ghost before = steps@;
        let ghost step = ArchiveStep::Age((generation - 1) as usize);
        let ghost rest = aging_steps((generation - 1) as nat);
        steps.push(ArchiveStep::Age(generation - 1));
        assert(before + (seq![step] + rest) == before.push(step) + rest);
        generation = generation - 1;
    }
    assert(steps@ + aging_steps(0) == steps@);
    steps
}

/// The generations of a log, by their contents, after a step.
pub open spec fn archived<A>(generations: Map<nat, A>, step: ArchiveStep) -> Map<nat, A> {
    match step {
        ArchiveStep::Remove(generation) => generations.remove(generation as nat),
        ArchiveStep::Age(generation) => if generations.contains_key(generation as nat) {
            generations.remove(generation as nat).insert(
                generation as nat + 1,
                generations[generation as nat],
            )
        } else {
            generations
        },
    }
}

/// The generations of a log after some steps.
pub open spec fn archived_all<A>(generations: Map<nat, A>, steps: Seq<ArchiveStep>) -> Map<nat, A>
    decreases steps.len(),
{
    if steps.len() == 0 {
        generations
    } else {
        archived_all(archived(generations, steps[0]), steps.drop_first())
    }
}

proof fn lemma_aging<A>(generations: Map<nat, A>, oldest: nat)
    requires
        !generations.contains_key(oldest),
        oldest <= usize::MAX,
    ensures
        ({
            let after = archived_all(generations, aging_steps(oldest));
            &&& oldest > 0 ==> !after.contains_key(0)
            &&& forall|generation: nat|
                generation < oldest ==> (#[trigger] generations.contains_key(generation)
                    <==> after.contains_key(generation + 1)) && (generations.contains_key(
                    generation,
                ) ==> after[generation + 1] == generations[generation])
            &&& forall|generation: nat|
                generation > oldest ==> (#[trigger] after.contains_key(generation)
                    <==> generations.contains_key(generation)) && (after.contains_key(generation)
                    ==> after[generation] == generations[generation])
        }),
    decreases oldest,
{
    if oldest > 0 {
        let younger = (oldest - 1) as nat;
        let step = ArchiveStep::Age(younger as usize);
        let steps = aging_steps(oldest);
        assert(steps[0] == step);
        assert(steps.drop_first() == aging_steps(younger));
        let next = archived(generations, step);
        assert(!next.contains_key(younger));
        lemma_aging(next, younger);
        let after = archived_all(next, aging_steps(younger));
        assert(after == archived_all(generations, steps));
        assert forall|generation: nat| generation < oldest implies (
        #[trigger] generations.contains_key(generation) <==> after.contains_key(generation + 1))
            && (generations.contains_key(generation) ==> after[generation + 1]
            == generations[generation]) by {
            if generation < younger {
                assert(next.contains_key(generation) <==> generations.contains_key(generation));
            } else {
                assert(after.contains_key(oldest) <==> next.contains_key(oldest));
            }
        }
    }
}

/// Archiving makes every generation the next older one and loses the oldest one
/// alone; then there is room for a new log.
pub proof fn lemma_archiving_ages_logs<A>(generations: Map<nat, A>, archive_count: nat)
    requires
        archive_count <= usize::MAX,
    ensures
        ({
            let after = archived_all(generations, archive_steps(archive_count));
            &&& !after.contains_key(0)
            &&& forall|generation: nat|
                generation < archive_count ==> (#[trigger] generations.contains_key(generation)
                    <==> after.contains_key(generation + 1)) && (generations.contains_key(
                    generation,
                ) ==> after[generation + 1] == generations[generation])
        }),
{
    let steps = archive_steps(archive_count);
    let first = ArchiveStep::Remove(archive_count as usize);
    assert(steps[0] == first);
    assert(steps.drop_first() == aging_steps(archive_count));
    let next = archived(generations, first);
    lemma_aging(next, archive_count);
    let after = archived_all(next, aging_steps(archive_count));
    assert(after == archived_all(generations, steps));
    assert forall|generation: nat| generation < archive_count implies (
    #[trigger] generations.contains_key(generation) <==> after.contains_key(generation + 1)) && (
    generations.contains_key(generation) ==> after[generation + 1] == generations[generation]) by {
        assert(next.contains_key(generation) <==> generations.contains_key(generation));
    }
}

/// The records of a generation of a log, where it exists.
pub open spec fn records_of<R>(generations: Map<nat, Seq<R>>, generation: nat) -> Seq<R> {
    if generations.contains_key(generation) {
        generations[generation]
    } else {
        Seq::empty()
    }
}

/// The records of the generations of a log, from those of a generation to those of the log
/// itself.
pub open spec fn records_from<R>(generations: Map<nat, Seq<R>>, oldest: nat) -> Seq<R>
    decreases oldest,
{
    if oldest == 0 {
        records_of(generations, 0)
    } else {
        records_of(generations, oldest) + records_from(generations, (oldest - 1) as nat)
    }
}

/// The generations of a log after a record, which is written to the log or, once that is
/// archived, to a new one.
pub open spec fn recorded<R>(
    generations: Map<nat, Seq<R>>,
    archive_count: nat,
    record: R,
    archives: bool,
) -> Map<nat, Seq<R>> {
    if archives {
        archived_all(generations, archive_steps(archive_count)).insert(0, seq![record])
    } else {
        generations.insert(0, records_of(generations, 0).push(record))
    }
}

/// The generations of a log after records, each with whether the log is archived before it.
pub open spec fn recorded_all<R>(
    generations: Map<nat, Seq<R>>,
    archive_count: nat,
    records: Seq<(R, bool)>,
) -> Map<nat, Seq<R>>
    decreases records.len(),
{
    if records.len() == 0 {
        generations
    } else {
        let earlier = recorded_all(generations, archive_count, records.drop_last());
        recorded(earlier, archive_count, records.last().0, records.last().1)
    }
}

/// Whether items are the last of all.
pub open spec fn are_last<R>(items: Seq<R>, all: Seq<R>) -> bool {
    items.len() <= all.len() && items == all.skip(all.len() - items.len())
}

proof fn lemma_appended<R>(
    before: Map<nat, Seq<R>>,
    after: Map<nat, Seq<R>>,
    oldest: nat,
    record: R,
)
    requires
        after == before.insert(0, records_of(before, 0).push(record)),
    ensures
        records_from(after, oldest) == records_from(before, oldest).push(record),
    decreases oldest,
{
    if oldest > 0 {
        lemma_appended(before, after, (oldest - 1) as nat, record);
        assert(records_of(after, oldest) == records_of(before, oldest));
        assert(records_from(after, oldest) == records_from(before, oldest).push(record));
    }
}

proof fn lemma_shifted<R>(
    before: Map<nat, Seq<R>>,
    after: Map<nat, Seq<R>>,
    oldest: nat,
    record: R,
)
    requires
        records_of(after, 0) == seq![record],
        forall|generation: nat|
            generation < oldest ==> records_of(after, generation + 1) == #[trigger] records_of(
                before,
                generation,
            ),
    ensures
        records_from(after, oldest) == if oldest == 0 {
            seq![record]
        } else {
            records_from(before, (oldest - 1) as nat).push(record)
        },
    decreases oldest,
{
    if oldest > 0 {
        let younger = (oldest - 1) as nat;
        lemma_shifted(before, after, younger, record);
        assert(records_of(after, younger + 1) == records_of(before, younger));
        if younger == 0 {
            assert(records_from(before, 0) == records_of(before, 0));
            assert(records_from(after, oldest) == records_from(before, younger).push(record));
        } else {
            assert(records_from(after, oldest) == records_from(before, younger).push(record));
        }
    }
}

/// A record that is written ends what the archived logs and the log hold, read from the
/// oldest on. It takes away nothing but the oldest generation, and that only where the log
/// is archived.
pub proof fn lemma_record_ends_the_log<R>(
    generations: Map<nat, Seq<R>>,
    archive_count: nat,
    record: R,
    archives: bool,
)
    requires
        archive_count <= usize::MAX,
    ensures
        ({
            let before = records_from(generations, archive_count);
            let after = records_from(
                recorded(generations, archive_count, record, archives),
                archive_count,
            );
            if archives {
                before.push(record) == records_of(generations, archive_count) + after
            } else {
                after == before.push(record)
            }
        }),
{
    let after = recorded(generations, archive_count, record, archives);
    if archives {
        lemma_archiving_ages_logs(generations, archive_count);
        let aged = archived_all(generations, archive_steps(archive_count));
        assert forall|generation: nat| generation < archive_count implies records_of(
            after,
            generation + 1,
        ) == #[trigger] records_of(generations, generation) by {
            assert(generations.contains_key(generation) <==> aged.contains_key(generation + 1));
        }
        lemma_shifted(generations, after, archive_count, record);
        assert(records_from(generations, archive_count).push(record) == records_of(
            generations,
            archive_count,
        ) + records_from(after, archive_count));
    } else {
        lemma_appended(generations, after, archive_count, record);
    }
}

/// However often the log is archived, the archived logs and the log, read from the oldest
/// on, hold the last of all records: none is missing between two, and the newest is there.
pub proof fn lemma_logs_hold_the_last_records<R>(
    generations: Map<nat, Seq<R>>,
    archive_count: nat,
    records: Seq<(R, bool)>,
)
    requires
        archive_count <= usize::MAX,
    ensures
        ({
            let held = records_from(
                recorded_all(generations, archive_count, records),
                archive_count,
            );
            let all = records_from(generations, archive_count) + records.map_values(
                |record: (R, bool)| record.0,
            );
            &&& are_last(held, all)
            &&& records.len() > 0 ==> held.len() > 0
        }),
    decreases records.len(),
{
    let start = records_from(generations, archive_count);
    let all = start + records.map_values(|record: (R, bool)| record.0);
    if records.len() == 0 {
        assert(all == start);
        assert(start == all.skip(0));
    } else {
        let shorter = records.drop_last();
        let earlier = recorded_all(generations, archive_count, shorter);
        let before = records_from(earlier, archive_count);
        let (record, archives) = records.last();
        let known = start + shorter.map_values(|record: (R, bool)| record.0);
        lemma_logs_hold_the_last_records(generations, archive_count, shorter);
        lemma_record_ends_the_log(earlier, archive_count, record, archives);
        let held = records_from(recorded_all(generations, archive_count, records), archive_count);
        assert(all == known.push(record));
        assert(before.push(record) == all.skip(all.len() - before.len() - 1));
        if archives {
            let gone = records_of(earlier, archive_count);
            assert(held == before.push(record).skip(gone.len() as int));
            assert(held == all.skip(all.len() - held.len()));
            if archive_count == 0 {
                assert(records_from(earlier, 0) == gone);
            }
            assert(held.len() > 0) by {
                assert(before.push(record).len() == gone.len() + held.len());
                assert(before.len() >= gone.len());
            }
        }
    }
}

/// What stands behind the name of a log in the name of an archived one.
pub fn archive_suffix(generation: usize) -> (suffix: String)
    ensures
        suffix@ == "."@ + decimal_text(generation as nat),
{
    let mut suffix = owned(".");
    let number = natural_to_text(generation as u64);
    suffix.append(number.as_str());
    suffix
}

/// The fields of a record that have a place of their own in an event go there, and the others
/// stay fields, as they are.
pub proof fn lemma_fields_find_their_places(
    fields: Map<Seq<char>, JsonValue>,
    name: Seq<char>,
    target: Seq<char>,
    event: LogEvent,
    key: Seq<char>,
)
    requires
        is_promoted(fields, name, target, event),
    ensures
        ({
            let placed = key == "message"@ || key == "subsystem"@ || key == "event"@ || key
                == "playback_session_id"@ || key == "request_id"@ || key == "session_id"@ || key
                == "provider"@ || key == "error_kind"@ || key == "duration_ms"@ || key
                == "status"@;
            &&& event.fields@.contains_key(key) <==> fields.contains_key(key) && !placed
            &&& event.fields@.contains_key(key) ==> event.fields@[key] == fields[key]
        }),
{
}

/// What becomes of the known fields of a record: a text field becomes that part of the event;
/// without a message or an event the name of the record stands there, and without a subsystem
/// its target.
pub proof fn lemma_known_fields_become_parts(
    fields: Map<Seq<char>, JsonValue>,
    name: Seq<char>,
    target: Seq<char>,
    event: LogEvent,
    text: String,
)
    requires
        is_promoted(fields, name, target, event),
    ensures
        fields.contains_key("message"@) && fields["message"@] == JsonValue::String(text)
            ==> event.message@ == text@,
        !fields.contains_key("message"@) ==> event.message@ == name,
        fields.contains_key("subsystem"@) && fields["subsystem"@] == JsonValue::String(text)
            ==> event.subsystem@ == text@,
        !fields.contains_key("subsystem"@) ==> event.subsystem@ == target,
        fields.contains_key("event"@) && fields["event"@] == JsonValue::String(text)
            ==> event.event@ == text@,
        !fields.contains_key("event"@) ==> event.event@ == name,
        event.target is Some && event.target->0@ == target,
        fields.contains_key("playback_session_id"@) && fields["playback_session_id"@]
            == JsonValue::String(text) ==> option_view(event.playback_session_id) == Some(text@),
        fields.contains_key("request_id"@) && fields["request_id"@] == JsonValue::String(text)
            ==> option_view(event.request_id) == Some(text@),
        fields.contains_key("session_id"@) && fields["session_id"@] == JsonValue::String(text)
            ==> option_view(event.session_id) == Some(text@),
        fields.contains_key("provider"@) && fields["provider"@] == JsonValue::String(text)
            ==> option_view(event.provider) == Some(text@),
        fields.contains_key("error_kind"@) && fields["error_kind"@] == JsonValue::String(text)
            ==> option_view(event.error_kind) == Some(text@),
        fields.contains_key("status"@) ==> event.status == Some(fields["status"@]),
        !fields.contains_key("status"@) ==> event.status is None,
        !fields.contains_key("duration_ms"@) ==> event.duration_ms is None,
        !fields.contains_key("provider"@) ==> event.provider is None,
{
}

/// A duration is the number that the field holds, also where it is written as a text.
pub proof fn lemma_durations_are_numbers(number: u64, digits: String)
    requires
        number < 0x20_0000_0000_0000,
        digits@.len() > 0,
        all_digits(digits@),
        digits_value(digits@) == number,
    ensures
        number_of(JsonValue::Number(JsonNumber::Natural(number))) matches Some(duration)
            && duration.finite() && duration.value() == number * two_to(1074),
        number_of(JsonValue::String(digits)) == number_of(
            JsonValue::Number(JsonNumber::Natural(number)),
        ),
        number_of(JsonValue::Null) is None,
{
    lemma_integer_is_exact(number as int);
    lemma_digits_are_read(digits@);
}

/// A log is archived before a record where it holds something and would grow beyond its
/// limit, and not before a record that fits.
pub proof fn lemma_logs_are_archived_when_full(rotation: Rotation, length: int)
    requires
        length >= 0,
    ensures
        rotation.bytes_written + length <= rotation.rotation_bytes ==> !rotates_before(
            rotation,
            length,
        ) && written_after(rotation, length) == rotation.bytes_written + length,
        rotation.bytes_written == 0 ==> !rotates_before(rotation, length),
        rotation.bytes_written > 0 && rotation.bytes_written + length > rotation.rotation_bytes
            ==> rotates_before(rotation, length) && written_after(rotation, length) == length,
{
}

/// An event that the full queue refuses is lost with all that it stands for; one that is sent
/// is not lost.
pub proof fn lemma_refused_events_are_lost(outcome: SendOutcome, stands_for: u64, lost: u64)
    requires
        call_ensures(lost_events, (outcome, stands_for), lost),
    ensures
        outcome == SendOutcome::Full ==> lost == stands_for,
        outcome == SendOutcome::Sent ==> lost == 0,
        outcome == SendOutcome::Disconnected ==> lost == 0,
{
}

}
