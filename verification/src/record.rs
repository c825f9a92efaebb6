//! The records of events: one JSON object in one line.
use vstd::prelude::*;
use vstd::utf8::encode_utf8;

use crate::event::LogEvent;
use crate::hash::{fingerprint, fingerprint_of};
use crate::json::{
    compact, compact_members, integer_text, integer_to_text, is_one_line,
    lemma_compact_is_one_line, lemma_integer_is_one_line, lemma_quoted_is_one_line,
    numbers_in_line, option_view, push_compact, quote, quoted, JsonValue,
};
use crate::ordered::TextMap;
use crate::pin::{pin_views, PinModel, PinnedEvent};
use crate::schema::{
    encodes, field_name, optional_written, writes, written_members, EventField, Written,
};
use crate::store::{text_view, EventStore};
use crate::text::{join, joined, owned, same, views};
use crate::viewer::{place_view, ring_place, ring_step, LogView};

verus! {

/// The text of a member of a JSON object.
pub open spec fn member_text(name: Seq<char>, value: Seq<char>) -> Seq<char> {
    quoted(name) + seq![':'] + value
}

/// The texts of the fields of an event.
pub open spec fn field_texts(names: Seq<Seq<char>>, fields: Map<Seq<char>, JsonValue>) -> Seq<
    Seq<char>,
> {
    names.map_values(|name: Seq<char>| member_text(name, compact(fields[name])))
}

/// The text of what is written of a member.
pub open spec fn written_text(written: Written) -> Seq<char> {
    match written {
        Written::Integer(number) => integer_text(number),
        Written::Text(text) => quoted(text),
        Written::Duration(_, text) => text,
        Written::Value(value) => compact(value),
        Written::Fields(names, fields) => seq!['{'] + joined(field_texts(names, fields), ","@) + seq![
            '}',
        ],
    }
}

/// The texts of the members that are written.
pub open spec fn member_texts(written: Seq<(EventField, Option<Written>)>) -> Seq<Seq<char>>
    decreases written.len(),
{
    if written.len() == 0 {
        Seq::empty()
    } else {
        match written.last().1 {
            Some(value) => member_texts(written.drop_last()).push(
                member_text(field_name(written.last().0), written_text(value)),
            ),
            None => member_texts(written.drop_last()),
        }
    }
}

/// The record of an event.
pub open spec fn record_of_event(event: LogEvent, duration_text: Seq<char>) -> Seq<char> {
    seq!['{'] + joined(member_texts(written_members(event, duration_text)), ","@) + seq!['}']
}

/// Adds a member, where there is one.
fn add_member(
    members: &mut Vec<String>,
    field: EventField,
    value: Option<String>,
    Ghost(written): Ghost<Seq<(EventField, Option<Written>)>>,
    Ghost(index): Ghost<int>,
)
    requires
        0 <= index < written.len(),
        views(old(members)@) == member_texts(written.take(index)),
        written[index].0 == field,
        match written[index].1 {
            Some(expected) => value is Some && value->0@ == written_text(expected),
            None => value is None,
        },
    ensures
        views(final(members)@) == member_texts(written.take(index + 1)),
{
    proof {
        assert(written.take(index + 1).drop_last() == written.take(index));
    }
    if let Some(value) = value {
        let ghost before = views(members@);
        let mut member = quote(field.name());
        member.push(':');
        member.append(value.as_str());
        assert(member@ == member_text(field_name(field), value@));
        members.push(member);
        assert(views(members@) == before.push(member@));
    }
}

/// The text of an optional text that is written.
fn optional_text(text: &Option<String>) -> (value: Option<String>)
    ensures
        match optional_written(*text) {
            Some(expected) => value is Some && value->0@ == written_text(expected),
            None => value is None,
        },
{
    match text {
        Some(text) => Some(quote(text.as_str())),
        None => None,
    }
}

/// The text of the fields of an event.
fn fields_text(fields: &TextMap<JsonValue>) -> (text: String)
    ensures
        text@ == written_text(Written::Fields(fields.ordered(), fields@)),
{
    let count = fields.keys().len();
    let ghost names = fields.ordered();
    let mut members: Vec<String> = Vec::new();
    let mut index: usize = 0;
    assert(views(members@) == field_texts(names, fields@).take(0));
    while index < count
        invariant
            index <= count,
            count == names.len(),
            names == fields.ordered(),
            views(members@) == field_texts(names, fields@).take(index as int),
        decreases count - index,
    {
        let ghost before = views(members@);
        let mut member = quote(fields.key_at(index).as_str());
        member.push(':');
        push_compact(&mut member, fields.value_at(index));
        assert(member@ == member_text(names[index as int], compact(fields@[names[index as int]])));
        members.push(member);
        assert(views(members@) == before.push(member@));
        assert(field_texts(names, fields@).len() == names.len());
        assert(views(members@) == field_texts(names, fields@).take(index + 1));
        index += 1;
    }
    assert(field_texts(names, fields@).take(index as int) == field_texts(names, fields@));
    let mut text = owned("{");
    let inside = join(&members, ",");
    text.append(inside.as_str());
    text.push('}');
    proof {
        reveal_strlit("{");
        assert("{"@ == seq!['{']);
    }
    text
}

impl LogEvent {
    /// The record of the event. The text of the duration is written where the event
    /// has one.
    #[verifier::rlimit(40)]
    pub fn to_record(&self, duration_text: &str) -> (record: String)
        ensures
            record@ == record_of_event(*self, duration_text@),
    {
        let ghost written = written_members(*self, duration_text@);
        let mut members: Vec<String> = Vec::new();
        assert(views(members@) == member_texts(written.take(0)));
        let version = integer_to_text(self.schema_version as i64);
        add_member(&mut members, EventField::SchemaVersion, Some(version), Ghost(written), Ghost(0));
        let time = integer_to_text(self.timestamp.timestamp_millis());
        add_member(&mut members, EventField::Timestamp, Some(time), Ghost(written), Ghost(1));
        let level = quote(self.level.name());
        add_member(&mut members, EventField::Level, Some(level), Ghost(written), Ghost(2));
        let source = quote(self.source.as_str());
        add_member(&mut members, EventField::Source, Some(source), Ghost(written), Ghost(3));
        let subsystem = quote(self.subsystem.as_str());
        add_member(&mut members, EventField::Subsystem, Some(subsystem), Ghost(written), Ghost(4));
        let target = optional_text(&self.target);
        add_member(&mut members, EventField::Target, target, Ghost(written), Ghost(5));
        let event = quote(self.event.as_str());
        add_member(&mut members, EventField::Event, Some(event), Ghost(written), Ghost(6));
        let message = quote(self.message.as_str());
        add_member(&mut members, EventField::Message, Some(message), Ghost(written), Ghost(7));
        let session = quote(self.app_session_id.as_str());
        add_member(&mut members, EventField::AppSessionId, Some(session), Ghost(written), Ghost(8));
        let playback = optional_text(&self.playback_session_id);
        add_member(
            &mut members,
            EventField::PlaybackSessionId,
            playback,
            Ghost(written),
            Ghost(9),
        );
        let request = optional_text(&self.request_id);
        add_member(&mut members, EventField::RequestId, request, Ghost(written), Ghost(10));
        let session = optional_text(&self.session_id);
        add_member(&mut members, EventField::SessionId, session, Ghost(written), Ghost(11));
        let provider = optional_text(&self.provider);
        add_member(&mut members, EventField::Provider, provider, Ghost(written), Ghost(12));
        let duration = match self.duration_ms {
            Some(_) => Some(owned(duration_text)),
            None => None,
        };
        add_member(&mut members, EventField::DurationMs, duration, Ghost(written), Ghost(13));
        let kind = optional_text(&self.error_kind);
        add_member(&mut members, EventField::ErrorKind, kind, Ghost(written), Ghost(14));
        let status = match &self.status {
            Some(value) => {
                let mut text = String::new();
                push_compact(&mut text, value);
                assert(text@ == compact(*value));
                Some(text)
            },
            None => None,
        };
        add_member(&mut members, EventField::Status, status, Ghost(written), Ghost(15));
        let fields = if self.fields.is_empty() {
            None
        } else {
            Some(fields_text(&self.fields))
        };
        add_member(&mut members, EventField::Fields, fields, Ghost(written), Ghost(16));
        assert(written.take(17) == written);
        let mut record = owned("{");
        let inside = join(&members, ",");
        record.append(inside.as_str());
        record.push('}');
        proof {
            reveal_strlit("{");
            assert("{"@ == seq!['{']);
        }
        record
    }
}

/// The fingerprint by which an event is pinned: that of its record.
pub fn event_pin_key(event: &LogEvent, duration_text: &str) -> (key: String)
    ensures
        key@ == fingerprint_of(encode_utf8(record_of_event(*event, duration_text@))),
{
    let record = event.to_record(duration_text);
    fingerprint(record.as_str().as_bytes())
}

/// The records of the events in rows, in the order of the rows. Each row has a text for
/// the duration of its event; a row without an event has no record.
pub open spec fn records_in(
    events: Seq<LogEvent>,
    rows: Seq<usize>,
    duration_texts: Seq<Seq<char>>,
) -> Seq<Seq<char>>
    decreases rows.len(),
{
    if rows.len() == 0 {
        Seq::empty()
    } else {
        let before = records_in(events, rows.drop_last(), duration_texts);
        let row = rows.last();
        if row < events.len() {
            before.push(record_of_event(events[row as int], duration_texts[rows.len() - 1]))
        } else {
            before
        }
    }
}

/// The records of the events that a view shows, in the order in which it lists them. The
/// texts are those of the durations of the events in its rows.
pub fn exported_records(view: &LogView, duration_texts: &Vec<String>) -> (records: Vec<String>)
    requires
        duration_texts@.len() == view.visible_rows@.len(),
    ensures
        views(records@) == records_in(
            view.store@.events,
            view.visible_rows@,
            views(duration_texts@),
        ),
{
    let rows = &view.visible_rows;
    let mut records: Vec<String> = Vec::new();
    let mut index: usize = 0;
    assert(rows@.take(0) == Seq::<usize>::empty());
    assert(views(records@) == Seq::<Seq<char>>::empty());
    while index < rows.len()
        invariant
            index <= rows.len(),
            *rows == view.visible_rows,
            duration_texts@.len() == rows@.len(),
            views(records@) == records_in(
                view.store@.events,
                rows@.take(index as int),
                views(duration_texts@),
            ),
        decreases rows.len() - index,
    {
        assert(rows@.take(index + 1).drop_last() == rows@.take(index as int));
        assert(views(duration_texts@)[index as int] == duration_texts@[index as int]@);
        if let Some(event) = view.store.get(rows[index]) {
            let ghost before = views(records@);
            let record = event.to_record(duration_texts[index].as_str());
            records.push(record);
            assert(views(records@) == before.push(record@));
        }
        index += 1;
    }
    assert(rows@.take(index as int) == rows@);
    records
}

/// Whether an event is the one that is pinned by a fingerprint.
pub open spec fn has_pin_key(event: LogEvent, duration_text: Seq<char>, key: Seq<char>) -> bool {
    fingerprint_of(encode_utf8(record_of_event(event, duration_text))) == key
}

/// The first event that is pinned by a fingerprint. The texts are those of the
/// durations of the events.
pub fn event_index_by_key(store: &EventStore, duration_texts: &Vec<String>, key: &str) -> (found:
    Option<usize>)
    requires
        duration_texts@.len() == store@.events.len(),
    ensures
        match found {
            Some(row) => {
                &&& row < store@.events.len()
                &&& has_pin_key(store@.events[row as int], duration_texts@[row as int]@, key@)
                &&& forall|i: int|
                    0 <= i < row ==> !has_pin_key(
                        #[trigger] store@.events[i],
                        duration_texts@[i]@,
                        key@,
                    )
            },
            None => forall|i: int|
                0 <= i < store@.events.len() ==> !has_pin_key(
                    #[trigger] store@.events[i],
                    duration_texts@[i]@,
                    key@,
                ),
        },
{
    let mut row: usize = 0;
    while row < store.len()
        invariant
            row <= store@.events.len(),
            duration_texts@.len() == store@.events.len(),
            forall|i: int|
                0 <= i < row ==> !has_pin_key(
                    #[trigger] store@.events[i],
                    duration_texts@[i]@,
                    key@,
                ),
        decreases store@.events.len() - row,
    {
        if let Some(event) = store.get(row) {
            let found = event_pin_key(event, duration_texts[row].as_str());
            if same(found.as_str(), key) {
                return Some(row);
            }
        }
        row += 1;
    }
    None
}

/// Whether an event that is held is pinned by a fingerprint.
pub open spec fn holds_pinned(
    events: Seq<LogEvent>,
    duration_texts: Seq<String>,
    key: Seq<char>,
) -> bool {
    exists|i: int|
        0 <= i < events.len() && has_pin_key(#[trigger] events[i], duration_texts[i]@, key)
}

/// The fingerprints of the first of some pinned events, without those of which no
/// event is held.
pub open spec fn held_keys(
    events: Seq<LogEvent>,
    duration_texts: Seq<String>,
    pins: Seq<PinModel>,
) -> Seq<Seq<char>>
    decreases pins.len(),
{
    if pins.len() == 0 {
        Seq::empty()
    } else {
        let before = held_keys(events, duration_texts, pins.drop_last());
        if holds_pinned(events, duration_texts, pins.last().key) {
            before.push(pins.last().key)
        } else {
            before
        }
    }
}

/// Where a text stands first in a list, where it does.
pub open spec fn first_place(texts: Seq<Seq<char>>, text: Option<Seq<char>>) -> Option<int> {
    match text {
        Some(text) => texts.index_of_first(text),
        None => None,
    }
}

/// Where a text stands first in a list.
fn position_of_text(texts: &Vec<String>, text: &str) -> (place: Option<usize>)
    ensures
        place_view(place) == first_place(views(texts@), Some(text@)),
        place matches Some(place) ==> place < texts@.len(),
{
    let ghost all = views(texts@);
    let mut index: usize = 0;
    while index < texts.len()
        invariant
            index <= texts.len(),
            all == views(texts@),
            forall|i: int| 0 <= i < index ==> #[trigger] all[i] != text@,
        decreases texts.len() - index,
    {
        assert(all[index as int] == texts@[index as int]@);
        if same(texts[index].as_str(), text) {
            proof {
                all.index_of_first_ensures(text@);
                assert(all.index_of_first(text@)->0 == index);
            }
            return Some(index);
        }
        index += 1;
    }
    proof {
        all.index_of_first_ensures(text@);
    }
    None
}

/// The fingerprint of the pinned event after or before the selected one, and around
/// the ends, among those that are held.
pub fn next_pin_key(
    store: &EventStore,
    duration_texts: &Vec<String>,
    pins: &Vec<PinnedEvent>,
    selected: Option<&str>,
    forward: bool,
) -> (key: Option<String>)
    requires
        duration_texts@.len() == store@.events.len(),
    ensures
        ({
            let keys = held_keys(store@.events, duration_texts@, pin_views(pins@));
            let current = first_place(keys, text_view(selected));
            option_view(key) == if keys.len() == 0 {
                None
            } else {
                Some(keys[ring_place(keys.len() as int, current, forward, 1)])
            }
        }),
{
    let ghost models = pin_views(pins@);
    let ghost events = store@.events;
    let mut keys: Vec<String> = Vec::new();
    let mut index: usize = 0;
    assert(models.take(0) == Seq::<PinModel>::empty());
    assert(views(keys@) == held_keys(events, duration_texts@, models.take(0)));
    while index < pins.len()
        invariant
            index <= pins.len(),
            models == pin_views(pins@),
            events == store@.events,
            duration_texts@.len() == events.len(),
            views(keys@) == held_keys(events, duration_texts@, models.take(index as int)),
        decreases pins.len() - index,
    {
        let ghost before = views(keys@);
        let key = pins[index].key.as_str();
        assert(models.take(index + 1).drop_last() == models.take(index as int));
        assert(models.take(index + 1).last() == pins@[index as int]@);
        match event_index_by_key(store, duration_texts, key) {
            Some(row) => {
                assert(has_pin_key(events[row as int], duration_texts@[row as int]@, key@));
                assert(holds_pinned(events, duration_texts@, key@));
                keys.push(owned(key));
                assert(views(keys@) == before.push(key@));
            },
            None => {
                assert(!holds_pinned(events, duration_texts@, key@));
            },
        }
        index += 1;
    }
    assert(models.take(index as int) == models);
    if keys.len() == 0 {
        return None;
    }
    let current: Option<usize> = match selected {
        Some(selected) => position_of_text(&keys, selected),
        None => None,
    };
    let place: usize = ring_step(keys.len(), current, forward, 1);
    assert(views(keys@)[place as int] == keys@[place as int]@);
    Some(keys[place].clone())
}

/// The texts of members with commas between them are those of an object.
proof fn lemma_joined_members(members: Seq<(String, JsonValue)>, texts: Seq<Seq<char>>)
    requires
        members.len() == texts.len(),
        forall|i: int|
            0 <= i < members.len() ==> #[trigger] texts[i] == member_text(
                members[i].0@,
                compact(members[i].1),
            ),
    ensures
        compact_members(members) == joined(texts, ","@),
    decreases members.len(),
{
    reveal_strlit(",");
    assert(","@ == seq![',']);
    if members.len() == 1 {
        assert(texts[0] == member_text(members[0].0@, compact(members[0].1)));
    } else if members.len() > 1 {
        lemma_joined_members(members.drop_last(), texts.drop_last());
        assert(texts.last() == member_text(members.last().0@, compact(members.last().1)));
        assert(compact_members(members) =~= joined(texts, ","@));
    }
}

/// A value that is written has the text that is written of it.
proof fn lemma_written_value(value: JsonValue, written: Written)
    requires
        writes(value, written),
    ensures
        compact(value) == written_text(written),
{
    match written {
        Written::Integer(number) => {
            assert(compact(value) == integer_text(number));
        },
        Written::Text(text) => {},
        Written::Duration(number, text) => {},
        Written::Value(expected) => {},
        Written::Fields(names, fields) => {
            let members = value->Object_0@;
            let texts = field_texts(names, fields);
            assert forall|i: int| 0 <= i < members.len() implies #[trigger] texts[i]
                == member_text(members[i].0@, compact(members[i].1)) by {
                assert(members[i].0@ == names[i]);
            }
            lemma_joined_members(members, texts);
        },
    }
}

proof fn lemma_members_have_texts(
    members: Seq<(String, JsonValue)>,
    written: Seq<(EventField, Option<Written>)>,
)
    requires
        encodes(members, written),
    ensures
        member_texts(written).len() == members.len(),
        forall|i: int|
            0 <= i < members.len() ==> #[trigger] member_texts(written)[i] == member_text(
                members[i].0@,
                compact(members[i].1),
            ),
    decreases written.len(),
{
    if written.len() > 0 {
        match written.last().1 {
            Some(expected) => {
                lemma_members_have_texts(members.drop_last(), written.drop_last());
                lemma_written_value(members.last().1, expected);
                let before = member_texts(written.drop_last());
                assert forall|i: int| 0 <= i < members.len() implies #[trigger] member_texts(
                    written,
                )[i] == member_text(members[i].0@, compact(members[i].1)) by {
                    if i < before.len() {
                        assert(before[i] == member_text(
                            members.drop_last()[i].0@,
                            compact(members.drop_last()[i].1),
                        ));
                    }
                }
            },
            None => {
                lemma_members_have_texts(members, written.drop_last());
            },
        }
    }
}

/// The record of an event is the compact text of the object whose members are
/// written for the event.
pub proof fn lemma_record_holds_members(
    event: LogEvent,
    duration_text: Seq<char>,
    members: Vec<(String, JsonValue)>,
)
    requires
        encodes(members@, written_members(event, duration_text)),
    ensures
        record_of_event(event, duration_text) == compact(JsonValue::Object(members)),
{
    let written = written_members(event, duration_text);
    lemma_members_have_texts(members@, written);
    lemma_joined_members(members@, member_texts(written));
}

/// Texts without an end of a line have none when commas stand between them.
proof fn lemma_joined_is_one_line(texts: Seq<Seq<char>>)
    requires
        forall|i: int| 0 <= i < texts.len() ==> is_one_line(#[trigger] texts[i]),
    ensures
        is_one_line(joined(texts, ","@)),
    decreases texts.len(),
{
    reveal_strlit(",");
    if texts.len() > 1 {
        lemma_joined_is_one_line(texts.drop_last());
        assert(is_one_line(texts.last()));
    } else if texts.len() == 1 {
        assert(is_one_line(texts[0]));
    }
}

/// Whether what is written holds no end of a line but inside texts.
spec fn in_line(written: Written) -> bool {
    match written {
        Written::Duration(_, text) => is_one_line(text),
        Written::Value(value) => numbers_in_line(value),
        Written::Fields(names, fields) => forall|i: int|
            0 <= i < names.len() ==> numbers_in_line(fields[#[trigger] names[i]]),
        _ => true,
    }
}

proof fn lemma_written_is_one_line(written: Written)
    requires
        in_line(written),
    ensures
        is_one_line(written_text(written)),
{
    match written {
        Written::Integer(number) => {
            lemma_integer_is_one_line(number);
        },
        Written::Text(text) => {
            lemma_quoted_is_one_line(text);
        },
        Written::Duration(_, text) => {},
        Written::Value(value) => {
            lemma_compact_is_one_line(value);
        },
        Written::Fields(names, fields) => {
            let texts = field_texts(names, fields);
            assert forall|i: int| 0 <= i < texts.len() implies is_one_line(#[trigger] texts[i]) by {
                lemma_quoted_is_one_line(names[i]);
                lemma_compact_is_one_line(fields[names[i]]);
            }
            lemma_joined_is_one_line(texts);
        },
    }
}

proof fn lemma_members_are_one_line(written: Seq<(EventField, Option<Written>)>)
    requires
        forall|i: int|
            0 <= i < written.len() ==> match (#[trigger] written[i]).1 {
                Some(value) => in_line(value),
                None => true,
            },
    ensures
        forall|i: int|
            0 <= i < member_texts(written).len() ==> is_one_line(
                #[trigger] member_texts(written)[i],
            ),
    decreases written.len(),
{
    if written.len() > 0 {
        lemma_members_are_one_line(written.drop_last());
        if let Some(value) = written.last().1 {
            assert(in_line(value)) by {
                assert(written[written.len() - 1].1 == Some(value));
            }
            lemma_quoted_is_one_line(field_name(written.last().0));
            lemma_written_is_one_line(value);
            let earlier = member_texts(written.drop_last());
            let last = member_text(field_name(written.last().0), written_text(value));
            assert(is_one_line(last));
            assert(member_texts(written) == earlier.push(last));
        }
    }
}

/// The record of an event is a single line, whatever its texts hold, as long as the texts
/// of its numbers are.
pub proof fn lemma_record_is_one_line(event: LogEvent, duration_text: Seq<char>)
    requires
        event.duration_ms is Some ==> is_one_line(duration_text),
        match event.status {
            Some(value) => numbers_in_line(value),
            None => true,
        },
        forall|name: Seq<char>| #[trigger]
            event.fields@.contains_key(name) ==> numbers_in_line(event.fields@[name]),
    ensures
        is_one_line(record_of_event(event, duration_text)),
{
    let written = written_members(event, duration_text);
    assert forall|i: int| 0 <= i < written.len() implies match (#[trigger] written[i]).1 {
        Some(value) => in_line(value),
        None => true,
    } by {
        if i == 16 {
            let names = event.fields.ordered();
            assert forall|k: int| 0 <= k < names.len() implies numbers_in_line(
                event.fields@[#[trigger] names[k]],
            ) by {
                event.fields.lemma_listed_keys();
                assert(names.contains(names[k]));
                assert(event.fields@.dom().contains(names[k]));
            }
        }
    }
    lemma_members_are_one_line(written);
    lemma_joined_is_one_line(member_texts(written));
}

}
