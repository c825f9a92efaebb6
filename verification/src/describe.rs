//! The texts in which events are shown.
use vstd::prelude::*;

use crate::bookmark::{compact_identifier, shortened};
use crate::event::{correlation_of, status_of, status_text, tag_of, LogEvent};
use crate::json::{
    compact, decimal_text, digit_char, integer_text, integer_to_text, lemma_decimal_text_reads,
    lemma_digit_reads, natural_to_text, option_view, push_compact, push_decimal, quote, quoted,
    JsonValue,
};
use crate::layout::TableColumn;
use crate::level::level_text;
use crate::list::add_new;
use crate::natural::ten_to;
use crate::numeral::{all_digits, digits_value, is_digit};
use crate::text::{chars_of, join, joined, owned, same, trim, trimmed, upper, views};
use crate::time::{elapsed, Timestamp};

verus! {

/// A member of an object, where there is one of a name.
pub open spec fn member_of(members: Seq<(String, JsonValue)>, name: Seq<char>) -> Option<JsonValue>
    decreases members.len(),
{
    if members.len() == 0 {
        None
    } else if members[0].0@ == name {
        Some(members[0].1)
    } else {
        member_of(members.drop_first(), name)
    }
}

/// The text of a member of an object, without white space at its ends, where it
/// is not empty.
pub open spec fn member_text(members: Seq<(String, JsonValue)>, name: Seq<char>) -> Option<
    Seq<char>,
> {
    match member_of(members, name) {
        Some(JsonValue::String(text)) => if trimmed(text@).len() > 0 {
            Some(trimmed(text@))
        } else {
            None
        },
        _ => None,
    }
}

/// The text of a member of an object.
fn text_of_member(members: &Vec<(String, JsonValue)>, name: &str) -> (text: Option<String>)
    ensures
        option_view(text) == member_text(members@, name@),
{
    let mut index: usize = 0;
    assert(members@.skip(0) == members@);
    while index < members.len()
        invariant
            index <= members.len(),
            member_of(members@, name@) == member_of(members@.skip(index as int), name@),
        decreases members.len() - index,
    {
        assert(members@.skip(index as int).drop_first() == members@.skip(index + 1));
        if same(members[index].0.as_str(), name) {
            if let JsonValue::String(text) = &members[index].1 {
                let text = trim(text.as_str());
                if !text.as_str().is_empty() {
                    return Some(text);
                }
            }
            return None;
        }
        index += 1;
    }
    None
}

/// What an argument tells of an error beside the message.
pub open spec fn argument_detail(argument: JsonValue, message: Seq<char>) -> Option<Seq<char>> {
    match argument {
        JsonValue::Object(members) => match member_text(members@, "message"@) {
            Some(text) => if text == message {
                None
            } else {
                match member_text(members@, "name"@) {
                    Some(name) => Some(name + ": "@ + text),
                    None => Some(text),
                }
            },
            None => None,
        },
        _ => None,
    }
}

/// What arguments tell, each once.
pub open spec fn argument_details(arguments: Seq<JsonValue>, message: Seq<char>) -> Seq<Seq<char>>
    decreases arguments.len(),
{
    if arguments.len() == 0 {
        Seq::empty()
    } else {
        let before = argument_details(arguments.drop_last(), message);
        match argument_detail(arguments.last(), message) {
            Some(detail) => if before.contains(detail) {
                before
            } else {
                before.push(detail)
            },
            None => before,
        }
    }
}

/// The arguments of an event.
pub open spec fn arguments_of(event: LogEvent) -> Option<JsonValue> {
    if event.fields@.contains_key("arguments"@) {
        Some(event.fields@["arguments"@])
    } else if event.fields@.contains_key("args"@) {
        Some(event.fields@["args"@])
    } else {
        None
    }
}

/// What the arguments of a console message tell of errors beside the message.
pub open spec fn console_details(event: LogEvent) -> Option<Seq<char>> {
    if event.event@ != "console.message"@ {
        None
    } else {
        match arguments_of(event) {
            Some(JsonValue::Array(arguments)) => {
                let details = argument_details(arguments@, event.message@);
                if details.len() > 0 {
                    Some(joined(details, " · "@))
                } else {
                    None
                }
            },
            _ => None,
        }
    }
}

/// What an argument tells of an error beside the message.
fn detail_of(argument: &JsonValue, message: &str) -> (detail: Option<String>)
    ensures
        option_view(detail) == argument_detail(*argument, message@),
{
    if let JsonValue::Object(members) = argument {
        if let Some(text) = text_of_member(members, "message") {
            if same(text.as_str(), message) {
                return None;
            }
            return match text_of_member(members, "name") {
                Some(name) => {
                    let mut detail = name;
                    detail.append(": ");
                    detail.append(text.as_str());
                    Some(detail)
                },
                None => Some(text),
            };
        }
    }
    None
}

/// The arguments of an event.
fn event_arguments(event: &LogEvent) -> (arguments: Option<&JsonValue>)
    ensures
        match arguments {
            Some(value) => arguments_of(*event) == Some(*value),
            None => arguments_of(*event) is None,
        },
{
    match event.fields.get("arguments") {
        Some(value) => Some(value),
        None => event.fields.get("args"),
    }
}

/// What the arguments of a console message tell of errors beside the message.
pub fn console_argument_summary(event: &LogEvent) -> (summary: Option<String>)
    ensures
        option_view(summary) == console_details(*event),
{
    if !same(event.event.as_str(), "console.message") {
        return None;
    }
    if let Some(JsonValue::Array(arguments)) = event_arguments(event) {
        let mut details: Vec<String> = Vec::new();
        let mut index: usize = 0;
        assert(arguments@.take(0) == Seq::<JsonValue>::empty());
        assert(views(details@) == Seq::<Seq<char>>::empty());
        while index < arguments.len()
            invariant
                index <= arguments.len(),
                views(details@) == argument_details(
                    arguments@.take(index as int),
                    event.message@,
                ),
            decreases arguments.len() - index,
        {
            assert(arguments@.take(index + 1).drop_last() == arguments@.take(index as int));
            if let Some(detail) = detail_of(&arguments[index], event.message.as_str()) {
                add_new(&mut details, detail);
            }
            index += 1;
        }
        assert(arguments@.take(index as int) == arguments@);
        assert(views(details@).len() == details@.len());
        if details.len() > 0 {
            return Some(join(&details, " · "));
        }
    }
    None
}

/// The compact texts of some fields of an event, all but its arguments.
pub open spec fn field_texts(event: LogEvent, names: Seq<Seq<char>>) -> Seq<Seq<char>>
    decreases names.len(),
{
    if names.len() == 0 {
        Seq::empty()
    } else {
        let before = field_texts(event, names.drop_last());
        let name = names.last();
        if name == "arguments"@ || name == "args"@ {
            before
        } else {
            before.push(quoted(name) + ":"@ + compact(event.fields@[name]))
        }
    }
}

/// What is told of the fields of an event: its arguments, and its other fields.
pub open spec fn field_summaries(event: LogEvent) -> Seq<Seq<char>> {
    let others = field_texts(event, event.fields.ordered());
    (match arguments_of(event) {
        Some(arguments) => seq!["args: "@ + compact(arguments)],
        None => Seq::empty(),
    }) + (if others.len() > 0 {
        seq!["fields: {"@ + joined(others, ","@) + "}"@]
    } else {
        Seq::empty()
    })
}

/// What is told of the fields of an event, where they are to be shown.
pub fn event_field_summaries(event: &LogEvent, show_fields: bool) -> (summaries: Vec<String>)
    ensures
        views(summaries@) == if show_fields {
            field_summaries(*event)
        } else {
            Seq::empty()
        },
{
    let mut summaries: Vec<String> = Vec::new();
    assert(views(summaries@) == Seq::<Seq<char>>::empty());
    if !show_fields {
        return summaries;
    }
    if let Some(arguments) = event_arguments(event) {
        let mut text = owned("args: ");
        push_compact(&mut text, arguments);
        summaries.push(text);
        assert(views(summaries@) == seq!["args: "@ + compact(*arguments)]);
    }
    let ghost first = views(summaries@);
    let ghost names = event.fields.ordered();
    let listed = event.fields.keys();
    let count: usize = event.fields.len();
    let mut others: Vec<String> = Vec::new();
    let mut index: usize = 0;
    assert(names.take(0) == Seq::<Seq<char>>::empty());
    assert(views(others@) == Seq::<Seq<char>>::empty());
    while index < count
        invariant
            index <= count,
            count == names.len(),
            names == event.fields.ordered(),
            views(others@) == field_texts(*event, names.take(index as int)),
        decreases count - index,
    {
        assert(names.take(index + 1).drop_last() == names.take(index as int));
        let name = event.fields.key_at(index);
        if !same(name.as_str(), "arguments") && !same(name.as_str(), "args") {
            let ghost before = views(others@);
            let mut text = quote(name.as_str());
            text.append(":");
            push_compact(&mut text, event.fields.value_at(index));
            others.push(text);
            assert(views(others@) == before.push(text@));
        }
        index += 1;
    }
    assert(names.take(index as int) == names);
    assert(views(others@).len() == others@.len());
    if others.len() > 0 {
        let mut text = owned("fields: {");
        let members = join(&others, ",");
        text.append(members.as_str());
        text.append("}");
        summaries.push(text);
        assert(views(summaries@) == first.push(text@));
    }
    assert(views(summaries@) == field_summaries(*event));
    summaries
}

/// What is told below the message of an event.
pub open spec fn details_of(
    event: LogEvent,
    show_fields: bool,
    group_detail: Option<Seq<char>>,
) -> Seq<Seq<char>> {
    (if show_fields {
        field_summaries(event)
    } else {
        match console_details(event) {
            Some(detail) => seq![detail],
            None => Seq::empty(),
        }
    }) + (match group_detail {
        Some(detail) => seq![detail],
        None => Seq::empty(),
    })
}

/// What is told below the message of an event: of its arguments or its fields, and
/// of its group.
pub fn message_details(event: &LogEvent, show_fields: bool, group_detail: Option<String>) -> (
details: Vec<String>)
    ensures
        views(details@) == details_of(*event, show_fields, option_view(group_detail)),
{
    let mut details = event_field_summaries(event, show_fields);
    if !show_fields {
        if let Some(detail) = console_argument_summary(event) {
            details.push(detail);
            assert(views(details@) == seq![detail@]);
        }
    }
    let ghost before = views(details@);
    if let Some(detail) = group_detail {
        details.push(detail);
        assert(views(details@) == before.push(detail@));
    }
    assert(views(details@) == details_of(*event, show_fields, option_view(group_detail)));
    details
}

/// What stands in a cell of the table.
pub enum Cell {
    /// A text.
    Text(String),
    /// Nothing.
    Missing,
    /// What is shown in a way of its own: a time, a duration or a message.
    Special,
}

/// The text of a cell of the table, where it is a plain one.
pub open spec fn cell_text(column: TableColumn, event: LogEvent) -> Option<Seq<char>> {
    match column {
        TableColumn::Level => Some(shouted(level_text(event.level))),
        TableColumn::Source => Some(event.source@),
        TableColumn::Tag => Some(tag_of(event.message@, event.subsystem@)),
        TableColumn::Subsystem => Some(event.subsystem@),
        TableColumn::Event => Some(event.event@),
        TableColumn::Provider => match event.provider {
            Some(provider) => if provider@.len() > 0 {
                Some(provider@)
            } else {
                None
            },
            None => None,
        },
        TableColumn::Correlation => Some(correlation_of(event)),
        TableColumn::Status => {
            let status = status_of(event.status);
            if status.len() > 0 && status != "-"@ {
                Some(status)
            } else {
                None
            }
        },
        _ => None,
    }
}

/// A text with the letters of the Latin alphabet without diacritics in upper
/// case.
pub open spec fn shouted(text: Seq<char>) -> Seq<char> {
    text.map_values(|character: char| upper(character))
}

/// A text with the letters of the Latin alphabet without diacritics in upper
/// case.
fn to_upper(text: &str) -> (result: String)
    ensures
        result@ == shouted(text@),
{
    let characters = chars_of(text);
    let mut result = String::new();
    let mut index: usize = 0;
    assert(shouted(text@).take(0) == Seq::<char>::empty());
    while index < characters.len()
        invariant
            index <= characters.len(),
            characters@ == text@,
            result@ == shouted(text@).take(index as int),
        decreases characters.len() - index,
    {
        let character = characters[index];
        if 'a' <= character && character <= 'z' {
            result.push(((character as u8) - 32) as char);
        } else {
            result.push(character);
        }
        assert(shouted(text@).take(index + 1) == shouted(text@).take(index as int).push(
            shouted(text@)[index as int],
        ));
        index += 1;
    }
    assert(shouted(text@).take(index as int) == shouted(text@));
    result
}

/// Whether a cell of a column is shown in a way of its own.
pub open spec fn is_special(column: TableColumn) -> bool {
    column is Timestamp || column is RelativeTime || column is Duration || column is Message
}

/// What stands in a cell of the table.
pub fn cell(column: TableColumn, event: &LogEvent) -> (cell: Cell)
    ensures
        cell is Special <==> is_special(column),
        !is_special(column) ==> match cell {
            Cell::Text(text) => cell_text(column, *event) == Some(text@),
            Cell::Missing => cell_text(column, *event) is None,
            Cell::Special => false,
        },
{
    match column {
        TableColumn::Timestamp
        | TableColumn::RelativeTime
        | TableColumn::Duration
        | TableColumn::Message => Cell::Special,
        TableColumn::Level => Cell::Text(to_upper(event.level.name())),
        TableColumn::Source => Cell::Text(event.source.clone()),
        TableColumn::Tag => Cell::Text(event.tag()),
        TableColumn::Subsystem => Cell::Text(event.subsystem.clone()),
        TableColumn::Event => Cell::Text(event.event.clone()),
        TableColumn::Provider => match &event.provider {
            Some(provider) => if provider.as_str().is_empty() {
                Cell::Missing
            } else {
                Cell::Text(provider.clone())
            },
            None => Cell::Missing,
        },
        TableColumn::Correlation => Cell::Text(owned(event.correlation_id())),
        TableColumn::Status => {
            let status = status_text(event.status.as_ref());
            if status.as_str().is_empty() || same(status.as_str(), "-") {
                Cell::Missing
            } else {
                Cell::Text(status)
            }
        },
    }
}

/// The last digits of a number.
pub open spec fn padded(number: nat, digits: nat) -> Seq<char>
    decreases digits,
{
    if digits == 0 {
        Seq::empty()
    } else {
        padded(number / 10, (digits - 1) as nat).push(digit_char(number % 10))
    }
}

/// Appends the last digits of a number.
fn push_padded(text: &mut String, number: u64, digits: u8)
    ensures
        final(text)@ == old(text)@ + padded(number as nat, digits as nat),
    decreases digits,
{
    if digits > 0 {
        push_padded(text, number / 10, digits - 1);
        let digit: u8 = (number % 10) as u8;
        text.push((48 + digit) as char);
    }
    assert(text@ == old(text)@ + padded(number as nat, digits as nat));
}

/// Milliseconds as seconds with three decimals.
pub open spec fn seconds_text(milliseconds: nat) -> Seq<char> {
    decimal_text(milliseconds / 1000) + "."@ + padded(milliseconds % 1000, 3) + "s"@
}

/// A time from a start, with its sign: in seconds, in minutes and seconds, or in
/// hours and minutes.
pub open spec fn relative_text(milliseconds: int) -> Seq<char> {
    let size: nat = (if milliseconds < 0 {
        -milliseconds
    } else {
        milliseconds
    }) as nat;
    (if milliseconds < 0 {
        "-"@
    } else {
        "+"@
    }) + (if size < 60_000 {
        seconds_text(size)
    } else if size < 3_600_000 {
        decimal_text(size / 60_000) + "m "@ + seconds_text(size % 60_000)
    } else {
        decimal_text(size / 3_600_000) + "h "@ + padded(size % 3_600_000 / 60_000, 2) + "m"@
    })
}

/// Appends milliseconds as seconds with three decimals.
fn push_seconds(text: &mut String, milliseconds: u64)
    ensures
        final(text)@ == old(text)@ + seconds_text(milliseconds as nat),
{
    push_decimal(text, milliseconds / 1000);
    text.append(".");
    push_padded(text, milliseconds % 1000, 3);
    text.append("s");
    assert(text@ == old(text)@ + seconds_text(milliseconds as nat));
}

/// A time from a start, with its sign.
pub fn format_relative_elapsed(milliseconds: i64) -> (text: String)
    ensures
        text@ == relative_text(milliseconds as int),
{
    let size: u64 = if milliseconds < 0 {
        (-(milliseconds as i128)) as u64
    } else {
        milliseconds as u64
    };
    let mut text = if milliseconds < 0 {
        owned("-")
    } else {
        owned("+")
    };
    if size < 60_000 {
        push_seconds(&mut text, size);
    } else if size < 3_600_000 {
        push_decimal(&mut text, size / 60_000);
        text.append("m ");
        push_seconds(&mut text, size % 60_000);
    } else {
        push_decimal(&mut text, size / 3_600_000);
        text.append("h ");
        push_padded(&mut text, size % 3_600_000 / 60_000, 2);
        text.append("m");
    }
    assert(text@ == relative_text(milliseconds as int));
    text
}

/// How a time is shown.
pub enum ElapsedText {
    /// In a text.
    Exact(String),
    /// In seconds with one decimal; these are the milliseconds.
    Seconds(i64),
}

/// How a time is shown: below a second in milliseconds, below a minute in seconds,
/// and else in minutes and seconds.
pub fn format_elapsed(milliseconds: i64) -> (shown: ElapsedText)
    ensures
        match shown {
            ElapsedText::Exact(text) => {
                ||| milliseconds < 1_000 && text@ == integer_text(milliseconds as int) + " ms"@
                ||| milliseconds >= 60_000 && text@ == decimal_text(
                    milliseconds as nat / 60_000,
                ) + "m "@ + padded(milliseconds as nat % 60_000 / 1_000, 2) + "s"@
            },
            ElapsedText::Seconds(given) => 1_000 <= milliseconds < 60_000 && given == milliseconds,
        },
{
    if milliseconds < 1_000 {
        let mut text = integer_to_text(milliseconds);
        text.append(" ms");
        return ElapsedText::Exact(text);
    }
    if milliseconds < 60_000 {
        return ElapsedText::Seconds(milliseconds);
    }
    let size: u64 = milliseconds as u64;
    let mut text = natural_to_text(size / 60_000);
    text.append("m ");
    push_padded(&mut text, size % 60_000 / 1_000, 2);
    text.append("s");
    ElapsedText::Exact(text)
}

/// What is known of a pinned event.
pub struct PinInfo {
    pub timestamp: Timestamp,
    pub event: String,
    pub correlation: String,
}

/// How many characters of a correlation are shown with a pinned event.
pub const PIN_CORRELATION: usize = 14;

/// The time of the last of some pinned events that is known.
pub open spec fn last_pin_time(pins: Seq<Option<PinInfo>>) -> Option<Timestamp>
    decreases pins.len(),
{
    if pins.len() == 0 {
        None
    } else {
        match pins.last() {
            Some(pin) => Some(pin.timestamp),
            None => last_pin_time(pins.drop_last()),
        }
    }
}

/// The text of a pinned event, given the time of the one before it.
pub open spec fn pin_label(previous: Option<Timestamp>, pin: Option<PinInfo>) -> Seq<char> {
    match pin {
        Some(pin) => (match previous {
            Some(time) => relative_text(
                elapsed(time.seconds(), time.nanos(), pin.timestamp.seconds(), pin.timestamp.nanos()),
            ) + " · "@,
            None => Seq::empty(),
        }) + pin.event@ + " · "@ + shortened(pin.correlation@, PIN_CORRELATION as int),
        None => "Unavailable event"@,
    }
}

/// The texts of pinned events, each with the time from the one before it.
pub fn pin_labels(pins: &Vec<Option<PinInfo>>) -> (labels: Vec<String>)
    ensures
        labels@.len() == pins@.len(),
        forall|i: int|
            0 <= i < pins@.len() ==> (#[trigger] labels@[i])@ == pin_label(
                last_pin_time(pins@.take(i)),
                pins@[i],
            ),
{
    let mut labels: Vec<String> = Vec::new();
    let mut previous: Option<Timestamp> = None;
    let mut index: usize = 0;
    assert(pins@.take(0) == Seq::<Option<PinInfo>>::empty());
    while index < pins.len()
        invariant
            index <= pins.len(),
            labels@.len() == index,
            previous == last_pin_time(pins@.take(index as int)),
            forall|i: int|
                0 <= i < index ==> (#[trigger] labels@[i])@ == pin_label(
                    last_pin_time(pins@.take(i)),
                    pins@[i],
                ),
        decreases pins.len() - index,
    {
        assert(pins@.take(index + 1).drop_last() == pins@.take(index as int));
        match &pins[index] {
            Some(pin) => {
                let mut label = match previous {
                    Some(time) => {
                        let milliseconds: i64 = pin.timestamp.milliseconds_since(time);
                        let mut text = format_relative_elapsed(milliseconds);
                        text.append(" · ");
                        text
                    },
                    None => String::new(),
                };
                label.append(pin.event.as_str());
                label.append(" · ");
                let correlation = compact_identifier(pin.correlation.as_str(), PIN_CORRELATION);
                label.append(correlation.as_str());
                labels.push(label);
                previous = Some(pin.timestamp);
            },
            None => {
                labels.push(owned("Unavailable event"));
            },
        }
        index += 1;
    }
    labels
}

/// The time between the first and the last of the pinned events, in milliseconds,
/// where there are two of them and both are known.
pub fn pin_span(pins: &Vec<Option<PinInfo>>) -> (span: Option<i64>)
    ensures
        span == if pins@.len() < 2 {
            None
        } else {
            match (pins@[0], pins@.last()) {
                (Some(first), Some(last)) => Some(
                    elapsed(
                        first.timestamp.seconds(),
                        first.timestamp.nanos(),
                        last.timestamp.seconds(),
                        last.timestamp.nanos(),
                    ) as i64,
                ),
                _ => None,
            }
        },
{
    if pins.len() < 2 {
        return None;
    }
    match (&pins[0], &pins[pins.len() - 1]) {
        (Some(first), Some(last)) => Some(last.timestamp.milliseconds_since(first.timestamp)),
        _ => None,
    }
}

/// The last digits of a number stand for what is left of it.
proof fn lemma_padded_reads(number: nat, digits: nat)
    ensures
        padded(number, digits).len() == digits,
        all_digits(padded(number, digits)),
        digits_value(padded(number, digits)) == number % ten_to(digits),
    decreases digits,
{
    reveal_with_fuel(digits_value, 2);
    if digits > 0 {
        let before = padded(number / 10, (digits - 1) as nat);
        let text = padded(number, digits);
        lemma_padded_reads(number / 10, (digits - 1) as nat);
        lemma_digit_reads(number % 10);
        assert(text.drop_last() == before);
        assert forall|i: int| 0 <= i < text.len() implies is_digit(#[trigger] text[i]) by {
            if i < before.len() {
                assert(text[i] == before[i]);
            }
        }
        let scale = ten_to((digits - 1) as nat);
        assert(ten_to(digits) == 10 * scale);
        lemma_ten_to_positive((digits - 1) as nat);
        assert(10 * ((number / 10) % scale) + number % 10 == number % (10 * scale))
            by (nonlinear_arith)
            requires
                scale > 0,
        {
            let rest = number / 10;
            let (times, left) = (rest / scale, rest % scale);
            assert(rest == scale * times + left && 0 <= left < scale);
            assert(number == 10 * rest + number % 10);
            assert(number == (10 * scale) * times + (10 * left + number % 10));
            assert(0 <= 10 * left + number % 10 < 10 * scale);
            assert(number % (10 * scale) == 10 * left + number % 10);
        }
    } else {
        assert(number % 1 == 0);
    }
}

proof fn lemma_ten_to_positive(exponent: nat)
    ensures
        ten_to(exponent) > 0,
    decreases exponent,
{
    if exponent > 0 {
        lemma_ten_to_positive((exponent - 1) as nat);
    }
}

/// Whether a text is made of digits that stand for a number.
pub open spec fn is_numeral(text: Seq<char>, number: int) -> bool {
    text.len() > 0 && all_digits(text) && digits_value(text) == number
}

/// Whether a text tells seconds with three decimals.
pub open spec fn tells_seconds(text: Seq<char>, milliseconds: int) -> bool {
    exists|whole: Seq<char>, part: Seq<char>|
        {
            &&& #[trigger] is_numeral(whole, digits_value(whole) as int)
            &&& #[trigger] is_numeral(part, digits_value(part) as int)
            &&& part.len() == 3
            &&& text == whole + "."@ + part + "s"@
            &&& digits_value(whole) * 1000 + digits_value(part) == milliseconds
        }
}

/// Whether a text tells minutes and seconds with three decimals.
pub open spec fn tells_minutes(text: Seq<char>, milliseconds: int) -> bool {
    exists|minutes: Seq<char>, seconds: Seq<char>|
        {
            &&& #[trigger] is_numeral(minutes, milliseconds / 60_000)
            &&& #[trigger] tells_seconds(seconds, milliseconds % 60_000)
            &&& text == minutes + "m "@ + seconds
        }
}

/// Whether a text tells hours and minutes.
pub open spec fn tells_hours(text: Seq<char>, milliseconds: int) -> bool {
    exists|hours: Seq<char>, minutes: Seq<char>|
        {
            &&& #[trigger] is_numeral(hours, milliseconds / 3_600_000)
            &&& #[trigger] is_numeral(minutes, (milliseconds / 60_000) % 60)
            &&& minutes.len() == 2
            &&& text == hours + "h "@ + minutes + "m"@
        }
}

proof fn lemma_minutes_are_told(size: nat)
    ensures
        tells_minutes(
            decimal_text(size / 60_000) + "m "@ + seconds_text(size % 60_000),
            size as int,
        ),
{
    let minutes = decimal_text(size / 60_000);
    let seconds = seconds_text(size % 60_000);
    lemma_decimal_text_reads(size / 60_000);
    lemma_seconds_text_tells(size % 60_000);
    assert(is_numeral(minutes, size as int / 60_000));
    assert(tells_seconds(seconds, size as int % 60_000));
}

proof fn lemma_hours_are_told(size: nat)
    ensures
        tells_hours(
            decimal_text(size / 3_600_000) + "h "@ + padded(size % 3_600_000 / 60_000, 2) + "m"@,
            size as int,
        ),
{
    let hours = decimal_text(size / 3_600_000);
    let minutes = padded(size % 3_600_000 / 60_000, 2);
    lemma_decimal_text_reads(size / 3_600_000);
    lemma_padded_reads(size % 3_600_000 / 60_000, 2);
    assert(ten_to(2) == 100) by {
        reveal_with_fuel(ten_to, 3);
    }
    assert(size % 3_600_000 / 60_000 == (size / 60_000) % 60);
    assert(is_numeral(hours, size as int / 3_600_000));
    assert(is_numeral(minutes, (size as int / 60_000) % 60));
}

/// The text of a time from a start says, behind its sign, how long it is: in seconds with
/// three decimals below a minute, in minutes and such seconds below an hour, and else in
/// hours and minutes, without the seconds.
pub proof fn lemma_relative_text_tells_time(milliseconds: int)
    ensures
        ({
            let size = if milliseconds < 0 {
                -milliseconds
            } else {
                milliseconds
            };
            let text = relative_text(milliseconds);
            &&& text.len() > 0
            &&& text[0] == (if milliseconds < 0 {
                '-'
            } else {
                '+'
            })
            &&& size < 60_000 ==> tells_seconds(text.skip(1), size)
            &&& 60_000 <= size < 3_600_000 ==> tells_minutes(text.skip(1), size)
            &&& size >= 3_600_000 ==> tells_hours(text.skip(1), size)
        }),
{
    reveal_strlit("-");
    reveal_strlit("+");
    let size: nat = (if milliseconds < 0 {
        -milliseconds
    } else {
        milliseconds
    }) as nat;
    let sign = if milliseconds < 0 {
        "-"@
    } else {
        "+"@
    };
    let rest = if size < 60_000 {
        seconds_text(size)
    } else if size < 3_600_000 {
        decimal_text(size / 60_000) + "m "@ + seconds_text(size % 60_000)
    } else {
        decimal_text(size / 3_600_000) + "h "@ + padded(size % 3_600_000 / 60_000, 2) + "m"@
    };
    assert(relative_text(milliseconds) == sign + rest);
    assert((sign + rest).skip(1) =~= rest);
    lemma_seconds_text_tells(size);
    lemma_minutes_are_told(size);
    lemma_hours_are_told(size);
}

proof fn lemma_seconds_text_tells(milliseconds: nat)
    ensures
        tells_seconds(seconds_text(milliseconds), milliseconds as int),
{
    let whole = decimal_text(milliseconds / 1000);
    let part = padded(milliseconds % 1000, 3);
    lemma_decimal_text_reads(milliseconds / 1000);
    lemma_padded_reads(milliseconds % 1000, 3);
    assert(ten_to(3) == 1000) by {
        reveal_with_fuel(ten_to, 4);
    }
    assert(is_numeral(whole, digits_value(whole) as int));
    assert(is_numeral(part, digits_value(part) as int));
}

/// The text of a pinned event tells the time from the last one before it that is known, its
/// name and the start of its correlation; without one before it, no time.
pub proof fn lemma_pins_are_told_in_a_row(pins: Seq<Option<PinInfo>>, index: int, previous: int)
    requires
        0 <= index < pins.len(),
        pins[index] is Some,
        -1 <= previous < index,
        previous >= 0 ==> pins[previous] is Some,
        forall|i: int| previous < i < index ==> (#[trigger] pins[i]) is None,
    ensures
        ({
            let pin = pins[index]->0;
            let named = pin.event@ + " · "@ + shortened(pin.correlation@, 14);
            let label = pin_label(last_pin_time(pins.take(index)), pins[index]);
            &&& previous < 0 ==> label == named
            &&& previous >= 0 ==> {
                let before = pins[previous]->0.timestamp;
                label == relative_text(
                    elapsed(
                        before.seconds(),
                        before.nanos(),
                        pin.timestamp.seconds(),
                        pin.timestamp.nanos(),
                    ),
                ) + " · "@ + named
            }
        }),
{
    lemma_last_known_pin(pins.take(index), previous);
    let pin = pins[index]->0;
    let named = pin.event@ + " · "@ + shortened(pin.correlation@, 14);
    let label = pin_label(last_pin_time(pins.take(index)), pins[index]);
    if previous < 0 {
        assert(label == Seq::<char>::empty() + pin.event@ + " · "@ + shortened(
            pin.correlation@,
            14,
        ));
        assert(label == named);
    } else {
        let before = pins[previous]->0.timestamp;
        let time = relative_text(
            elapsed(
                before.seconds(),
                before.nanos(),
                pin.timestamp.seconds(),
                pin.timestamp.nanos(),
            ),
        );
        assert(label == time + " · "@ + pin.event@ + " · "@ + shortened(pin.correlation@, 14));
        assert(label == time + " · "@ + named);
    }
}

proof fn lemma_last_known_pin(pins: Seq<Option<PinInfo>>, previous: int)
    requires
        -1 <= previous < pins.len(),
        previous >= 0 ==> pins[previous] is Some,
        forall|i: int| previous < i < pins.len() ==> (#[trigger] pins[i]) is None,
    ensures
        previous < 0 ==> last_pin_time(pins) is None,
        previous >= 0 ==> last_pin_time(pins) == Some(pins[previous]->0.timestamp),
    decreases pins.len(),
{
    if pins.len() > 0 && previous < pins.len() - 1 {
        assert(pins[pins.len() - 1] is None);
        let before = pins.drop_last();
        assert forall|i: int| previous < i < before.len() implies (#[trigger] before[i]) is None by {
            assert(before[i] == pins[i]);
        }
        lemma_last_known_pin(before, previous);
    }
}

/// What a console message tells beside its text: each argument that is an error with another
/// message, as its name and message, once and in order. Other events tell nothing.
pub proof fn lemma_console_tells_each_error_once(arguments: Seq<JsonValue>, message: Seq<char>)
    ensures
        argument_details(arguments, message).no_duplicates(),
        forall|detail: Seq<char>| #[trigger]
            argument_details(arguments, message).contains(detail) <==> exists|i: int|
                0 <= i < arguments.len() && argument_detail(#[trigger] arguments[i], message)
                    == Some(detail),
    decreases arguments.len(),
{
    if arguments.len() > 0 {
        let fewer = arguments.drop_last();
        let before = argument_details(fewer, message);
        let details = argument_details(arguments, message);
        lemma_console_tells_each_error_once(fewer, message);
        let told = argument_detail(arguments.last(), message);
        assert forall|detail: Seq<char>| #[trigger] details.contains(detail) <==> exists|i: int|
            0 <= i < arguments.len() && argument_detail(#[trigger] arguments[i], message) == Some(
                detail,
            ) by {
            assert(before.contains(detail) <==> exists|i: int|
                0 <= i < fewer.len() && argument_detail(#[trigger] fewer[i], message) == Some(
                    detail,
                ));
            if details.contains(detail) {
                if before.contains(detail) {
                    let i = choose|i: int|
                        0 <= i < fewer.len() && argument_detail(#[trigger] fewer[i], message)
                            == Some(detail);
                    assert(argument_detail(arguments[i], message) == Some(detail));
                } else {
                    assert(argument_detail(arguments[arguments.len() - 1], message) == Some(
                        detail,
                    ));
                }
            }
            if exists|i: int|
                0 <= i < arguments.len() && argument_detail(#[trigger] arguments[i], message)
                    == Some(detail) {
                let i = choose|i: int|
                    0 <= i < arguments.len() && argument_detail(#[trigger] arguments[i], message)
                        == Some(detail);
                if i < fewer.len() {
                    assert(argument_detail(fewer[i], message) == Some(detail));
                    assert(before.contains(detail));
                    let place = choose|place: int|
                        0 <= place < before.len() && before[place] == detail;
                    assert(details[place] == detail);
                } else if before.contains(detail) {
                    assert(details == before);
                } else {
                    assert(details == before.push(detail));
                    assert(details[details.len() - 1] == detail);
                }
            }
        }
    }
}

/// What an error among the arguments tells: its message, with its name in front where it has
/// one, unless it is the message of the event.
pub proof fn lemma_error_is_told_by_name(
    name: String,
    text: String,
    members: Vec<(String, JsonValue)>,
    message: Seq<char>,
)
    requires
        member_of(members@, "message"@) == Some(JsonValue::String(text)),
        trimmed(text@) == text@ && text@.len() > 0,
    ensures
        text@ == message ==> argument_detail(JsonValue::Object(members), message) is None,
        text@ != message && member_of(members@, "name"@) == Some(JsonValue::String(name))
            && trimmed(name@) == name@ && name@.len() > 0 ==> argument_detail(
            JsonValue::Object(members),
            message,
        ) == Some(name@ + ": "@ + text@),
        text@ != message && member_of(members@, "name"@) is None ==> argument_detail(
            JsonValue::Object(members),
            message,
        ) == Some(text@),
{
}

/// The cells of the table show the parts of an event that their columns name: the level in
/// capitals, and nothing where there is no provider and no status.
pub proof fn lemma_cells_show_parts(event: LogEvent)
    ensures
        cell_text(TableColumn::Source, event) == Some(event.source@),
        cell_text(TableColumn::Tag, event) == Some(tag_of(event.message@, event.subsystem@)),
        cell_text(TableColumn::Subsystem, event) == Some(event.subsystem@),
        cell_text(TableColumn::Event, event) == Some(event.event@),
        cell_text(TableColumn::Correlation, event) == Some(correlation_of(event)),
        event.provider is None ==> cell_text(TableColumn::Provider, event) is None,
        event.provider is Some && event.provider->0@.len() > 0 ==> cell_text(
            TableColumn::Provider,
            event,
        ) == Some(event.provider->0@),
        event.status is None ==> cell_text(TableColumn::Status, event) is None,
        event.level is Trace ==> cell_text(TableColumn::Level, event) == Some("TRACE"@),
        event.level is Debug ==> cell_text(TableColumn::Level, event) == Some("DEBUG"@),
        event.level is Info ==> cell_text(TableColumn::Level, event) == Some("INFO"@),
        event.level is Warn ==> cell_text(TableColumn::Level, event) == Some("WARN"@),
        event.level is Error ==> cell_text(TableColumn::Level, event) == Some("ERROR"@),
        event.level is Fatal ==> cell_text(TableColumn::Level, event) == Some("FATAL"@),
{
    reveal_strlit("trace");
    reveal_strlit("debug");
    reveal_strlit("info");
    reveal_strlit("warn");
    reveal_strlit("error");
    reveal_strlit("fatal");
    reveal_strlit("TRACE");
    reveal_strlit("DEBUG");
    reveal_strlit("INFO");
    reveal_strlit("WARN");
    reveal_strlit("ERROR");
    reveal_strlit("FATAL");
    assert(shouted("trace"@) =~= "TRACE"@);
    assert(shouted("debug"@) =~= "DEBUG"@);
    assert(shouted("info"@) =~= "INFO"@);
    assert(shouted("warn"@) =~= "WARN"@);
    assert(shouted("error"@) =~= "ERROR"@);
    assert(shouted("fatal"@) =~= "FATAL"@);
}

/// The fields of an event that are no arguments are told one by one, under their names.
pub proof fn lemma_other_fields_are_told(event: LogEvent, names: Seq<Seq<char>>)
    ensures
        field_texts(event, names) == names.filter(
            |name: Seq<char>| name != "arguments"@ && name != "args"@,
        ).map_values(|name: Seq<char>| quoted(name) + ":"@ + compact(event.fields@[name])),
    decreases names.len(),
{
    reveal(Seq::filter);
    let test = |name: Seq<char>| name != "arguments"@ && name != "args"@;
    let tell = |name: Seq<char>| quoted(name) + ":"@ + compact(event.fields@[name]);
    if names.len() > 0 {
        lemma_other_fields_are_told(event, names.drop_last());
        let kept = names.drop_last().filter(test);
        if test(names.last()) {
            assert(kept.push(names.last()).map_values(tell) == kept.map_values(tell).push(
                tell(names.last()),
            ));
        }
    } else {
        assert(names.filter(test).map_values(tell) == Seq::<Seq<char>>::empty());
    }
}

/// Only messages of the console tell of their arguments; and where fields are shown, they are
/// shown in place of that. What is told of a group comes last.
pub proof fn lemma_details_of_messages(event: LogEvent, group: Seq<char>)
    ensures
        event.event@ != "console.message"@ ==> console_details(event) is None,
        event.event@ != "console.message"@ ==> details_of(event, false, None).len() == 0,
        details_of(event, true, None) == field_summaries(event),
        details_of(event, false, Some(group)).last() == group,
        details_of(event, true, Some(group)).last() == group,
        console_details(event) is Some ==> details_of(event, false, None) == seq![
            console_details(event)->0,
        ],
{
    assert(details_of(event, true, None) =~= field_summaries(event));
    if console_details(event) is Some {
        assert(details_of(event, false, None) =~= seq![console_details(event)->0]);
    }
}

/// The arguments of an event are in its field `arguments`, or else in its field `args`.
pub proof fn lemma_arguments_are_in_a_field(event: LogEvent)
    ensures
        event.fields@.contains_key("arguments"@) ==> arguments_of(event) == Some(
            event.fields@["arguments"@],
        ),
        !event.fields@.contains_key("arguments"@) && event.fields@.contains_key("args"@)
            ==> arguments_of(event) == Some(event.fields@["args"@]),
        !event.fields@.contains_key("arguments"@) && !event.fields@.contains_key("args"@)
            ==> arguments_of(event) is None,
        field_summaries(event).len() <= 2,
        arguments_of(event) is Some ==> field_summaries(event)[0] == "args: "@ + compact(
            arguments_of(event)->0,
        ),
{
}

}
