//! Equivalent events, which the table shows as one row.
use vstd::prelude::*;

use crate::event::LogEvent;
use crate::follow::{newest_first, LatestAt};
use crate::json::{decimal_text, natural_to_text, option_view, JsonValue};
use crate::level::Level;
use crate::numeral::is_digit;
use crate::ordered::TextMap;
use crate::store::EventStore;
use crate::text::{
    chars_of, is_space, is_whitespace, join, joined, lemma_trim_end_add, lemma_trim_end_keeps,
    lemma_trim_start_add, lemma_trim_start_keeps, lower, lowercase_of, lowered, owned, to_lowercase, trim,
    trim_end, trim_end_spec, trim_start_spec, trimmed, views,
};

verus! {

/// A text in which each run of digits is one mark, each run of white space is one
/// space, and every other character is in lower case.
pub open spec fn folded(text: Seq<char>) -> Seq<char>
    decreases text.len(),
{
    if text.len() == 0 {
        Seq::empty()
    } else {
        let before = folded(text.drop_last());
        let character = text.last();
        let previous = text[text.len() - 2];
        if is_digit(character) {
            if text.len() > 1 && is_digit(previous) {
                before
            } else {
                before.push('#')
            }
        } else if is_space(character) {
            if text.len() == 1 || is_space(previous) {
                before
            } else {
                before.push(' ')
            }
        } else {
            before + lowercase_of(character)
        }
    }
}

/// The shape of a text: what is left of it without numbers that change and
/// spacing.
pub open spec fn error_shape(text: Seq<char>) -> Seq<char> {
    trim_end_spec(folded(trimmed(text)))
}

/// The shape of a text.
pub fn normalize_error_shape(value: &str) -> (shape: String)
    ensures
        shape@ == error_shape(value@),
{
    let text = trim(value);
    let characters = chars_of(text.as_str());
    let mut normalized = String::new();
    let mut index: usize = 0;
    assert(text@.take(0) == Seq::<char>::empty());
    while index < characters.len()
        invariant
            index <= characters.len(),
            characters@ == text@,
            normalized@ == folded(text@.take(index as int)),
        decreases characters.len() - index,
    {
        let character = characters[index];
        let ghost prefix = text@.take(index + 1);
        assert(prefix.drop_last() == text@.take(index as int));
        if index > 0 {
            assert(prefix[prefix.len() - 2] == characters@[index - 1]);
        }
        if '0' <= character && character <= '9' {
            if !(index > 0 && '0' <= characters[index - 1] && characters[index - 1] <= '9') {
                normalized.push('#');
            }
        } else if is_whitespace(character) {
            if !(index == 0 || is_whitespace(characters[index - 1])) {
                normalized.push(' ');
            }
        } else {
            let lower = to_lowercase(character);
            normalized.append(lower.as_str());
        }
        index += 1;
    }
    assert(text@.take(index as int) == text@);
    trim_end(normalized.as_str())
}

/// Whether a text is a run of digits.
pub open spec fn is_number(text: Seq<char>) -> bool {
    text.len() > 0 && forall|i: int| 0 <= i < text.len() ==> is_digit(#[trigger] text[i])
}

/// Whether a text is a run of white space.
pub open spec fn is_spacing(text: Seq<char>) -> bool {
    text.len() > 0 && forall|i: int| 0 <= i < text.len() ==> is_space(#[trigger] text[i])
}

/// A run is folded to what one of its characters is.
proof fn lemma_folded_run(before: Seq<char>, run: Seq<char>, single: char)
    requires
        is_number(run) && is_digit(single) || is_spacing(run) && is_space(single),
    ensures
        folded(before + run) == folded(before.push(single)),
    decreases run.len(),
{
    let text = before + run;
    let shorter = run.drop_last();
    assert(text.drop_last() == before + shorter);
    assert(text.last() == run.last());
    assert(before.push(single).drop_last() == before);
    assert(is_digit(run.last()) || is_space(run.last()));
    if run.len() > 1 {
        assert(text[text.len() - 2] == run[run.len() - 2]);
        assert forall|i: int| 0 <= i < shorter.len() implies #[trigger] shorter[i] == run[i] by {}
        assert(is_number(run) ==> is_number(shorter));
        assert(is_spacing(run) ==> is_spacing(shorter));
        lemma_folded_run(before, shorter, single);
    } else {
        assert(before + shorter == before);
        if before.len() > 0 {
            assert(text[text.len() - 2] == before.last());
            assert(before.push(single)[before.len() - 1] == before.last());
        }
    }
}

/// What follows is folded alike behind texts that are folded alike and end alike.
proof fn lemma_folded_after(first: Seq<char>, second: Seq<char>, rest: Seq<char>)
    requires
        first.len() > 0,
        second.len() > 0,
        folded(first) == folded(second),
        is_digit(first.last()) == is_digit(second.last()),
        is_space(first.last()) == is_space(second.last()),
    ensures
        folded(first + rest) == folded(second + rest),
    decreases rest.len(),
{
    let left = first + rest;
    let right = second + rest;
    if rest.len() == 0 {
        assert(left == first);
        assert(right == second);
    } else {
        assert(left.drop_last() == first + rest.drop_last());
        assert(right.drop_last() == second + rest.drop_last());
        lemma_folded_after(first, second, rest.drop_last());
        if rest.len() == 1 {
            assert(left[left.len() - 2] == first.last());
            assert(right[right.len() - 2] == second.last());
        } else {
            assert(left[left.len() - 2] == rest[rest.len() - 2]);
            assert(right[right.len() - 2] == rest[rest.len() - 2]);
        }
    }
}

/// Texts that differ in one run are folded alike.
proof fn lemma_folded_around(before: Seq<char>, first: Seq<char>, second: Seq<char>, after: Seq<char>)
    requires
        is_number(first) && is_number(second) || is_spacing(first) && is_spacing(second),
    ensures
        folded(before + first + after) == folded(before + second + after),
{
    let single = first[0];
    lemma_folded_run(before, first, single);
    lemma_folded_run(before, second, single);
    assert((before + first).last() == first.last());
    assert((before + second).last() == second.last());
    lemma_folded_after(before + first, before + second, after);
}

/// The shape of a text does not depend on which digits stood in it: a number may be
/// replaced by another one.
pub proof fn lemma_shape_ignores_digits(
    before: Seq<char>,
    first: Seq<char>,
    second: Seq<char>,
    after: Seq<char>,
)
    requires
        is_number(first),
        is_number(second),
    ensures
        error_shape(before + first + after) == error_shape(before + second + after),
{
    lemma_trimmed_around_number(before, first, after);
    lemma_trimmed_around_number(before, second, after);
    lemma_folded_around(trim_start_spec(before), first, second, trim_end_spec(after));
}

/// A number keeps the white space at the ends of a text apart.
proof fn lemma_trimmed_around_number(before: Seq<char>, number: Seq<char>, after: Seq<char>)
    requires
        is_number(number),
    ensures
        trimmed(before + number + after) == trim_start_spec(before) + number + trim_end_spec(after),
{
    let start = trim_start_spec(before);
    assert(is_digit(number[0]));
    assert(is_digit(number.last()));
    assert(before + number + after == before + (number + after));
    lemma_trim_start_add(before, number + after);
    assert((number + after)[0] == number[0]);
    assert(trim_start_spec(before + number + after) == start + number + after) by {
        assert(Seq::<char>::empty() + number + after == number + after);
        assert(start + (number + after) == start + number + after);
    }
    lemma_trim_end_add(start + number, after);
    assert((start + number).last() == number.last());
    assert(start + number + Seq::<char>::empty() == start + number);
}

/// The shape of a text does not depend on how much white space stood in it: a run of it
/// may be replaced by one space.
pub proof fn lemma_shape_ignores_spacing(before: Seq<char>, spacing: Seq<char>, after: Seq<char>)
    requires
        is_spacing(spacing),
    ensures
        error_shape(before + spacing + after) == error_shape(before + seq![' '] + after),
{
    lemma_trimmed_around_spacing(before, spacing, after);
    lemma_trimmed_around_spacing(before, seq![' '], after);
    lemma_folded_around(trim_start_spec(before), spacing, seq![' '], trim_end_spec(after));
}

proof fn lemma_spacing_is_trimmed(spacing: Seq<char>)
    requires
        forall|i: int| 0 <= i < spacing.len() ==> is_space(#[trigger] spacing[i]),
    ensures
        trim_start_spec(spacing).len() == 0,
        trim_end_spec(spacing).len() == 0,
    decreases spacing.len(),
{
    if spacing.len() > 0 {
        lemma_spacing_is_trimmed(spacing.drop_first());
        lemma_spacing_is_trimmed(spacing.drop_last());
    }
}

/// White space at an end of a text is lost; elsewhere it stays.
proof fn lemma_trimmed_around_spacing(before: Seq<char>, spacing: Seq<char>, after: Seq<char>)
    requires
        is_spacing(spacing),
    ensures
        trimmed(before + spacing + after) == if trim_start_spec(before).len() == 0 {
            trimmed(after)
        } else if trim_end_spec(after).len() == 0 {
            trimmed(before)
        } else {
            trim_start_spec(before) + spacing + trim_end_spec(after)
        },
{
    let start = trim_start_spec(before);
    lemma_spacing_is_trimmed(spacing);
    assert(before + spacing + after == before + (spacing + after));
    lemma_trim_start_add(before, spacing + after);
    lemma_trim_start_add(spacing, after);
    if start.len() > 0 {
        assert(start + (spacing + after) == start + spacing + after);
        lemma_trim_end_add(start + spacing, after);
        lemma_trim_end_add(start, spacing);
    }
}

/// Whether the lower-case form of a character is a text in lower case without digits and
/// white space.
pub open spec fn settles(character: char) -> bool {
    let form = lowercase_of(character);
    &&& form.len() > 0
    &&& forall|i: int|
        0 <= i < form.len() ==> {
            &&& lowercase_of(#[trigger] form[i]) == seq![form[i]]
            &&& !is_digit(form[i])
            &&& !is_space(form[i])
        }
}

/// Whether every character of a text that is no digit and no white space has a lower-case
/// form that is in lower case itself.
pub open spec fn all_settle(text: Seq<char>) -> bool {
    forall|i: int|
        0 <= i < text.len() && !is_digit(#[trigger] text[i]) && !is_space(text[i]) ==> settles(
            text[i],
        )
}

/// The characters of an ASCII text have such forms.
pub proof fn lemma_ascii_settles(text: Seq<char>)
    requires
        forall|i: int| 0 <= i < text.len() ==> #[trigger] text[i] <= '\x7f',
    ensures
        all_settle(text),
{
    assert forall|i: int|
        0 <= i < text.len() && !is_digit(#[trigger] text[i]) && !is_space(text[i]) implies settles(
        text[i],
    ) by {
        let small = lower(text[i]);
        assert(lowercase_of(text[i]) == seq![small]);
        assert(lower(small) == small && !is_digit(small) && !is_space(small));
    }
}

/// Whether a character of a folded text may stand at a place.
pub open spec fn is_folded_at(text: Seq<char>, place: int) -> bool {
    &&& !is_digit(text[place])
    &&& lowercase_of(text[place]) == seq![text[place]]
    &&& is_space(text[place]) ==> text[place] == ' ' && place > 0 && !is_space(text[place - 1])
}

/// Whether a text has no digit, no letter in upper case, no white space but single
/// spaces, and none of these at its start.
pub open spec fn is_folded(text: Seq<char>) -> bool {
    forall|i: int| 0 <= i < text.len() ==> #[trigger] is_folded_at(text, i)
}

proof fn lemma_folded_is_folded(text: Seq<char>)
    requires
        all_settle(text),
        text.len() > 0 ==> !is_space(text[0]),
    ensures
        is_folded(folded(text)),
        text.len() > 0 ==> folded(text).len() > 0 && is_space(folded(text).last()) == is_space(
            text.last(),
        ),
    decreases text.len(),
{
    if text.len() > 0 {
        let shorter = text.drop_last();
        let character = text.last();
        assert forall|i: int| 0 <= i < shorter.len() implies #[trigger] shorter[i] == text[i] by {}
        assert(character == text[text.len() - 1]);
        lemma_folded_is_folded(shorter);
        let before = folded(shorter);
        let after = folded(text);
        if text.len() > 1 {
            assert(shorter.last() == text[text.len() - 2]);
        }
        let form = lowercase_of(character);
        if !is_digit(character) && !is_space(character) {
            assert(after == before + form);
            assert(settles(character));
            assert(after.last() == form[form.len() - 1]);
        }
        assert forall|i: int| 0 <= i < after.len() implies #[trigger] is_folded_at(after, i) by {
            if i < before.len() {
                assert(is_folded_at(before, i));
                assert(after[i] == before[i]);
                if i > 0 {
                    assert(after[i - 1] == before[i - 1]);
                }
            } else if !is_digit(character) && !is_space(character) {
                assert(after[i] == form[i - before.len()]);
            } else {
                assert(before.len() > 0 ==> after[i - 1] == before.last());
            }
        }
    }
}

/// Folding a folded text changes nothing.
proof fn lemma_folding_folded(text: Seq<char>)
    requires
        is_folded(text),
    ensures
        folded(text) == text,
    decreases text.len(),
{
    if text.len() > 0 {
        let shorter = text.drop_last();
        assert forall|i: int| 0 <= i < shorter.len() implies #[trigger] is_folded_at(
            shorter,
            i,
        ) by {
            assert(is_folded_at(text, i));
            assert(shorter[i] == text[i]);
            if i > 0 {
                assert(shorter[i - 1] == text[i - 1]);
            }
        }
        lemma_folding_folded(shorter);
        assert(is_folded_at(text, text.len() - 1));
        assert(text == shorter.push(text.last()));
        assert(shorter + seq![text.last()] == shorter.push(text.last()));
    }
}

/// The shape of a text has no digit, no letter in upper case, and no white space but single
/// spaces between other characters; and it is its own shape. This holds of every text whose
/// characters have lower-case forms that are in lower case themselves, and so of every
/// ASCII text.
pub proof fn lemma_shape_is_settled(text: Seq<char>)
    requires
        all_settle(text),
    ensures
        is_folded(error_shape(text)),
        error_shape(text).len() > 0 ==> !is_space(error_shape(text).last()),
        error_shape(error_shape(text)) == error_shape(text),
{
    let inner = trimmed(text);
    lemma_trimmed_settles(text);
    lemma_trim_start_keeps(text);
    lemma_trim_end_keeps(trim_start_spec(text));
    if inner.len() > 0 {
        assert(inner[0] == trim_start_spec(text)[0]);
    }
    lemma_folded_is_folded(inner);
    let shape = folded(inner);
    assert(error_shape(text) == shape);
    lemma_folding_folded(shape);
    if shape.len() > 0 {
        assert(is_folded_at(shape, 0));
        assert(!is_space(shape[0]));
    }
    assert(trimmed(shape) == shape);
}

proof fn lemma_trimmed_settles(text: Seq<char>)
    requires
        all_settle(text),
    ensures
        all_settle(trimmed(text)),
        all_settle(trim_start_spec(text)),
    decreases text.len(),
{
    let start = trim_start_spec(text);
    if text.len() > 0 && is_space(text[0]) {
        let rest = text.drop_first();
        assert forall|i: int|
            0 <= i < rest.len() && !is_digit(#[trigger] rest[i]) && !is_space(
                rest[i],
            ) implies settles(rest[i]) by {
            assert(rest[i] == text[i + 1]);
        }
        lemma_trimmed_settles(rest);
    }
    lemma_trim_end_keeps(start);
    let both = trim_end_spec(start);
    assert forall|i: int|
        0 <= i < both.len() && !is_digit(#[trigger] both[i]) && !is_space(both[i]) implies settles(
        both[i],
    ) by {
        assert(both[i] == start[i]);
    }
}

/// The text in a field of an event.
pub open spec fn field_text(event: LogEvent, key: Seq<char>) -> Option<Seq<char>> {
    if event.fields@.contains_key(key) {
        match event.fields@[key] {
            JsonValue::String(text) => Some(text@),
            _ => None,
        }
    } else {
        None
    }
}

/// The stack of an event, or nothing.
pub open spec fn stack_of(event: LogEvent) -> Seq<char> {
    match field_text(event, "stack"@) {
        Some(text) => text,
        None => match field_text(event, "stack_trace"@) {
            Some(text) => text,
            None => match field_text(event, "error_stack"@) {
                Some(text) => text,
                None => Seq::empty(),
            },
        },
    }
}

/// What equivalent events have in common.
pub open spec fn group_key(event: LogEvent) -> Seq<char> {
    joined(
        seq![
            event.source@,
            event.subsystem@,
            event.event@,
            match event.error_kind {
                Some(kind) => kind@,
                None => Seq::empty(),
            },
            error_shape(event.message@),
            error_shape(stack_of(event)),
        ],
        "\u{1f}"@,
    )
}

/// The text in a field of an event.
fn text_in_field(event: &LogEvent, key: &str) -> (text: Option<String>)
    ensures
        option_view(text) == field_text(*event, key@),
{
    match event.fields.get(key) {
        Some(JsonValue::String(text)) => Some(text.clone()),
        _ => None,
    }
}

/// What equivalent events have in common.
pub fn error_group_key(event: &LogEvent) -> (key: String)
    ensures
        key@ == group_key(*event),
{
    let stack = match text_in_field(event, "stack") {
        Some(text) => text,
        None => match text_in_field(event, "stack_trace") {
            Some(text) => text,
            None => match text_in_field(event, "error_stack") {
                Some(text) => text,
                None => String::new(),
            },
        },
    };
    let kind = match &event.error_kind {
        Some(kind) => kind.clone(),
        None => String::new(),
    };
    assert(stack@ == stack_of(*event));
    assert(kind@ == match event.error_kind {
        Some(kind) => kind@,
        None => Seq::empty(),
    });
    let mut parts: Vec<String> = Vec::new();
    parts.push(event.source.clone());
    parts.push(event.subsystem.clone());
    parts.push(event.event.clone());
    parts.push(kind);
    parts.push(normalize_error_shape(event.message.as_str()));
    parts.push(normalize_error_shape(stack.as_str()));
    let key = join(&parts, "\u{1f}");
    assert(key@ == joined(views(parts@), "\u{1f}"@));
    assert(views(parts@) == seq![
        event.source@,
        event.subsystem@,
        event.event@,
        match event.error_kind {
            Some(kind) => kind@,
            None => Seq::empty(),
        },
        error_shape(event.message@),
        error_shape(stack_of(*event)),
    ]);
    key
}

/// Whether an event is an error.
pub fn is_error_event(event: &LogEvent) -> (result: bool)
    ensures
        result == (event.level is Error || event.level is Fatal),
{
    match event.level {
        Level::Error | Level::Fatal => true,
        _ => false,
    }
}

/// Equivalent events: how many there are, and the rows of the first one, of the
/// one before the last, and of the last.
#[derive(Clone, Copy, PartialEq, Eq, Structural, Debug)]
pub struct ErrorGroup {
    pub count: usize,
    pub first_index: usize,
    pub previous_index: Option<usize>,
    pub latest_index: usize,
}

/// The test for rows of equivalent events.
pub open spec fn has_key(events: Seq<LogEvent>, key: Seq<char>) -> spec_fn(usize) -> bool {
    |row: usize| group_key(events[row as int]) == key
}

/// The rows of equivalent events, the newest first.
pub open spec fn members(events: Seq<LogEvent>, newest: Seq<usize>, key: Seq<char>) -> Seq<usize> {
    newest.filter(has_key(events, key))
}

/// Whether a group is that of some rows, the newest first.
pub open spec fn group_tells(group: ErrorGroup, rows: Seq<usize>) -> bool {
    &&& rows.len() > 0
    &&& group.count == rows.len()
    &&& group.latest_index == rows[0]
    &&& group.first_index == rows.last()
    &&& group.previous_index == if rows.len() > 1 {
        Some(rows[1])
    } else {
        None
    }
}

/// The test for rows that are the newest of their equivalent events.
pub open spec fn represents(events: Seq<LogEvent>, newest: Seq<usize>) -> spec_fn(usize) -> bool {
    |row: usize| members(events, newest, group_key(events[row as int]))[0] == row
}

/// The rows of the table, and where equivalent events are one row, their groups.
pub struct TableRows {
    pub rows: Vec<usize>,
    pub groups: Vec<ErrorGroup>,
}

/// Whether table rows show each of the groups of some rows as its newest row.
pub open spec fn is_grouped(
    events: Seq<LogEvent>,
    rows: Seq<usize>,
    latest_at: LatestAt,
    table: TableRows,
) -> bool {
    let newest = newest_first(rows, latest_at);
    &&& table.rows@ == rows.filter(represents(events, newest))
    &&& table.groups@.len() == table.rows@.len()
    &&& forall|i: int|
        0 <= i < table.rows@.len() ==> group_tells(
            #[trigger] table.groups@[i],
            members(events, newest, group_key(events[table.rows@[i] as int])),
        )
}

/// The members of a group among one row more.
proof fn lemma_members_push(events: Seq<LogEvent>, newest: Seq<usize>, row: usize, key: Seq<char>)
    ensures
        members(events, newest.push(row), key) == if group_key(events[row as int]) == key {
            members(events, newest, key).push(row)
        } else {
            members(events, newest, key)
        },
{
    reveal(Seq::filter);
    assert(newest.push(row).drop_last() == newest);
}

/// A row is a member of its own group.
proof fn lemma_own_member(events: Seq<LogEvent>, newest: Seq<usize>, row: usize)
    requires
        newest.contains(row),
    ensures
        members(events, newest, group_key(events[row as int])).len() > 0,
        members(events, newest, group_key(events[row as int])).contains(row),
    decreases newest.len(),
{
    let key = group_key(events[row as int]);
    let before = newest.drop_last();
    assert(before.push(newest.last()) == newest);
    lemma_members_push(events, before, newest.last(), key);
    let k = choose|k: int| 0 <= k < newest.len() && newest[k] == row;
    let all = members(events, newest, key);
    if k == newest.len() - 1 {
        assert(all[all.len() - 1] == row);
    } else {
        assert(before[k] == row);
        lemma_own_member(events, before, row);
        let earlier = members(events, before, key);
        let j = choose|j: int| 0 <= j < earlier.len() && earlier[j] == row;
        assert(all[j] == row);
    }
}

/// Whether groups by their keys are those of some rows.
spec fn groups_tell(
    groups: Map<Seq<char>, ErrorGroup>,
    events: Seq<LogEvent>,
    newest: Seq<usize>,
) -> bool {
    forall|key: Seq<char>|
        #![trigger members(events, newest, key)]
        if members(events, newest, key).len() > 0 {
            groups.contains_key(key) && group_tells(groups[key], members(events, newest, key))
        } else {
            !groups.contains_key(key)
        }
}

/// The members of a group are some of the rows.
proof fn lemma_members_bound(events: Seq<LogEvent>, newest: Seq<usize>, key: Seq<char>)
    ensures
        members(events, newest, key).len() <= newest.len(),
    decreases newest.len(),
{
    reveal(Seq::filter);
    if newest.len() > 0 {
        lemma_members_bound(events, newest.drop_last(), key);
        assert(newest.drop_last().push(newest.last()) == newest);
        lemma_members_push(events, newest.drop_last(), newest.last(), key);
    }
}

/// Counts a row among the equivalent events.
fn count_row(
    groups: &mut TextMap<ErrorGroup>,
    key: &String,
    row: usize,
    Ghost(events): Ghost<Seq<LogEvent>>,
    Ghost(newest): Ghost<Seq<usize>>,
)
    requires
        groups_tell(old(groups)@, events, newest),
        key@ == group_key(events[row as int]),
        newest.len() < usize::MAX,
    ensures
        groups_tell(final(groups)@, events, newest.push(row)),
{
    let ghost before = groups@;
    let group = match groups.get(key.as_str()) {
        Some(known) => {
            proof {
                lemma_members_bound(events, newest, key@);
                assert(members(events, newest, key@).len() > 0);
            }
            ErrorGroup {
                count: known.count + 1,
                first_index: row,
                previous_index: if known.count == 1 {
                    Some(row)
                } else {
                    known.previous_index
                },
                latest_index: known.latest_index,
            }
        },
        None => {
            assert(members(events, newest, key@).len() == 0);
            ErrorGroup { count: 1, first_index: row, previous_index: None, latest_index: row }
        },
    };
    groups.insert(key.clone(), group);
    proof {
        assert forall|other: Seq<char>|
            #![trigger members(events, newest.push(row), other)]
            if members(events, newest.push(row), other).len() > 0 {
                groups@.contains_key(other) && group_tells(
                    groups@[other],
                    members(events, newest.push(row), other),
                )
            } else {
                !groups@.contains_key(other)
            } by {
            lemma_members_push(events, newest, row, other);
            assert(members(events, newest, other).len() >= 0);
        }
    }
}

/// The test for rows that a store holds.
pub open spec fn is_held(count: nat) -> spec_fn(usize) -> bool {
    |row: usize| row < count
}

/// The rows that a store holds.
fn held_rows(rows: &Vec<usize>, count: usize) -> (held: Vec<usize>)
    ensures
        held@ == rows@.filter(is_held(count as nat)),
        forall|i: int| 0 <= i < held@.len() ==> (#[trigger] held@[i]) < count,
{
    let mut held: Vec<usize> = Vec::new();
    let mut index: usize = 0;
    proof {
        reveal(Seq::filter);
        assert(rows@.take(0) == Seq::<usize>::empty());
    }
    while index < rows.len()
        invariant
            index <= rows.len(),
            held@ == rows@.take(index as int).filter(is_held(count as nat)),
            forall|i: int| 0 <= i < held@.len() ==> (#[trigger] held@[i]) < count,
        decreases rows.len() - index,
    {
        proof {
            reveal(Seq::filter);
            assert(rows@.take(index + 1).drop_last() == rows@.take(index as int));
        }
        if rows[index] < count {
            held.push(rows[index]);
        }
        index += 1;
    }
    assert(rows@.take(index as int) == rows@);
    held
}

/// The rows of the table, where equivalent events are one row. Rows that the
/// store no longer holds are left out.
pub fn group_rows(store: &EventStore, rows: &Vec<usize>, latest_at: LatestAt) -> (table: TableRows)
    ensures
        is_grouped(
            store@.events,
            rows@.filter(is_held(store@.events.len())),
            latest_at,
            table,
        ),
{
    let held = held_rows(rows, store.len());
    group_held_rows(store, &held, latest_at)
}

/// The rows of the table, where equivalent events are one row.
fn group_held_rows(store: &EventStore, rows: &Vec<usize>, latest_at: LatestAt) -> (table: TableRows)
    requires
        forall|i: int| 0 <= i < rows@.len() ==> (#[trigger] rows@[i]) < store@.events.len(),
    ensures
        is_grouped(store@.events, rows@, latest_at, table),
{
    let ghost events = store@.events;
    let ghost newest = newest_first(rows@, latest_at);
    let count: usize = rows.len();
    let mut keys: Vec<String> = Vec::new();
    let mut index: usize = 0;
    while index < count
        invariant
            index <= count,
            count == rows@.len(),
            events == store@.events,
            forall|i: int| 0 <= i < rows@.len() ==> (#[trigger] rows@[i]) < events.len(),
            keys@.len() == index,
            forall|i: int|
                0 <= i < index ==> (#[trigger] keys@[i])@ == group_key(events[rows@[i] as int]),
        decreases count - index,
    {
        match store.get(rows[index]) {
            Some(event) => {
                keys.push(error_group_key(event));
            },
            None => {
                keys.push(String::new());
            },
        }
        index += 1;
    }
    let mut groups: TextMap<ErrorGroup> = TextMap::new();
    let mut done: usize = 0;
    proof {
        reveal(Seq::filter);
        assert(newest.take(0) == Seq::<usize>::empty());
        assert forall|key: Seq<char>|
            #![trigger members(events, newest.take(0), key)]
            members(events, newest.take(0), key).len() == 0 by {}
    }
    while done < count
        invariant
            done <= count,
            count == rows@.len(),
            newest == newest_first(rows@, latest_at),
            newest.len() == rows@.len(),
            keys@.len() == count,
            forall|i: int|
                0 <= i < count ==> (#[trigger] keys@[i])@ == group_key(events[rows@[i] as int]),
            groups_tell(groups@, events, newest.take(done as int)),
        decreases count - done,
    {
        let place: usize = match latest_at {
            LatestAt::Top => done,
            LatestAt::Bottom => count - 1 - done,
        };
        assert(newest[done as int] == rows@[place as int]);
        assert(newest.take(done + 1) == newest.take(done as int).push(rows@[place as int]));
        assert(keys@[place as int]@ == group_key(events[rows@[place as int] as int]));
        count_row(
            &mut groups,
            &keys[place],
            rows[place],
            Ghost(events),
            Ghost(newest.take(done as int)),
        );
        done += 1;
    }
    assert(newest.take(done as int) == newest);
    let ghost test = represents(events, newest);
    let mut table = TableRows { rows: Vec::new(), groups: Vec::new() };
    let mut shown: usize = 0;
    proof {
        reveal(Seq::filter);
        assert(rows@.take(0) == Seq::<usize>::empty());
    }
    while shown < count
        invariant
            shown <= count,
            count == rows@.len(),
            newest == newest_first(rows@, latest_at),
            keys@.len() == count,
            forall|i: int|
                0 <= i < count ==> (#[trigger] keys@[i])@ == group_key(events[rows@[i] as int]),
            groups_tell(groups@, events, newest),
            test == represents(events, newest),
            table.rows@ == rows@.take(shown as int).filter(test),
            table.groups@.len() == table.rows@.len(),
            forall|i: int|
                0 <= i < table.rows@.len() ==> group_tells(
                    #[trigger] table.groups@[i],
                    members(events, newest, group_key(events[table.rows@[i] as int])),
                ),
        decreases count - shown,
    {
        let row: usize = rows[shown];
        let ghost key = group_key(events[row as int]);
        proof {
            reveal(Seq::filter);
            assert(rows@.take(shown + 1).drop_last() == rows@.take(shown as int));
            assert(newest.contains(row)) by {
                match latest_at {
                    LatestAt::Top => {
                        assert(newest[shown as int] == row);
                    },
                    LatestAt::Bottom => {
                        assert(newest[count - 1 - shown] == row);
                    },
                }
            }
            lemma_own_member(events, newest, row);
            assert(keys@[shown as int]@ == key);
        }
        if let Some(group) = groups.get(keys[shown].as_str()) {
            if group.latest_index == row {
                table.rows.push(row);
                table.groups.push(*group);
            }
        }
        shown += 1;
    }
    assert(rows@.take(shown as int) == rows@);
    table
}

/// What is told of a group of more than one event, given the times of the first
/// event and of the one before the last.
pub fn error_group_summary(group: ErrorGroup, first: Option<String>, last: Option<String>) -> (
summary: Option<String>)
    ensures
        option_view(summary) == if group.count > 1 {
            Some(
                "Repeated "@ + decimal_text(group.count as nat) + " times · first "@
                    + time_or_unknown(option_view(first)) + " · last "@ + time_or_unknown(
                    option_view(last),
                ),
            )
        } else {
            None
        },
{
    if group.count <= 1 {
        return None;
    }
    let first = match first {
        Some(text) => text,
        None => owned("unknown"),
    };
    let last = match last {
        Some(text) => text,
        None => owned("unknown"),
    };
    let count = natural_to_text(group.count as u64);
    let mut summary = owned("Repeated ");
    summary.append(count.as_str());
    summary.append(" times · first ");
    summary.append(first.as_str());
    summary.append(" · last ");
    summary.append(last.as_str());
    Some(summary)
}

/// A time, or a word where there is none.
pub open spec fn time_or_unknown(time: Option<Seq<char>>) -> Seq<char> {
    match time {
        Some(text) => text,
        None => "unknown"@,
    }
}

/// The numbers of events of the groups of some rows, the newest first, that are
/// shown among others.
pub open spec fn group_sizes(events: Seq<LogEvent>, newest: Seq<usize>, shown: Seq<usize>) -> nat
    decreases shown.len(),
{
    if shown.len() == 0 {
        0
    } else {
        group_sizes(events, newest, shown.drop_last()) + members(
            events,
            newest,
            group_key(events[shown.last() as int]),
        ).len()
    }
}

/// One row more adds one to the size of its group, where that is shown once, and
/// to no other.
proof fn lemma_group_sizes_push(
    events: Seq<LogEvent>,
    newest: Seq<usize>,
    row: usize,
    shown: Seq<usize>,
)
    requires
        forall|i: int, j: int|
            0 <= i < j < shown.len() ==> group_key(events[#[trigger] shown[i] as int])
                != group_key(events[#[trigger] shown[j] as int]),
    ensures
        group_sizes(events, newest.push(row), shown) == group_sizes(events, newest, shown) + if (
        exists|i: int|
            0 <= i < shown.len() && group_key(events[#[trigger] shown[i] as int]) == group_key(
                events[row as int],
            )) {
            1nat
        } else {
            0nat
        },
    decreases shown.len(),
{
    let key = group_key(events[row as int]);
    if shown.len() > 0 {
        let before = shown.drop_last();
        assert forall|i: int, j: int| 0 <= i < j < before.len() implies group_key(
            events[#[trigger] before[i] as int],
        ) != group_key(events[#[trigger] before[j] as int]) by {
            assert(shown[i] == before[i]);
            assert(shown[j] == before[j]);
        }
        lemma_group_sizes_push(events, newest, row, before);
        let last = shown.len() - 1;
        lemma_members_push(events, newest, row, group_key(events[shown[last] as int]));
        if group_key(events[shown[last] as int]) == key {
            assert forall|i: int| 0 <= i < before.len() implies group_key(
                events[#[trigger] before[i] as int],
            ) != key by {
                assert(shown[i] == before[i]);
                assert(group_key(events[shown[i] as int]) != group_key(
                    events[shown[last] as int],
                ));
            }
        } else {
            if exists|i: int|
                0 <= i < shown.len() && group_key(events[#[trigger] shown[i] as int]) == key {
                let i = choose|i: int|
                    0 <= i < shown.len() && group_key(events[#[trigger] shown[i] as int]) == key;
                assert(before[i] == shown[i]);
            }
            if exists|i: int|
                0 <= i < before.len() && group_key(events[#[trigger] before[i] as int]) == key {
                let i = choose|i: int|
                    0 <= i < before.len() && group_key(events[#[trigger] before[i] as int]) == key;
                assert(shown[i] == before[i]);
            }
        }
    }
}

/// The newest rows of their groups, the newest first.
pub open spec fn representatives(events: Seq<LogEvent>, newest: Seq<usize>) -> Seq<usize>
    decreases newest.len(),
{
    if newest.len() == 0 {
        Seq::empty()
    } else {
        let before = newest.drop_last();
        if members(events, before, group_key(events[newest.last() as int])).len() == 0 {
            representatives(events, before).push(newest.last())
        } else {
            representatives(events, before)
        }
    }
}

/// Every group has one newest row.
proof fn lemma_representatives(events: Seq<LogEvent>, newest: Seq<usize>)
    ensures
        ({
            let shown = representatives(events, newest);
            &&& forall|i: int, j: int|
                0 <= i < j < shown.len() ==> group_key(events[#[trigger] shown[i] as int])
                    != group_key(events[#[trigger] shown[j] as int])
            &&& forall|i: int|
                0 <= i < shown.len() ==> members(
                    events,
                    newest,
                    group_key(events[#[trigger] shown[i] as int]),
                ).len() > 0
            &&& forall|key: Seq<char>| #[trigger]
                members(events, newest, key).len() > 0 ==> exists|i: int|
                    0 <= i < shown.len() && group_key(events[#[trigger] shown[i] as int]) == key
            &&& group_sizes(events, newest, shown) == newest.len()
        }),
    decreases newest.len(),
{
    reveal(Seq::filter);
    if newest.len() > 0 {
        let before = newest.drop_last();
        let row = newest.last();
        let key = group_key(events[row as int]);
        assert(before.push(row) == newest);
        lemma_representatives(events, before);
        let earlier = representatives(events, before);
        let shown = representatives(events, newest);
        lemma_group_sizes_push(events, before, row, earlier);
        assert forall|other: Seq<char>| #[trigger]
            members(events, newest, other).len() > 0 implies exists|i: int|
            0 <= i < shown.len() && group_key(events[#[trigger] shown[i] as int]) == other by {
            lemma_members_push(events, before, row, other);
            if members(events, before, other).len() > 0 {
                let i = choose|i: int|
                    0 <= i < earlier.len() && group_key(events[#[trigger] earlier[i] as int])
                        == other;
                assert(shown[i] == earlier[i]);
            } else {
                assert(shown[shown.len() - 1] == row);
            }
        }
        assert forall|i: int| 0 <= i < shown.len() implies members(
            events,
            newest,
            group_key(events[#[trigger] shown[i] as int]),
        ).len() > 0 by {
            lemma_members_push(events, before, row, group_key(events[shown[i] as int]));
            if i < earlier.len() {
                assert(shown[i] == earlier[i]);
            }
        }
        if members(events, before, key).len() == 0 {
            assert forall|i: int| 0 <= i < earlier.len() implies group_key(
                events[#[trigger] earlier[i] as int],
            ) != key by {
                assert(members(events, before, group_key(events[earlier[i] as int])).len() > 0);
            }
            assert(shown == earlier.push(row));
            assert forall|i: int, j: int| 0 <= i < j < shown.len() implies group_key(
                events[#[trigger] shown[i] as int],
            ) != group_key(events[#[trigger] shown[j] as int]) by {
                assert(shown[i] == earlier[i]);
                if j < earlier.len() {
                    assert(shown[j] == earlier[j]);
                }
            }
            lemma_members_push(events, before, row, key);
            assert(members(events, newest, key).len() == 1);
            assert(shown.drop_last() == earlier);
        }
    }
}

/// The sizes of all groups add up to the number of the rows, and no two of their
/// newest rows are of equivalent events.
pub proof fn lemma_groups_share_out_rows(events: Seq<LogEvent>, newest: Seq<usize>)
    ensures
        group_sizes(events, newest, representatives(events, newest)) == newest.len(),
        forall|i: int, j: int|
            0 <= i < j < representatives(events, newest).len() ==> group_key(
                events[#[trigger] representatives(events, newest)[i] as int],
            ) != group_key(events[#[trigger] representatives(events, newest)[j] as int]),
{
    lemma_representatives(events, newest);
}

/// Texts without a mark, put in front of it, can be told apart from what follows it.
proof fn lemma_parts_before_a_mark(
    first: Seq<char>,
    second: Seq<char>,
    mark: char,
    behind_first: Seq<char>,
    behind_second: Seq<char>,
)
    requires
        !first.contains(mark),
        !second.contains(mark),
        first + seq![mark] + behind_first == second + seq![mark] + behind_second,
    ensures
        first == second,
        behind_first == behind_second,
{
    let left = first + seq![mark] + behind_first;
    let right = second + seq![mark] + behind_second;
    assert(left[first.len() as int] == mark);
    assert(right[second.len() as int] == mark);
    if first.len() < second.len() {
        assert(right[first.len() as int] == second[first.len() as int]);
        assert(second.contains(mark));
    }
    if second.len() < first.len() {
        assert(left[second.len() as int] == first[second.len() as int]);
        assert(first.contains(mark));
    }
    assert(first =~= left.take(first.len() as int));
    assert(second =~= right.take(first.len() as int));
    assert(behind_first =~= left.skip(first.len() as int + 1));
    assert(behind_second =~= right.skip(first.len() as int + 1));
}

/// The kind of an event's error, or nothing.
pub open spec fn kind_of(event: LogEvent) -> Seq<char> {
    match event.error_kind {
        Some(kind) => kind@,
        None => Seq::empty(),
    }
}

/// Whether the source, the subsystem, the name and the kind of an event are free of the
/// mark that stands between the parts of a key.
pub open spec fn has_plain_names(event: LogEvent) -> bool {
    &&& !event.source@.contains('\u{1f}')
    &&& !event.subsystem@.contains('\u{1f}')
    &&& !event.event@.contains('\u{1f}')
    &&& !kind_of(event).contains('\u{1f}')
}

/// Whether two events are of the same trouble: they come from the same place, have the same
/// name and kind, and their messages and stacks have the same shapes.
pub open spec fn same_trouble(first: LogEvent, second: LogEvent) -> bool {
    &&& first.source@ == second.source@
    &&& first.subsystem@ == second.subsystem@
    &&& first.event@ == second.event@
    &&& kind_of(first) == kind_of(second)
    &&& error_shape(first.message@) == error_shape(second.message@)
    &&& error_shape(stack_of(first)) == error_shape(stack_of(second))
}

/// A key is the parts with marks between them.
proof fn lemma_key_in_parts(event: LogEvent)
    ensures
        ({
            let mark = seq!['\u{1f}'];
            let shapes = error_shape(event.message@) + mark + error_shape(stack_of(event));
            group_key(event) == event.source@ + mark + (event.subsystem@ + mark + (event.event@
                + mark + (kind_of(event) + mark + shapes)))
        }),
{
    reveal_strlit("\u{1f}");
    reveal_with_fuel(joined, 7);
    let mark = seq!['\u{1f}'];
    assert("\u{1f}"@ == mark);
    let (source, subsystem, name, kind) = (
        event.source@,
        event.subsystem@,
        event.event@,
        kind_of(event),
    );
    let (message, stack) = (error_shape(event.message@), error_shape(stack_of(event)));
    let parts = seq![source, subsystem, name, kind, message, stack];
    assert(parts.drop_last() == seq![source, subsystem, name, kind, message]);
    assert(parts.drop_last().drop_last() == seq![source, subsystem, name, kind]);
    assert(seq![source, subsystem, name, kind].drop_last() == seq![source, subsystem, name]);
    assert(seq![source, subsystem, name].drop_last() == seq![source, subsystem]);
    assert(seq![source, subsystem].drop_last() == seq![source]);
    assert(joined(seq![source, subsystem], mark) == source + mark + subsystem);
    assert(joined(seq![source, subsystem, name], mark) == source + mark + subsystem + mark + name);
    assert(joined(seq![source, subsystem, name, kind], mark) == source + mark + subsystem + mark
        + name + mark + kind);
    assert(joined(parts, mark) == source + mark + subsystem + mark + name + mark + kind + mark
        + message + mark + stack);
    assert(source + mark + subsystem + mark + name + mark + kind + mark + message + mark + stack
        =~= source + mark + (subsystem + mark + (name + mark + (kind + mark + (message + mark
        + stack)))));
}

/// Events with the same key come from the same source and subsystem and have the same name
/// and kind; and where the shapes of their messages are free of the mark between the parts,
/// these are the same, and so are the shapes of their stacks. Events that have all this in
/// common have the same key.
pub proof fn lemma_key_tells_events_apart(first: LogEvent, second: LogEvent)
    requires
        has_plain_names(first),
        has_plain_names(second),
    ensures
        group_key(first) == group_key(second) ==> {
            &&& first.source@ == second.source@
            &&& first.subsystem@ == second.subsystem@
            &&& first.event@ == second.event@
            &&& kind_of(first) == kind_of(second)
        },
        !error_shape(first.message@).contains('\u{1f}') && !error_shape(
            second.message@,
        ).contains('\u{1f}') ==> (group_key(first) == group_key(second) <==> same_trouble(
            first,
            second,
        )),
        same_trouble(first, second) ==> group_key(first) == group_key(second),
{
    lemma_key_in_parts(first);
    lemma_key_in_parts(second);
    if group_key(first) == group_key(second) {
        let mark = seq!['\u{1f}'];
        let (first_shapes, second_shapes) = (
            error_shape(first.message@) + mark + error_shape(stack_of(first)),
            error_shape(second.message@) + mark + error_shape(stack_of(second)),
        );
        let (first_kind, second_kind) = (
            kind_of(first) + mark + first_shapes,
            kind_of(second) + mark + second_shapes,
        );
        let (first_name, second_name) = (
            first.event@ + mark + first_kind,
            second.event@ + mark + second_kind,
        );
        lemma_parts_before_a_mark(
            first.source@,
            second.source@,
            '\u{1f}',
            first.subsystem@ + mark + first_name,
            second.subsystem@ + mark + second_name,
        );
        lemma_parts_before_a_mark(
            first.subsystem@,
            second.subsystem@,
            '\u{1f}',
            first_name,
            second_name,
        );
        lemma_parts_before_a_mark(first.event@, second.event@, '\u{1f}', first_kind, second_kind);
        lemma_parts_before_a_mark(
            kind_of(first),
            kind_of(second),
            '\u{1f}',
            first_shapes,
            second_shapes,
        );
        if !error_shape(first.message@).contains('\u{1f}') && !error_shape(
            second.message@,
        ).contains('\u{1f}') {
            lemma_parts_before_a_mark(
                error_shape(first.message@),
                error_shape(second.message@),
                '\u{1f}',
                error_shape(stack_of(first)),
                error_shape(stack_of(second)),
            );
        }
    }
}

/// Tests that agree on what a sequence holds pick the same out of it.
proof fn lemma_same_picks(
    rows: Seq<usize>,
    first: spec_fn(usize) -> bool,
    second: spec_fn(usize) -> bool,
)
    requires
        forall|i: int| 0 <= i < rows.len() ==> first(#[trigger] rows[i]) == second(rows[i]),
    ensures
        rows.filter(first) == rows.filter(second),
    decreases rows.len(),
{
    reveal(Seq::filter);
    if rows.len() > 0 {
        let shorter = rows.drop_last();
        assert forall|i: int| 0 <= i < shorter.len() implies first(#[trigger] shorter[i])
            == second(shorter[i]) by {
            assert(shorter[i] == rows[i]);
        }
        lemma_same_picks(shorter, first, second);
        assert(first(rows[rows.len() - 1]) == second(rows[rows.len() - 1]));
    }
}

/// A group of the table is that of all the rows of the same trouble as the row that shows it,
/// and of no others: it counts them, and it tells which is the newest and which the oldest.
pub proof fn lemma_group_is_of_one_trouble(
    events: Seq<LogEvent>,
    rows: Seq<usize>,
    latest_at: LatestAt,
    table: TableRows,
    index: int,
)
    requires
        is_grouped(events, rows, latest_at, table),
        0 <= index < table.rows@.len(),
        rows.contains(table.rows@[index]),
        forall|i: int|
            0 <= i < rows.len() ==> {
                let event = events[#[trigger] rows[i] as int];
                has_plain_names(event) && !error_shape(event.message@).contains('\u{1f}')
            },
    ensures
        ({
            let shown = events[table.rows@[index] as int];
            let newest = match latest_at {
                LatestAt::Bottom => rows.reverse(),
                LatestAt::Top => rows,
            };
            let same = newest.filter(|row: usize| same_trouble(events[row as int], shown));
            let group = table.groups@[index];
            &&& same.len() > 0
            &&& group.count == same.len()
            &&& group.latest_index == same[0]
            &&& group.first_index == same[same.len() - 1]
            &&& group.previous_index == (if same.len() > 1 {
                Some(same[1])
            } else {
                None
            })
        }),
{
    let shown = events[table.rows@[index] as int];
    let newest = newest_first(rows, latest_at);
    let key = group_key(shown);
    let of_trouble = |row: usize| same_trouble(events[row as int], shown);
    let place = choose|i: int| 0 <= i < rows.len() && rows[i] == table.rows@[index];
    assert(has_plain_names(events[rows[place] as int]));
    assert forall|i: int| 0 <= i < newest.len() implies has_key(events, key)(#[trigger] newest[i])
        == of_trouble(newest[i]) by {
        let original = match latest_at {
            LatestAt::Bottom => rows.len() - 1 - i,
            LatestAt::Top => i,
        };
        assert(newest[i] == rows[original]);
        lemma_key_tells_events_apart(events[newest[i] as int], shown);
    }
    lemma_same_picks(newest, has_key(events, key), of_trouble);
    assert(group_tells(
        table.groups@[index],
        members(events, newest, group_key(events[table.rows@[index] as int])),
    ));
}

/// The stack of an event is the text in its field `stack`, where there is none that in
/// `stack_trace`, where there is none that in `error_stack`, and else nothing.
pub proof fn lemma_stack_is_in_a_field(event: LogEvent, text: Seq<char>)
    ensures
        field_text(event, "stack"@) == Some(text) ==> stack_of(event) == text,
        field_text(event, "stack"@) is None && field_text(event, "stack_trace"@) == Some(text)
            ==> stack_of(event) == text,
        field_text(event, "stack"@) is None && field_text(event, "stack_trace"@) is None
            && field_text(event, "error_stack"@) == Some(text) ==> stack_of(event) == text,
        field_text(event, "stack"@) is None && field_text(event, "stack_trace"@) is None
            && field_text(event, "error_stack"@) is None ==> stack_of(event).len() == 0,
{
}

/// Whether a text is made of ASCII characters that are no digits and no white space.
pub open spec fn is_ascii_word(text: Seq<char>) -> bool {
    forall|i: int|
        0 <= i < text.len() ==> #[trigger] text[i] <= '\x7f' && !is_digit(text[i]) && !is_space(
            text[i],
        )
}

proof fn lemma_folded_word(before: Seq<char>, word: Seq<char>)
    requires
        is_ascii_word(word),
    ensures
        folded(before + word) == folded(before) + lowered(word),
    decreases word.len(),
{
    let text = before + word;
    if word.len() == 0 {
        assert(text == before);
        assert(lowered(word) == Seq::<char>::empty());
        assert(folded(before) + Seq::<char>::empty() == folded(before));
    } else {
        let shorter = word.drop_last();
        assert forall|i: int| 0 <= i < shorter.len() implies #[trigger] shorter[i] == word[i] by {}
        lemma_folded_word(before, shorter);
        assert(text.drop_last() == before + shorter);
        assert(text.last() == word[word.len() - 1]);
        assert(lowercase_of(word.last()) == seq![lower(word.last())]);
        assert(lowered(word) == lowered(shorter) + seq![lower(word.last())]);
        assert(folded(before) + lowered(shorter) + seq![lower(word.last())] == folded(before) + (
        lowered(shorter) + seq![lower(word.last())]));
    }
}

proof fn lemma_untouched_ends(text: Seq<char>)
    requires
        text.len() > 0 ==> !is_space(text[0]) && !is_space(text.last()),
    ensures
        trimmed(text) == text,
{
}

/// The shape of a text keeps its words, in lower case, and where they stand: between two
/// ASCII words, a number becomes one mark, and white space one space.
pub proof fn lemma_shape_keeps_words(first: Seq<char>, between: Seq<char>, second: Seq<char>)
    requires
        is_ascii_word(first),
        is_ascii_word(second),
    ensures
        error_shape(first) == lowered(first),
        is_number(between) ==> error_shape(first + between + second) == lowered(first) + seq!['#']
            + lowered(second),
        is_spacing(between) && first.len() > 0 && second.len() > 0 ==> error_shape(
            first + between + second,
        ) == lowered(first) + seq![' '] + lowered(second),
{
    let nothing = Seq::<char>::empty();
    assert(nothing + first == first);
    lemma_folded_word(nothing, first);
    assert(folded(nothing) == nothing);
    assert(folded(first) == lowered(first));
    lemma_untouched_ends(first);
    lemma_lowered_word(first);
    lemma_lowered_word(second);
    lemma_untouched_end(lowered(first));
    let text = first + between + second;
    if is_number(between) {
        let single = between[0];
        assert(is_digit(single));
        assert(is_digit(between[between.len() - 1]));
        lemma_folded_run(first, between, single);
        assert(first.push(single).drop_last() == first);
        if first.len() > 0 {
            assert(first.push(single)[first.len() - 1] == first[first.len() - 1]);
        }
        assert(folded(first.push(single)) == lowered(first).push('#'));
        lemma_folded_word(first + between, second);
        if first.len() > 0 {
            assert(text[0] == first[0]);
        } else {
            assert(text[0] == between[0]);
        }
        if second.len() > 0 {
            assert(text.last() == second[second.len() - 1]);
        } else {
            assert(text.last() == between[between.len() - 1]);
        }
        lemma_untouched_ends(text);
        let shape = lowered(first).push('#') + lowered(second);
        if second.len() > 0 {
            assert(shape.last() == lowered(second)[second.len() - 1]);
        } else {
            assert(shape.last() == '#');
        }
        lemma_untouched_end(shape);
        assert(shape == lowered(first) + seq!['#'] + lowered(second));
    }
    if is_spacing(between) && first.len() > 0 && second.len() > 0 {
        let single = between[0];
        assert(is_space(single));
        lemma_folded_run(first, between, single);
        assert(first.push(single).drop_last() == first);
        assert(first.push(single)[first.len() - 1] == first[first.len() - 1]);
        assert(!is_digit(single));
        assert(folded(first.push(single)) == lowered(first).push(' '));
        lemma_folded_word(first + between, second);
        assert(text[0] == first[0]);
        assert(text.last() == second[second.len() - 1]);
        lemma_untouched_ends(text);
        let shape = lowered(first).push(' ') + lowered(second);
        assert(shape.last() == lowered(second)[second.len() - 1]);
        lemma_untouched_end(shape);
        assert(shape == lowered(first) + seq![' '] + lowered(second));
    }
}

proof fn lemma_untouched_end(text: Seq<char>)
    requires
        text.len() > 0 ==> !is_space(text.last()),
    ensures
        trim_end_spec(text) == text,
{
}

/// A word in lower case has no white space either.
proof fn lemma_lowered_word(word: Seq<char>)
    requires
        is_ascii_word(word),
    ensures
        is_ascii_word(lowered(word)),
{
    assert forall|i: int| 0 <= i < word.len() implies #[trigger] lowered(word)[i] <= '\x7f'
        && !is_digit(lowered(word)[i]) && !is_space(lowered(word)[i]) by {
        let character = word[i];
        assert(lowered(word)[i] == lower(character));
        assert(character <= '\x7f' && !is_space(character) && !is_digit(character));
    }
}

}
