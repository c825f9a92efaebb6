//! Searching events for words, with small typing errors allowed for.
use std::sync::Arc;

use vstd::prelude::*;
use vstd::utf8::encode_utf8;

use crate::event::{correlation_of, LogEvent};
use crate::json::{compact, push_compact, JsonValue};
use crate::text::{
    byte_count, byte_length, contains, ends_word, is_word, joined, lemma_words_of_join, lowered,
    occurs_at, occurs_in, to_lower, views, words, words_of,
};

verus! {

/// The least number of single-byte insertions, deletions and substitutions that
/// turn one run of bytes into another.
pub open spec fn edit_distance(left: Seq<u8>, right: Seq<u8>) -> nat
    decreases left.len() + right.len(),
{
    if left.len() == 0 {
        right.len()
    } else if right.len() == 0 {
        left.len()
    } else {
        let deletion = edit_distance(left.drop_last(), right) + 1;
        let insertion = edit_distance(left, right.drop_last()) + 1;
        let substitution = edit_distance(left.drop_last(), right.drop_last()) + (if left.last()
            == right.last() {
            0nat
        } else {
            1nat
        });
        least(least(deletion, insertion), substitution)
    }
}

/// The smaller of two numbers.
pub open spec fn least(first: nat, second: nat) -> nat {
    if first <= second {
        first
    } else {
        second
    }
}

/// The distance is not below the difference of the lengths, nor above the
/// longer length.
pub proof fn lemma_edit_distance_bounds(left: Seq<u8>, right: Seq<u8>)
    ensures
        edit_distance(left, right) >= left.len() - right.len(),
        edit_distance(left, right) >= right.len() - left.len(),
        edit_distance(left, right) <= left.len() + right.len(),
    decreases left.len() + right.len(),
{
    if left.len() > 0 && right.len() > 0 {
        lemma_edit_distance_bounds(left.drop_last(), right);
        lemma_edit_distance_bounds(left, right.drop_last());
        lemma_edit_distance_bounds(left.drop_last(), right.drop_last());
    }
}

/// The distance is the same both ways.
pub proof fn lemma_edit_distance_symmetric(left: Seq<u8>, right: Seq<u8>)
    ensures
        edit_distance(left, right) == edit_distance(right, left),
    decreases left.len() + right.len(),
{
    if left.len() > 0 && right.len() > 0 {
        lemma_edit_distance_symmetric(left.drop_last(), right);
        lemma_edit_distance_symmetric(left, right.drop_last());
        lemma_edit_distance_symmetric(left.drop_last(), right.drop_last());
    }
}

/// Only equal runs of bytes have the distance zero.
pub proof fn lemma_edit_distance_zero(left: Seq<u8>, right: Seq<u8>)
    ensures
        edit_distance(left, right) == 0 <==> left == right,
    decreases left.len() + right.len(),
{
    if left.len() > 0 && right.len() > 0 {
        lemma_edit_distance_zero(left.drop_last(), right.drop_last());
        if left.drop_last() == right.drop_last() && left.last() == right.last() {
            assert(left == left.drop_last().push(left.last()));
            assert(right == right.drop_last().push(right.last()));
        }
    } else if left.len() == 0 && right.len() == 0 {
        assert(left == right);
    }
}

/// Where every distance from a run of bytes to a prefix is above a bound, so is
/// every one from the run with a byte more.
proof fn lemma_row_grows(left: Seq<u8>, byte: u8, right: Seq<u8>, count: int, bound: nat)
    requires
        0 <= count <= right.len(),
        forall|k: int|
            0 <= k <= right.len() ==> edit_distance(left, #[trigger] right.take(k)) > bound,
    ensures
        edit_distance(left.push(byte), right.take(count)) > bound,
    decreases count,
{
    let longer = left.push(byte);
    assert(longer.drop_last() == left);
    if count == 0 {
        assert(edit_distance(left, right.take(0)) > bound);
        assert(right.take(0).len() == 0);
        if left.len() == 0 {
            assert(edit_distance(left, right.take(0)) == 0);
        }
    } else {
        lemma_row_grows(left, byte, right, count - 1, bound);
        assert(right.take(count).drop_last() == right.take(count - 1));
        assert(edit_distance(left, right.take(count)) > bound);
        assert(edit_distance(left, right.take(count - 1)) > bound);
    }
}

/// Where every distance from a prefix to a prefix is above a bound, so is the
/// distance of the wholes.
proof fn lemma_row_bounds_all(left: Seq<u8>, right: Seq<u8>, from: int, bound: nat)
    requires
        0 <= from <= left.len(),
        forall|k: int|
            0 <= k <= right.len() ==> edit_distance(left.take(from), #[trigger] right.take(k))
                > bound,
    ensures
        edit_distance(left, right) > bound,
    decreases left.len() - from,
{
    if from == left.len() {
        assert(left.take(from) == left);
        assert(right.take(right.len() as int) == right);
        assert(edit_distance(left.take(from), right.take(right.len() as int)) > bound);
    } else {
        assert(left.take(from + 1) == left.take(from).push(left[from]));
        assert forall|k: int| 0 <= k <= right.len() implies edit_distance(
            left.take(from + 1),
            #[trigger] right.take(k),
        ) > bound by {
            lemma_row_grows(left.take(from), left[from], right, k, bound);
        }
        lemma_row_bounds_all(left, right, from + 1, bound);
    }
}

/// Whether the distance of two runs of bytes is at most a bound.
pub fn edit_distance_within(left: &[u8], right: &[u8], maximum: usize) -> (result: bool)
    requires
        left.len() + right.len() < usize::MAX,
    ensures
        result == (edit_distance(left@, right@) <= maximum),
{
    proof {
        lemma_edit_distance_bounds(left@, right@);
    }
    let difference: usize = if left.len() < right.len() {
        right.len() - left.len()
    } else {
        left.len() - right.len()
    };
    if difference > maximum {
        return false;
    }
    let mut previous: Vec<usize> = Vec::new();
    let mut column: usize = 0;
    while column <= right.len()
        invariant
            column <= right.len() + 1,
            right.len() < usize::MAX,
            previous@.len() == column,
            forall|k: int| 0 <= k < column ==> #[trigger] previous@[k] == k,
        decreases right.len() + 1 - column,
    {
        previous.push(column);
        column += 1;
    }
    let mut row: usize = 0;
    assert forall|k: int| 0 <= k <= right.len() implies #[trigger] previous@[k] == edit_distance(
        left@.take(0),
        right@.take(k),
    ) by {
        assert(left@.take(0).len() == 0);
    }
    while row < left.len()
        invariant
            row <= left.len(),
            left.len() + right.len() < usize::MAX,
            previous@.len() == right.len() + 1,
            forall|k: int|
                0 <= k <= right.len() ==> #[trigger] previous@[k] == edit_distance(
                    left@.take(row as int),
                    right@.take(k),
                ),
        decreases left.len() - row,
    {
        let ghost before = left@.take(row as int);
        let ghost after = left@.take(row + 1);
        assert(after.drop_last() == before);
        let mut current: Vec<usize> = Vec::new();
        current.push(row + 1);
        let mut smallest: usize = row + 1;
        assert(right@.take(0).len() == 0);
        let mut column: usize = 0;
        while column < right.len()
            invariant
                column <= right.len(),
                row < left.len(),
                left.len() + right.len() < usize::MAX,
                before == left@.take(row as int),
                after == left@.take(row + 1),
                after.drop_last() == before,
                previous@.len() == right.len() + 1,
                current@.len() == column + 1,
                forall|k: int|
                    0 <= k <= right.len() ==> #[trigger] previous@[k] == edit_distance(
                        before,
                        right@.take(k),
                    ),
                forall|k: int|
                    0 <= k <= column ==> #[trigger] current@[k] == edit_distance(
                        after,
                        right@.take(k),
                    ),
                forall|k: int| 0 <= k <= column ==> smallest <= #[trigger] current@[k],
            decreases right.len() - column,
        {
            proof {
                let shorter = right@.take(column as int);
                let longer = right@.take(column + 1);
                assert(longer.drop_last() == shorter);
                lemma_edit_distance_bounds(before, longer);
                lemma_edit_distance_bounds(after, shorter);
                lemma_edit_distance_bounds(before, shorter);
                assert(previous@[column + 1] == edit_distance(before, longer));
                assert(current@[column as int] == edit_distance(after, shorter));
                assert(previous@[column as int] == edit_distance(before, shorter));
            }
            let deletion: usize = previous[column + 1] + 1;
            let insertion: usize = current[column] + 1;
            let substitution: usize = previous[column] + (if left[row] == right[column] {
                0
            } else {
                1
            });
            let mut value: usize = deletion;
            if insertion < value {
                value = insertion;
            }
            if substitution < value {
                value = substitution;
            }
            current.push(value);
            if value < smallest {
                smallest = value;
            }
            column += 1;
        }
        if smallest > maximum {
            proof {
                assert forall|k: int| 0 <= k <= right.len() implies edit_distance(
                    after,
                    #[trigger] right@.take(k),
                ) > maximum by {
                    assert(current@[k] >= smallest);
                }
                lemma_row_bounds_all(left@, right@, row + 1, maximum as nat);
            }
            return false;
        }
        previous = current;
        row += 1;
    }
    assert(left@.take(row as int) == left@);
    assert(right@.take(right@.len() as int) == right@);
    previous[right.len()] <= maximum
}

/// How many typing errors a word of a number of bytes may have.
pub open spec fn allowed_errors(bytes: nat) -> nat {
    if bytes >= 8 {
        2
    } else {
        1
    }
}

/// Whether a word of a text is close to a term: neither is longer than 64 bytes,
/// the term has at least four, and few errors tell them apart.
pub open spec fn is_close(word: Seq<char>, term: Seq<char>) -> bool {
    &&& 4 <= byte_length(term) <= 64
    &&& byte_length(word) <= 64
    &&& edit_distance(encode_utf8(word), encode_utf8(term)) <= allowed_errors(byte_length(term))
}

/// Whether a term occurs in a text, or a word of the text is close to it.
pub open spec fn fuzzy_contains(text: Seq<char>, term: Seq<char>) -> bool {
    ||| occurs_in(text, term)
    ||| exists|i: int| 0 <= i < words_of(text).len() && is_close(#[trigger] words_of(text)[i], term)
}

/// Whether a text contains every one of some terms.
pub open spec fn contains_all(text: Seq<char>, terms: Seq<Seq<char>>) -> bool {
    forall|i: int| 0 <= i < terms.len() ==> fuzzy_contains(text, #[trigger] terms[i])
}

/// The terms that a text asks for: its words, in lower case.
pub open spec fn terms_of(text: Seq<char>) -> Seq<Seq<char>> {
    words_of(text).map_values(|word: Seq<char>| lowered(word))
}

/// Whether a term occurs in a text, or a word of the text is close to it.
pub fn fuzzy_text_contains(text: &str, term: &str) -> (result: bool)
    ensures
        result == fuzzy_contains(text@, term@),
{
    if contains(text, term) {
        return true;
    }
    let length: usize = byte_count(term);
    if length < 4 || length > 64 {
        assert forall|i: int| 0 <= i < words_of(text@).len() implies !is_close(
            #[trigger] words_of(text@)[i],
            term@,
        ) by {}
        return false;
    }
    let allowed: usize = if length >= 8 {
        2
    } else {
        1
    };
    let found = words(text);
    let mut index: usize = 0;
    while index < found.len()
        invariant
            index <= found.len(),
            views(found@) == words_of(text@),
            4 <= length <= 64,
            length == byte_length(term@),
            allowed == allowed_errors(length as nat),
            forall|i: int| 0 <= i < index ==> !is_close(#[trigger] words_of(text@)[i], term@),
        decreases found.len() - index,
    {
        let word = found[index].as_str();
        assert(words_of(text@)[index as int] == word@);
        if byte_count(word) <= 64 && edit_distance_within(
            word.as_bytes(),
            term.as_bytes(),
            allowed,
        ) {
            assert(is_close(words_of(text@)[index as int], term@));
            return true;
        }
        index += 1;
    }
    false
}

/// Whether a text contains every one of some terms.
pub fn document_matches_terms(document: &str, terms: &Vec<String>) -> (result: bool)
    ensures
        result == contains_all(document@, views(terms@)),
{
    let mut index: usize = 0;
    while index < terms.len()
        invariant
            index <= terms.len(),
            forall|i: int| 0 <= i < index ==> fuzzy_contains(document@, #[trigger] views(terms@)[i]),
        decreases terms.len() - index,
    {
        assert(views(terms@)[index as int] == terms@[index as int]@);
        if !fuzzy_text_contains(document, terms[index].as_str()) {
            return false;
        }
        index += 1;
    }
    true
}

/// The terms that a text asks for: its words, in lower case.
pub fn search_terms(text: &str) -> (terms: Vec<String>)
    ensures
        views(terms@) == terms_of(text@),
{
    let found = words(text);
    let mut terms: Vec<String> = Vec::new();
    let mut index: usize = 0;
    while index < found.len()
        invariant
            index <= found.len(),
            views(found@) == words_of(text@),
            views(terms@) == terms_of(text@).take(index as int),
        decreases found.len() - index,
    {
        let ghost before = views(terms@);
        terms.push(to_lower(found[index].as_str()));
        assert(views(terms@) == before.push(terms_of(text@)[index as int])) by {
            assert(words_of(text@)[index as int] == found@[index as int]@);
        }
        index += 1;
    }
    assert(terms_of(text@).take(index as int) == terms_of(text@));
    terms
}

/// A text with a space before it; nothing where there is none.
pub open spec fn spaced(text: Option<String>) -> Seq<char> {
    match text {
        Some(text) => seq![' '] + text@,
        None => Seq::empty(),
    }
}

/// The names and the values of fields, with a space before each.
pub open spec fn fields_text(
    names: Seq<Seq<char>>,
    fields: Map<Seq<char>, JsonValue>,
) -> Seq<char>
    decreases names.len(),
{
    if names.len() == 0 {
        Seq::empty()
    } else {
        fields_text(names.drop_last(), fields) + seq![' '] + names.last() + seq![' '] + compact(
            fields[names.last()],
        )
    }
}

/// The parts of an event that a search looks at, before they are put in lower
/// case: all that has a text. A duration is a number, and none of them.
pub open spec fn event_text(event: LogEvent) -> Seq<char> {
    seq![' '] + event.message@ + seq![' '] + event.event@ + seq![' '] + event.subsystem@
        + seq![' '] + event.source@ + seq![' '] + correlation_of(event) + spaced(event.target)
        + spaced(event.provider) + spaced(event.error_kind) + spaced(event.playback_session_id)
        + spaced(event.request_id) + spaced(event.session_id) + (match event.status {
        Some(status) => seq![' '] + compact(status),
        None => Seq::empty(),
    }) + fields_text(event.fields.ordered(), event.fields@)
}

/// The text of an event that a search looks at.
pub open spec fn document_of(event: LogEvent) -> Seq<char> {
    lowered(event_text(event))
}

/// Appends a text with a space before it, where there is one.
fn push_spaced(document: &mut String, text: &Option<String>)
    ensures
        final(document)@ == old(document)@ + spaced(*text),
{
    if let Some(text) = text {
        document.push(' ');
        document.append(text.as_str());
    }
    assert(document@ == old(document)@ + spaced(*text));
}

/// The text of an event that a search looks at.
pub fn search_document(event: &LogEvent) -> (document: Arc<String>)
    ensures
        document@ == document_of(*event),
{
    let mut text = String::new();
    text.push(' ');
    text.append(event.message.as_str());
    text.push(' ');
    text.append(event.event.as_str());
    text.push(' ');
    text.append(event.subsystem.as_str());
    text.push(' ');
    text.append(event.source.as_str());
    text.push(' ');
    text.append(event.correlation_id());
    push_spaced(&mut text, &event.target);
    push_spaced(&mut text, &event.provider);
    push_spaced(&mut text, &event.error_kind);
    push_spaced(&mut text, &event.playback_session_id);
    push_spaced(&mut text, &event.request_id);
    push_spaced(&mut text, &event.session_id);
    if let Some(status) = &event.status {
        text.push(' ');
        push_compact(&mut text, status);
    }
    let ghost start = text@;
    let names = event.fields.keys();
    let ghost order = event.fields.ordered();
    let mut index: usize = 0;
    assert(order.take(0).len() == 0);
    while index < names.len()
        invariant
            index <= names.len(),
            order == event.fields.ordered(),
            views(names@) == order,
            text@ == start + fields_text(order.take(index as int), event.fields@),
        decreases names.len() - index,
    {
        assert(order[index as int] == names@[index as int]@);
        assert(order.take(index + 1).drop_last() == order.take(index as int));
        text.push(' ');
        text.append(names[index].as_str());
        text.push(' ');
        push_compact(&mut text, event.fields.value_at(index));
        assert(text@ == start + fields_text(order.take(index + 1), event.fields@));
        index += 1;
    }
    assert(order.take(index as int) == order);
    assert(text@ == event_text(*event));
    Arc::new(to_lower(text.as_str()))
}

/// `Arc::clone`: another handle on the same text.
#[verifier::external_body]
pub(crate) fn share(document: &Arc<String>) -> (result: Arc<String>)
    ensures
        result@ == document@,
{
    Arc::clone(document)
}

/// A word that occurs in a text is found there.
pub proof fn lemma_literal_words_are_found(text: Seq<char>, term: Seq<char>)
    requires
        occurs_in(text, term),
    ensures
        fuzzy_contains(text, term),
{
}

/// All words have to be found: more words find fewer texts.
pub proof fn lemma_more_words_find_less(
    text: Seq<char>,
    terms: Seq<Seq<char>>,
    more: Seq<Seq<char>>,
)
    ensures
        contains_all(text, terms + more) <==> contains_all(text, terms) && contains_all(text, more),
{
    if contains_all(text, terms + more) {
        assert forall|i: int| 0 <= i < terms.len() implies fuzzy_contains(
            text,
            #[trigger] terms[i],
        ) by {
            assert((terms + more)[i] == terms[i]);
        }
        assert forall|i: int| 0 <= i < more.len() implies fuzzy_contains(
            text,
            #[trigger] more[i],
        ) by {
            assert((terms + more)[terms.len() + i] == more[i]);
        }
    }
    if contains_all(text, terms) && contains_all(text, more) {
        assert forall|i: int| 0 <= i < (terms + more).len() implies fuzzy_contains(
            text,
            #[trigger] (terms + more)[i],
        ) by {
            if i < terms.len() {
                assert((terms + more)[i] == terms[i]);
            } else {
                assert((terms + more)[i] == more[i - terms.len()]);
            }
        }
    }
}

/// Whether one byte tells two runs of bytes apart: at a place another one, one too
/// much, or one too few.
pub open spec fn one_byte_apart(left: Seq<u8>, right: Seq<u8>, place: int) -> bool {
    ||| 0 <= place < left.len() && right == left.update(place, right[place])
    ||| 0 <= place < left.len() && right == left.remove(place)
    ||| 0 <= place < right.len() && left == right.remove(place)
}

proof fn lemma_no_distance(bytes: Seq<u8>)
    ensures
        edit_distance(bytes, bytes) == 0,
    decreases bytes.len(),
{
    if bytes.len() > 0 {
        lemma_no_distance(bytes.drop_last());
    }
}

proof fn lemma_distance_of_one_byte(left: Seq<u8>, right: Seq<u8>, place: int)
    requires
        one_byte_apart(left, right, place),
    ensures
        edit_distance(left, right) <= 1,
    decreases left.len() + right.len(),
{
    if 0 <= place < left.len() && right == left.update(place, right[place]) {
        if place == left.len() - 1 {
            assert(left.drop_last() == right.drop_last());
            lemma_no_distance(left.drop_last());
        } else {
            let (first, second) = (left.drop_last(), right.drop_last());
            assert(second == first.update(place, second[place]));
            lemma_distance_of_one_byte(first, second, place);
            assert(left.last() == right.last());
        }
    } else if 0 <= place < left.len() && right == left.remove(place) {
        if place == left.len() - 1 {
            assert(left.drop_last() == right);
            lemma_no_distance(right);
            if right.len() > 0 {
                assert(edit_distance(left.drop_last(), right) == 0);
            }
        } else {
            let (first, second) = (left.drop_last(), right.drop_last());
            assert(second == first.remove(place));
            lemma_distance_of_one_byte(first, second, place);
            assert(left.last() == right.last());
        }
    } else {
        if place == right.len() - 1 {
            assert(right.drop_last() == left);
            lemma_no_distance(left);
            if left.len() > 0 {
                assert(edit_distance(left, right.drop_last()) == 0);
            }
        } else {
            let (first, second) = (left.drop_last(), right.drop_last());
            assert(first == second.remove(place));
            lemma_distance_of_one_byte(first, second, place);
            assert(left.last() == right.last());
        }
    }
}

/// A small typing mistake is forgiven: a term of four to 64 bytes that one byte tells
/// apart from a word of the text is found.
pub proof fn lemma_one_mistake_is_forgiven(
    text: Seq<char>,
    term: Seq<char>,
    index: int,
    place: int,
)
    requires
        0 <= index < words_of(text).len(),
        4 <= byte_length(term) <= 64,
        byte_length(words_of(text)[index]) <= 64,
        one_byte_apart(encode_utf8(words_of(text)[index]), encode_utf8(term), place),
    ensures
        fuzzy_contains(text, term),
{
    let word = words_of(text)[index];
    lemma_distance_of_one_byte(encode_utf8(word), encode_utf8(term), place);
    assert(is_close(words_of(text)[index], term));
}

/// What stands between other texts is found there, in lower case.
proof fn lemma_middle_is_found(before: Seq<char>, part: Seq<char>, after: Seq<char>)
    ensures
        occurs_in(lowered(before + part + after), lowered(part)),
{
    let text = lowered(before + part + after);
    let position: int = before.len() as int;
    assert(text.subrange(position, position + part.len()) =~= lowered(part));
    assert(occurs_at(text, lowered(part), position));
}

/// Whether an optional text, in lower case, is found in another.
pub open spec fn finds(text: Seq<char>, part: Option<String>) -> bool {
    match part {
        Some(part) => occurs_in(text, lowered(part@)),
        None => true,
    }
}

/// Every text of an event, the identifiers and the other optional ones too, is found in
/// the text that a search looks at.
pub proof fn lemma_every_text_is_searched(event: LogEvent)
    ensures
        occurs_in(document_of(event), lowered(event.message@)),
        occurs_in(document_of(event), lowered(event.event@)),
        occurs_in(document_of(event), lowered(event.subsystem@)),
        occurs_in(document_of(event), lowered(event.source@)),
        occurs_in(document_of(event), lowered(correlation_of(event))),
        finds(document_of(event), event.target),
        finds(document_of(event), event.provider),
        finds(document_of(event), event.error_kind),
        finds(document_of(event), event.playback_session_id),
        finds(document_of(event), event.request_id),
        finds(document_of(event), event.session_id),
{
    let space = seq![' '];
    let status = match event.status {
        Some(status) => space + compact(status),
        None => Seq::empty(),
    };
    let fields = fields_text(event.fields.ordered(), event.fields@);
    let whole = event_text(event);
    let parts = seq![
        space,
        event.message@,
        space,
        event.event@,
        space,
        event.subsystem@,
        space,
        event.source@,
        space,
        correlation_of(event),
        spaced(event.target),
        spaced(event.provider),
        spaced(event.error_kind),
        spaced(event.playback_session_id),
        spaced(event.request_id),
        spaced(event.session_id),
        status,
        fields,
    ];
    assert(chained(parts) == whole) by {
        reveal_with_fuel(chained, 19);
    }
    lemma_part_is_found(parts, 1);
    lemma_part_is_found(parts, 3);
    lemma_part_is_found(parts, 5);
    lemma_part_is_found(parts, 7);
    lemma_part_is_found(parts, 9);
    lemma_optional_is_found(parts, 10, event.target);
    lemma_optional_is_found(parts, 11, event.provider);
    lemma_optional_is_found(parts, 12, event.error_kind);
    lemma_optional_is_found(parts, 13, event.playback_session_id);
    lemma_optional_is_found(parts, 14, event.request_id);
    lemma_optional_is_found(parts, 15, event.session_id);
}

/// Texts one behind the other.
spec fn chained(parts: Seq<Seq<char>>) -> Seq<char>
    decreases parts.len(),
{
    if parts.len() == 0 {
        Seq::empty()
    } else {
        chained(parts.drop_last()) + parts.last()
    }
}

/// What stands before and behind a text among others.
proof fn lemma_chain_around(parts: Seq<Seq<char>>, place: int) -> (around: (Seq<char>, Seq<char>))
    requires
        0 <= place < parts.len(),
    ensures
        chained(parts) == around.0 + parts[place] + around.1,
    decreases parts.len(),
{
    if place == parts.len() - 1 {
        (chained(parts.drop_last()), Seq::empty())
    } else {
        let (before, after) = lemma_chain_around(parts.drop_last(), place);
        assert(chained(parts) =~= before + parts[place] + (after + parts.last()));
        (before, after + parts.last())
    }
}

proof fn lemma_part_is_found(parts: Seq<Seq<char>>, place: int)
    requires
        0 <= place < parts.len(),
    ensures
        occurs_in(lowered(chained(parts)), lowered(parts[place])),
{
    let (before, after) = lemma_chain_around(parts, place);
    lemma_middle_is_found(before, parts[place], after);
}

proof fn lemma_optional_is_found(parts: Seq<Seq<char>>, place: int, text: Option<String>)
    requires
        0 <= place < parts.len(),
        parts[place] == spaced(text),
    ensures
        finds(lowered(chained(parts)), text),
{
    if let Some(text) = text {
        let (before, after) = lemma_chain_around(parts, place);
        assert(chained(parts) =~= (before + seq![' ']) + text@ + after);
        lemma_middle_is_found(before + seq![' '], text@, after);
    }
}

/// Whether some bytes become others by a number of edits, each of which changes one byte,
/// takes one out or puts one in, or by fewer.
pub open spec fn within_edits(left: Seq<u8>, right: Seq<u8>, edits: nat) -> bool
    decreases edits,
{
    ||| left == right
    ||| edits > 0 && exists|middle: Seq<u8>, place: int| #[trigger]
        one_byte_apart(left, middle, place) && within_edits(middle, right, (edits - 1) as nat)
}

/// An edit changes the distance to other bytes by one at most.
proof fn lemma_edit_changes_distance(left: Seq<u8>, middle: Seq<u8>, place: int, right: Seq<u8>)
    requires
        one_byte_apart(left, middle, place),
    ensures
        edit_distance(left, right) <= edit_distance(middle, right) + 1,
    decreases left.len() + middle.len() + right.len(),
{
    if right.len() > 0 {
        let shorter = right.drop_last();
        lemma_edit_changes_distance(left, middle, place, shorter);
        let (first, second) = (left.drop_last(), middle.drop_last());
        if 0 <= place < left.len() && middle == left.update(place, middle[place]) {
            if place == left.len() - 1 {
                assert(first == second);
            } else {
                assert(second == first.update(place, second[place]));
                assert(left.last() == middle.last());
                lemma_edit_changes_distance(first, second, place, right);
                lemma_edit_changes_distance(first, second, place, shorter);
            }
        } else if 0 <= place < left.len() && middle == left.remove(place) {
            if place == left.len() - 1 {
                assert(first == middle);
            } else {
                assert(second == first.remove(place));
                assert(left.last() == middle.last());
                lemma_edit_changes_distance(first, second, place, right);
                lemma_edit_changes_distance(first, second, place, shorter);
            }
        } else {
            if place == middle.len() - 1 {
                assert(second == left);
            } else {
                assert(first == second.remove(place));
                assert(left.last() == middle.last());
                lemma_edit_changes_distance(first, second, place, right);
                lemma_edit_changes_distance(first, second, place, shorter);
            }
        }
    }
}

/// Edits can be made in front of a byte that stays.
proof fn lemma_edits_before_a_byte(left: Seq<u8>, right: Seq<u8>, edits: nat, byte: u8)
    requires
        within_edits(left, right, edits),
    ensures
        within_edits(left.push(byte), right.push(byte), edits),
    decreases edits,
{
    if left != right {
        let (middle, place) = choose|middle: Seq<u8>, place: int| #[trigger]
            one_byte_apart(left, middle, place) && within_edits(
                middle,
                right,
                (edits - 1) as nat,
            );
        lemma_edits_before_a_byte(middle, right, (edits - 1) as nat, byte);
        let (first, second) = (left.push(byte), middle.push(byte));
        if 0 <= place < left.len() && middle == left.update(place, middle[place]) {
            assert(second == first.update(place, second[place]));
        } else if 0 <= place < left.len() && middle == left.remove(place) {
            assert(second == first.remove(place));
        } else {
            assert(first == second.remove(place));
        }
        assert(one_byte_apart(first, second, place));
    }
}

/// Fewer edits are within more.
proof fn lemma_more_edits(left: Seq<u8>, right: Seq<u8>, edits: nat, more: nat)
    requires
        within_edits(left, right, edits),
        edits <= more,
    ensures
        within_edits(left, right, more),
    decreases edits,
{
    if left != right {
        let (middle, place) = choose|middle: Seq<u8>, place: int| #[trigger]
            one_byte_apart(left, middle, place) && within_edits(
                middle,
                right,
                (edits - 1) as nat,
            );
        lemma_more_edits(middle, right, (edits - 1) as nat, (more - 1) as nat);
    }
}

/// There are as many edits between two runs of bytes as their distance says.
proof fn lemma_distance_is_reached(left: Seq<u8>, right: Seq<u8>)
    ensures
        within_edits(left, right, edit_distance(left, right)),
    decreases left.len() + right.len(),
{
    let distance = edit_distance(left, right);
    if left.len() > 0 && (right.len() == 0 || distance == edit_distance(left.drop_last(), right)
        + 1) {
        let middle = left.drop_last();
        lemma_distance_is_reached(middle, right);
        assert(middle == left.remove(left.len() - 1));
        assert(one_byte_apart(left, middle, left.len() - 1));
        if right.len() == 0 && middle.len() > 0 {
            assert(edit_distance(middle, right) == middle.len());
        }
    } else if right.len() > 0 && (left.len() == 0 || distance == edit_distance(
        left,
        right.drop_last(),
    ) + 1) {
        let shorter = right.drop_last();
        let byte = right.last();
        let middle = left.push(byte);
        lemma_distance_is_reached(left, shorter);
        lemma_edits_before_a_byte(left, shorter, edit_distance(left, shorter), byte);
        assert(shorter.push(byte) == right);
        assert(left == middle.remove(middle.len() - 1));
        assert(one_byte_apart(left, middle, middle.len() - 1));
    } else if left.len() > 0 {
        let (first, second) = (left.drop_last(), right.drop_last());
        let byte = right.last();
        lemma_distance_is_reached(first, second);
        lemma_edits_before_a_byte(first, second, edit_distance(first, second), byte);
        assert(second.push(byte) == right);
        let middle = first.push(byte);
        if left.last() == byte {
            assert(middle == left);
        } else {
            assert(middle == left.update(left.len() - 1, middle[left.len() - 1]));
            assert(one_byte_apart(left, middle, left.len() - 1));
        }
    } else {
        assert(left == right);
    }
}

/// The distance of two runs of bytes is the least number of edits, each of one byte, that
/// make one of them the other.
pub proof fn lemma_distance_counts_edits(left: Seq<u8>, right: Seq<u8>, edits: nat)
    ensures
        edit_distance(left, right) <= edits <==> within_edits(left, right, edits),
    decreases edits,
{
    if edit_distance(left, right) <= edits {
        lemma_distance_is_reached(left, right);
        lemma_more_edits(left, right, edit_distance(left, right), edits);
    }
    if within_edits(left, right, edits) {
        if left == right {
            lemma_no_distance(left);
        } else {
            let (middle, place) = choose|middle: Seq<u8>, place: int| #[trigger]
                one_byte_apart(left, middle, place) && within_edits(
                    middle,
                    right,
                    (edits - 1) as nat,
                );
            lemma_distance_counts_edits(middle, right, (edits - 1) as nat);
            lemma_edit_changes_distance(left, middle, place, right);
        }
    }
}

/// A text does not contain a term that does not occur in it, where more than two edits are
/// between the term and each word, or more than one for a term that is shorter than eight
/// bytes, or where the term is shorter than four bytes or longer than 64.
pub proof fn lemma_far_words_are_not_found(text: Seq<char>, term: Seq<char>)
    requires
        !occurs_in(text, term),
        ({
            ||| byte_length(term) < 4
            ||| byte_length(term) > 64
            ||| forall|i: int|
                0 <= i < words_of(text).len() ==> {
                    let word = #[trigger] words_of(text)[i];
                    ||| byte_length(word) > 64
                    ||| !within_edits(encode_utf8(word), encode_utf8(term), 2)
                    ||| byte_length(term) < 8 && !within_edits(
                        encode_utf8(word),
                        encode_utf8(term),
                        1,
                    )
                }
        }),
    ensures
        !fuzzy_contains(text, term),
{
    assert forall|i: int| 0 <= i < words_of(text).len() implies !is_close(
        #[trigger] words_of(text)[i],
        term,
    ) by {
        let word = words_of(text)[i];
        lemma_distance_counts_edits(encode_utf8(word), encode_utf8(term), 2);
        lemma_distance_counts_edits(encode_utf8(word), encode_utf8(term), 1);
    }
}

/// A text contains a term of four to 64 bytes that is one edit away from one of its words,
/// or two edits where the term has eight bytes or more.
pub proof fn lemma_near_words_are_found(text: Seq<char>, term: Seq<char>, index: int)
    requires
        0 <= index < words_of(text).len(),
        4 <= byte_length(term) <= 64,
        byte_length(words_of(text)[index]) <= 64,
        ({
            let (word, wanted) = (encode_utf8(words_of(text)[index]), encode_utf8(term));
            within_edits(word, wanted, 1) || byte_length(term) >= 8 && within_edits(
                word,
                wanted,
                2,
            )
        }),
    ensures
        fuzzy_contains(text, term),
{
    let (word, wanted) = (encode_utf8(words_of(text)[index]), encode_utf8(term));
    lemma_distance_counts_edits(word, wanted, 1);
    lemma_distance_counts_edits(word, wanted, 2);
    assert(is_close(words_of(text)[index], term));
}

proof fn lemma_field_is_in_text(
    names: Seq<Seq<char>>,
    fields: Map<Seq<char>, JsonValue>,
    place: int,
)
    requires
        0 <= place < names.len(),
    ensures
        exists|before: Seq<char>, after: Seq<char>|
            fields_text(names, fields) == #[trigger] (before + (names[place] + seq![' '] + compact(
                fields[names[place]],
            )) + after),
    decreases names.len(),
{
    let told = names[place] + seq![' '] + compact(fields[names[place]]);
    let shorter = names.drop_last();
    let start = fields_text(shorter, fields) + seq![' '];
    let last = names.last() + seq![' '] + compact(fields[names.last()]);
    assert(fields_text(names, fields) == start + last);
    if place == names.len() - 1 {
        assert(start + last == start + told + Seq::<char>::empty());
    } else {
        lemma_field_is_in_text(shorter, fields, place);
        assert(shorter[place] == names[place]);
        let (before, after) = choose|before: Seq<char>, after: Seq<char>|
            fields_text(shorter, fields) == #[trigger] (before + (shorter[place] + seq![' ']
                + compact(fields[shorter[place]])) + after);
        assert(fields_text(names, fields) == before + told + (after + seq![' '] + last));
    }
}

/// The fields of an event are searched too, by their names and by the compact texts of their
/// values, and so is the compact text of its status.
pub proof fn lemma_fields_and_status_are_searched(event: LogEvent, place: int)
    requires
        0 <= place < event.fields.ordered().len(),
    ensures
        ({
            let name = event.fields.ordered()[place];
            &&& occurs_in(document_of(event), lowered(name))
            &&& occurs_in(document_of(event), lowered(compact(event.fields@[name])))
            &&& event.status is Some ==> occurs_in(
                document_of(event),
                lowered(compact(event.status->0)),
            )
        }),
{
    let names = event.fields.ordered();
    let name = names[place];
    let value = compact(event.fields@[name]);
    lemma_field_is_in_text(names, event.fields@, place);
    let (before, after) = choose|before: Seq<char>, after: Seq<char>|
        fields_text(names, event.fields@) == #[trigger] (before + (names[place] + seq![' ']
            + compact(event.fields@[names[place]])) + after);
    let fields = fields_text(names, event.fields@);
    let status = match event.status {
        Some(status) => seq![' '] + compact(status),
        None => Seq::empty(),
    };
    let front = seq![' '] + event.message@ + seq![' '] + event.event@ + seq![' ']
        + event.subsystem@ + seq![' '] + event.source@ + seq![' '] + correlation_of(event)
        + spaced(event.target) + spaced(event.provider) + spaced(event.error_kind) + spaced(
        event.playback_session_id,
    ) + spaced(event.request_id) + spaced(event.session_id);
    let whole = event_text(event);
    assert(whole == front + status + fields);
    let start = front + status + before;
    assert(whole == start + name + (seq![' '] + value + after));
    lemma_middle_is_found(start, name, seq![' '] + value + after);
    assert(whole == (start + name + seq![' ']) + value + after);
    lemma_middle_is_found(start + name + seq![' '], value, after);
    if let Some(status) = event.status {
        assert(whole == (front + seq![' ']) + compact(status) + fields);
        lemma_middle_is_found(front + seq![' '], compact(status), fields);
    }
}

/// The terms that a text asks for are its words in lower case.
pub proof fn lemma_terms_are_the_words(words: Seq<Seq<char>>)
    requires
        ends_word(' '),
        forall|i: int| 0 <= i < words.len() ==> is_word(#[trigger] words[i]),
    ensures
        terms_of(joined(words, " "@)).len() == words.len(),
        forall|i: int|
            0 <= i < words.len() ==> #[trigger] terms_of(joined(words, " "@))[i] == lowered(
                words[i],
            ),
{
    lemma_words_of_join(words);
}

}
