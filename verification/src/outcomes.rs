//! What the operations of the library give back.
use vstd::prelude::*;
use vstd::utf8::encode_utf8;

use crate::conditions::lemma_operators_order_values;
use crate::event::{
    context_names, has_no_brackets, is_topic, lemma_context_in_front_changes_no_tag,
    lemma_label_is_the_tag, lemma_tag_is_of_first_topic, message_labels, tag_text, LogEvent,
};
use crate::grouping::{
    error_group_key, error_shape, has_plain_names, kind_of, lemma_key_tells_events_apart, stack_of,
};
use crate::json::option_view;
use crate::number::{distance, Double};
use crate::query::QueryOperator;
use crate::search::{
    fuzzy_text_contains, lemma_far_words_are_not_found, lemma_near_words_are_found, within_edits,
};
use crate::session::{
    alike, duration_changed, has_ordinary_durations, is_ordinary, lemma_no_difference_means_alike,
    lemma_durations_differ_by_a_millisecond, SessionComparisonRow,
};
use crate::text::{byte_length, joined, lowered, occurs_in, trimmed, unicode_uppercase, words_of};
use crate::natural::two_to;

verus! {

/// What comparing two finite numbers gives: whether their values stand to each other as the
/// operator says.
pub proof fn lemma_numbers_are_compared(
    left: Double,
    right: Double,
    less: bool,
    greater: bool,
    at_most: bool,
    at_least: bool,
)
    requires
        left.finite(),
        right.finite(),
        call_ensures(QueryOperator::compare_number, (QueryOperator::Less, left, right), less),
        call_ensures(QueryOperator::compare_number, (QueryOperator::Greater, left, right), greater),
        call_ensures(
            QueryOperator::compare_number,
            (QueryOperator::LessOrEqual, left, right),
            at_most,
        ),
        call_ensures(
            QueryOperator::compare_number,
            (QueryOperator::GreaterOrEqual, left, right),
            at_least,
        ),
    ensures
        less <==> left.value() < right.value(),
        greater <==> left.value() > right.value(),
        at_most <==> left.value() <= right.value(),
        at_least <==> left.value() >= right.value(),
{
    lemma_operators_order_values(left, right);
}

/// Numbers of the same value are equal and not different, and one of both is always said.
pub proof fn lemma_equal_numbers_are_told(left: Double, right: Double, equal: bool, different: bool)
    requires
        left.finite(),
        right.finite(),
        call_ensures(QueryOperator::compare_number, (QueryOperator::Equal, left, right), equal),
        call_ensures(
            QueryOperator::compare_number,
            (QueryOperator::NotEqual, left, right),
            different,
        ),
    ensures
        left.value() == right.value() ==> equal,
        distance(left.value(), right.value()) >= two_to(1022) ==> !equal,
        different == !equal,
{
    lemma_operators_order_values(left, right);
    crate::number::lemma_near_means_within_epsilon(left, right);
}

/// Texts are compared without regard to case, and have no order.
pub proof fn lemma_texts_are_compared(
    left: &str,
    right: &str,
    equal: bool,
    different: bool,
    operator: QueryOperator,
    ordered: bool,
)
    requires
        call_ensures(QueryOperator::compare_text, (QueryOperator::Equal, left, right), equal),
        call_ensures(QueryOperator::compare_text, (QueryOperator::NotEqual, left, right), different),
        operator != QueryOperator::Equal && operator != QueryOperator::NotEqual,
        call_ensures(QueryOperator::compare_text, (operator, left, right), ordered),
    ensures
        equal <==> lowered(left@) == lowered(right@),
        different <==> lowered(left@) != lowered(right@),
        !ordered,
{
}

/// A term is found in a text that it occurs in, and in one with a word that is one edit away
/// from it, or two where the term has eight bytes or more; it is not found elsewhere.
pub proof fn lemma_terms_are_found(text: &str, term: &str, found: bool)
    requires
        call_ensures(fuzzy_text_contains, (text, term), found),
        4 <= byte_length(term@) <= 64,
    ensures
        found <==> occurs_in(text@, term@) || exists|i: int|
            0 <= i < words_of(text@).len() && {
                let word = #[trigger] words_of(text@)[i];
                byte_length(word) <= 64 && within_edits(
                    encode_utf8(word),
                    encode_utf8(term@),
                    if byte_length(term@) < 8 {
                        1
                    } else {
                        2
                    },
                )
            },
{
    let edits: nat = if byte_length(term@) < 8 {
        1
    } else {
        2
    };
    if exists|i: int|
        0 <= i < words_of(text@).len() && {
            let word = #[trigger] words_of(text@)[i];
            byte_length(word) <= 64 && within_edits(encode_utf8(word), encode_utf8(term@), edits)
        } {
        let i = choose|i: int|
            0 <= i < words_of(text@).len() && {
                let word = #[trigger] words_of(text@)[i];
                byte_length(word) <= 64 && within_edits(
                    encode_utf8(word),
                    encode_utf8(term@),
                    edits,
                )
            };
        lemma_near_words_are_found(text@, term@, i);
    } else if !occurs_in(text@, term@) {
        lemma_far_words_are_not_found(text@, term@);
    }
}

/// A term that is too short or too long to have mistakes is found only where it occurs.
pub proof fn lemma_short_terms_have_to_occur(text: &str, term: &str, found: bool)
    requires
        call_ensures(fuzzy_text_contains, (text, term), found),
        byte_length(term@) < 4 || byte_length(term@) > 64,
    ensures
        found <==> occurs_in(text@, term@),
{
    if !occurs_in(text@, term@) {
        lemma_far_words_are_not_found(text@, term@);
    }
}

/// Events get the same key where they come from the same place, have the same name and kind,
/// and their messages and stacks have the same shapes, and only there.
pub proof fn lemma_equal_keys_mean_same_trouble(
    first: LogEvent,
    second: LogEvent,
    first_key: String,
    second_key: String,
)
    requires
        call_ensures(error_group_key, (&first,), first_key),
        call_ensures(error_group_key, (&second,), second_key),
        has_plain_names(first),
        has_plain_names(second),
        !error_shape(first.message@).contains('\u{1f}'),
        !error_shape(second.message@).contains('\u{1f}'),
    ensures
        first_key@ == second_key@ <==> {
            &&& first.source@ == second.source@
            &&& first.subsystem@ == second.subsystem@
            &&& first.event@ == second.event@
            &&& kind_of(first) == kind_of(second)
            &&& error_shape(first.message@) == error_shape(second.message@)
            &&& error_shape(stack_of(first)) == error_shape(stack_of(second))
        },
{
    lemma_key_tells_events_apart(first, second);
}

/// The tag of a message without labels is made of the first part of the subsystem that says
/// what it is about.
pub proof fn lemma_tag_is_made_of_topic(
    message: &str,
    subsystem: &str,
    tag: String,
    segments: Seq<Seq<char>>,
    index: int,
    words: Seq<Seq<char>>,
)
    requires
        call_ensures(tag_text, (message, subsystem), tag),
        subsystem@ == joined(segments, "."@),
        message_labels(message@).len() == 0,
        0 <= index < segments.len(),
        forall|i: int| 0 <= i < segments.len() ==> !(#[trigger] segments[i]).contains('.'),
        forall|i: int|
            0 <= i < index ==> (#[trigger] segments[i]).len() == 0 || context_names().contains(
                lowered(segments[i]),
            ),
        segments[index].len() > 0 && !context_names().contains(lowered(segments[index])),
        segments[index] == joined(words, "_"@),
        words.len() > 0,
        forall|i: int|
            0 <= i < words.len() ==> (#[trigger] words[i]).len() > 0 && !words[i].contains('_'),
    ensures
        tag@ == joined(
            words.map_values(|word: Seq<char>| unicode_uppercase(word[0]) + word.drop_first()),
            " "@,
        ),
{
    assert forall|i: int| 0 <= i < index implies !is_topic(#[trigger] segments[i]) by {}
    lemma_tag_is_of_first_topic(message@, segments, index, words);
}

/// Two subsystems, one of which has a context in front of the other, have the same tag, where
/// the other has a part that says what it is about.
pub proof fn lemma_context_in_front_keeps_tag(
    message: &str,
    plain: &str,
    placed: &str,
    plain_tag: String,
    placed_tag: String,
    front: Seq<char>,
    segments: Seq<Seq<char>>,
    index: int,
)
    requires
        call_ensures(tag_text, (message, plain), plain_tag),
        call_ensures(tag_text, (message, placed), placed_tag),
        context_names().contains(lowered(front)),
        !front.contains('.'),
        plain@ == joined(segments, "."@),
        placed@ == front + "."@ + plain@,
        0 <= index < segments.len(),
        forall|i: int| 0 <= i < segments.len() ==> !(#[trigger] segments[i]).contains('.'),
        segments[index].len() > 0 && !context_names().contains(lowered(segments[index])),
    ensures
        placed_tag@ == plain_tag@,
{
    lemma_context_in_front_changes_no_tag(message@, front, segments, index);
}

/// A message that begins with a label that says what it is about has that label as its tag.
pub proof fn lemma_label_becomes_tag(
    message: &str,
    subsystem: &str,
    tag: String,
    label: Seq<char>,
    rest: Seq<char>,
)
    requires
        call_ensures(tag_text, (message, subsystem), tag),
        message@ == "["@ + label + "]"@ + rest,
        has_no_brackets(label),
        is_topic(trimmed(label)),
    ensures
        tag@ == trimmed(label),
{
    lemma_label_is_the_tag(label, rest, subsystem@);
}

/// A row of a comparison says that there is a difference unless all of its figures are alike.
pub proof fn lemma_rows_tell_differences(row: SessionComparisonRow, differs: bool)
    requires
        call_ensures(SessionComparisonRow::differs, (&row,), differs),
        has_ordinary_durations(row),
    ensures
        row.count_a != row.count_b ==> differs,
        row.warnings_a != row.warnings_b ==> differs,
        row.errors_a != row.errors_b ==> differs,
        option_view(row.status_a) != option_view(row.status_b) ==> differs,
        !alike(row.average_duration_a, row.average_duration_b) ==> differs,
        !alike(row.max_duration_a, row.max_duration_b) ==> differs,
        row.count_a == row.count_b && row.warnings_a == row.warnings_b && row.errors_a
            == row.errors_b && option_view(row.status_a) == option_view(row.status_b)
            && row.average_duration_a == row.average_duration_b && row.max_duration_a
            == row.max_duration_b ==> !differs,
{
    lemma_no_difference_means_alike(row);
}

/// Durations have changed where one is missing or they are a millisecond or more apart.
pub proof fn lemma_durations_change_by_a_millisecond(
    left: Option<Double>,
    right: Option<Double>,
    changed: bool,
)
    requires
        call_ensures(duration_changed, (left, right), changed),
        is_ordinary(left),
        is_ordinary(right),
    ensures
        left is Some != right is Some ==> changed,
        !alike(left, right) ==> changed,
        left == right ==> !changed,
{
    lemma_durations_differ_by_a_millisecond(left, right);
    if left is Some && left == right {
        assert(distance(left->0.value(), right->0.value()) == 0);
    }
}

}
