//! What the conditions of queries mean.
use vstd::prelude::*;

use crate::event::{correlation_of, tag_of, LogEvent};
use crate::json::{option_view, JsonNumber, JsonValue};
use crate::level::{level_text, Level};
use crate::natural::{lemma_two_to_monotone, ten_to, two_to};
use crate::number::{
    distance, integer_double, lemma_exact_key, lemma_exact_rounds, lemma_integer_double,
    lemma_integer_is_exact, lemma_magnitude_monotone, lemma_near_means_within_epsilon, magnitude,
    rounds_to, Double, EPSILON_KEY, SIGN,
};
use crate::numeral::{
    all_digits, behind, before, denotes, digits_value, exponent_mark, form_of, i64_of, is_digit,
    lemma_number_reading, number_reading, point, split_sign, Form,
};
use crate::query::{
    condition_outcome, entries_from, entry_at, entry_words, in_field_name, inline_operators,
    inline_split, json_literal, names_query_field, numbers_satisfy, operator_named,
    optional_text_value, part_value, query_entries, query_token_models, quote_state,
    relative_seconds, separates_tokens, timestamp_literal, token_of, token_runs, unit_seconds,
    unquoted, LiteralModel, QueryEntry, QueryOperator, TokenModel,
};
use crate::store::{condition_holds, conditions_accept, entry_holds, query_words};
use crate::text::{
    has_prefix, is_space, joined, lemma_first_occurrence, lemma_first_where_is, lowered, occurs_at,
    replaced, trimmed,
};
use crate::time::{is_instant, Timestamp, FIRST_SECOND, NANOS_PER_SECOND};

verus! {

/// The operators order finite numbers by their values.
pub proof fn lemma_operators_order_values(left: Double, right: Double)
    requires
        left.finite(),
        right.finite(),
    ensures
        numbers_satisfy(QueryOperator::Less, left, right) <==> left.value() < right.value(),
        numbers_satisfy(QueryOperator::LessOrEqual, left, right) <==> left.value()
            <= right.value(),
        numbers_satisfy(QueryOperator::Greater, left, right) <==> left.value() > right.value(),
        numbers_satisfy(QueryOperator::GreaterOrEqual, left, right) <==> left.value()
            >= right.value(),
        left.value() == right.value() ==> numbers_satisfy(QueryOperator::Equal, left, right),
        numbers_satisfy(QueryOperator::NotEqual, left, right) <==> !numbers_satisfy(
            QueryOperator::Equal,
            left,
            right,
        ),
{
    lemma_magnitude_monotone(0, (EPSILON_KEY - 1) as nat);
    lemma_magnitude_monotone(0, EPSILON_KEY as nat);
}

/// How the operators relate to each other: each order is the other one turned round, and
/// what is below is not at least as large. Nothing holds of what is no number.
pub proof fn lemma_operators_are_told_apart(left: Double, right: Double)
    ensures
        numbers_satisfy(QueryOperator::Less, left, right) <==> numbers_satisfy(
            QueryOperator::Greater,
            right,
            left,
        ),
        numbers_satisfy(QueryOperator::LessOrEqual, left, right) <==> numbers_satisfy(
            QueryOperator::GreaterOrEqual,
            right,
            left,
        ),
        numbers_satisfy(QueryOperator::Equal, left, right) <==> numbers_satisfy(
            QueryOperator::Equal,
            right,
            left,
        ),
        !left.nan() && !right.nan() ==> {
            &&& numbers_satisfy(QueryOperator::Less, left, right) != numbers_satisfy(
                QueryOperator::GreaterOrEqual,
                left,
                right,
            )
            &&& numbers_satisfy(QueryOperator::Greater, left, right) != numbers_satisfy(
                QueryOperator::LessOrEqual,
                left,
                right,
            )
        },
        left.nan() || right.nan() ==> forall|operator: QueryOperator| !#[trigger]
            numbers_satisfy(operator, left, right),
{
}

/// Digits that stand for a number of 53 bits are read as the double of its value.
pub proof fn lemma_digits_are_read(text: Seq<char>)
    requires
        text.len() > 0,
        all_digits(text),
        digits_value(text) < 0x20_0000_0000_0000,
    ensures
        number_reading(text) == Some(integer_double(digits_value(text) as int)),
{
    let number = digits_value(text);
    assert(is_digit(text[0]));
    assert(split_sign(text) == (false, text));
    reveal_strlit("inf");
    reveal_strlit("infinity");
    reveal_strlit("nan");
    assert(lowered(text)[0] == text[0]);
    assert(lowered(text) != "inf"@ && lowered(text) != "infinity"@ && lowered(text) != "nan"@);
    lemma_first_where_is(text, exponent_mark(), text.len() as int);
    assert(before(text, text.len() as int) == text);
    lemma_first_where_is(text, point(), text.len() as int);
    assert(behind(text, text.len() as int) == Seq::<char>::empty());
    assert(text + Seq::<char>::empty() == text);
    assert(form_of(text) == Some(Form::Decimal { digits: number, exponent: 0 }));
    let result = integer_double(number as int);
    let key = lemma_exact_key(number);
    assert(magnitude(key) * 1 == number * two_to(1074));
    lemma_exact_rounds(number * two_to(1074), 1, key);
    let exact = Double { bits: key as u64 };
    assert(exact.key() == key);
    assert(distance(number as int, 0) == number);
    assert(exact.holds_integer(number as int));
    lemma_integer_double(number as int, exact);
    assert(ten_to(0) == 1);
    assert(number * 1 * two_to(1074) == number * two_to(1074)) by (nonlinear_arith);
    assert(denotes(result, false, Form::Decimal { digits: number, exponent: 0 }));
    lemma_number_reading(text, Some(result));
}

/// Whether a text can stand in a query as it is: it is not empty and has no white space and
/// no quotes.
pub open spec fn is_plain_word(word: Seq<char>) -> bool {
    &&& word.len() > 0
    &&& forall|i: int|
        0 <= i < word.len() ==> !is_space(#[trigger] word[i]) && word[i] != '"' && word[i] != '\''
}

/// The runs of characters of a query.
spec fn all_runs(query: Seq<char>) -> Seq<(int, int)> {
    let (complete, open) = token_runs(query, query.len() as int);
    match open {
        Some(start) => complete.push((start, query.len() as int)),
        None => complete,
    }
}

/// Without quotes none is open.
proof fn lemma_no_quotes(query: Seq<char>, count: int)
    requires
        0 <= count <= query.len(),
        forall|i: int| 0 <= i < query.len() ==> #[trigger] query[i] != '"' && query[i] != '\'',
    ensures
        quote_state(query, count) == (None::<char>, false),
    decreases count,
{
    if count > 0 {
        lemma_no_quotes(query, count - 1);
    }
}

/// The first runs of a query do not depend on what follows.
proof fn lemma_runs_of_prefix(first: Seq<char>, second: Seq<char>, count: int)
    requires
        0 <= count <= first.len(),
        count <= second.len(),
        first.take(count) == second.take(count),
    ensures
        token_runs(first, count) == token_runs(second, count),
        quote_state(first, count) == quote_state(second, count),
    decreases count,
{
    if count > 0 {
        assert(first.take(count - 1) == first.take(count).take(count - 1));
        assert(second.take(count - 1) == second.take(count).take(count - 1));
        lemma_runs_of_prefix(first, second, count - 1);
        assert(first[count - 1] == first.take(count)[count - 1]);
        assert(second[count - 1] == second.take(count)[count - 1]);
    }
}

/// A run of characters that no white space interrupts stays open.
proof fn lemma_run_stays_open(query: Seq<char>, start: int, count: int)
    requires
        0 <= start < count <= query.len(),
        forall|i: int| 0 <= i < query.len() ==> #[trigger] query[i] != '"' && query[i] != '\'',
        forall|i: int| start <= i < count ==> !is_space(#[trigger] query[i]),
        token_runs(query, start).1 is None,
    ensures
        token_runs(query, count) == (token_runs(query, start).0, Some(start)),
    decreases count,
{
    lemma_no_quotes(query, count - 1);
    if start < count - 1 {
        lemma_run_stays_open(query, start, count - 1);
    }
}

proof fn lemma_joined_has_no_quotes(words: Seq<Seq<char>>)
    requires
        forall|i: int| 0 <= i < words.len() ==> is_plain_word(#[trigger] words[i]),
    ensures
        forall|i: int|
            0 <= i < joined(words, " "@).len() ==> #[trigger] joined(words, " "@)[i] != '"'
                && joined(words, " "@)[i] != '\'',
    decreases words.len(),
{
    reveal_strlit(" ");
    if words.len() == 1 {
        assert(is_plain_word(words[0]));
    } else if words.len() > 1 {
        let before = words.drop_last();
        assert forall|i: int| 0 <= i < before.len() implies is_plain_word(#[trigger] before[i]) by {
            assert(is_plain_word(words[i]));
        }
        lemma_joined_has_no_quotes(before);
        let last = words[words.len() - 1];
        assert(is_plain_word(last));
        let (query, shorter) = (joined(words, " "@), joined(before, " "@));
        assert(query == shorter + " "@ + last);
        assert forall|i: int| 0 <= i < query.len() implies #[trigger] query[i] != '"' && query[i]
            != '\'' by {
            if i < shorter.len() {
                assert(query[i] == shorter[i]);
            } else if i > shorter.len() {
                assert(query[i] == last[i - shorter.len() - 1]);
            }
        }
    }
}

/// Words with a space between them are the tokens of a query.
pub proof fn lemma_words_are_tokens(words: Seq<Seq<char>>)
    requires
        forall|i: int| 0 <= i < words.len() ==> is_plain_word(#[trigger] words[i]),
    ensures
        query_token_models(joined(words, " "@)).map_values(|token: TokenModel| token.text)
            == words,
{
    let query = joined(words, " "@);
    lemma_word_runs(words);
    let runs = all_runs(query);
    assert(query_token_models(query) == runs.map_values(|run: (int, int)| token_of(query, run)));
    assert(query_token_models(query).map_values(|token: TokenModel| token.text) =~= words);
}

proof fn lemma_word_runs(words: Seq<Seq<char>>)
    requires
        forall|i: int| 0 <= i < words.len() ==> is_plain_word(#[trigger] words[i]),
    ensures
        ({
            let query = joined(words, " "@);
            let runs = all_runs(query);
            &&& words.len() > 0 ==> token_runs(query, query.len() as int).1 is Some
            &&& runs.len() == words.len()
            &&& forall|i: int|
                0 <= i < words.len() ==> {
                    let run = #[trigger] runs[i];
                    0 <= run.0 <= run.1 <= query.len() && query.subrange(run.0, run.1) == words[i]
                }
        }),
    decreases words.len(),
{
    reveal_strlit(" ");
    let query = joined(words, " "@);
    lemma_joined_has_no_quotes(words);
    if words.len() == 1 {
        assert(is_plain_word(words[0]));
        lemma_run_stays_open(query, 0, query.len() as int);
        assert(query.subrange(0, query.len() as int) == query);
    } else if words.len() > 1 {
        let earlier = words.drop_last();
        let last = words.last();
        assert(is_plain_word(words[words.len() - 1]));
        assert forall|i: int| 0 <= i < earlier.len() implies is_plain_word(
            #[trigger] earlier[i],
        ) by {
            assert(is_plain_word(words[i]));
        }
        lemma_word_runs(earlier);
        let shorter = joined(earlier, " "@);
        let place = shorter.len() as int;
        assert(query == shorter + " "@ + last);
        assert(query.take(place) == shorter);
        assert(shorter.take(place) == shorter);
        lemma_runs_of_prefix(query, shorter, place);
        assert(query[place] == ' ');
        lemma_no_quotes(query, place);
        assert(separates_tokens(query, place));
        let begun = token_runs(shorter, place);
        assert(token_runs(query, place + 1) == (
            begun.0.push((begun.1->0, place)),
            None::<int>,
        ));
        assert forall|i: int| place + 1 <= i < query.len() implies !is_space(
            #[trigger] query[i],
        ) by {
            assert(query[i] == last[i - place - 1]);
        }
        lemma_run_stays_open(query, place + 1, query.len() as int);
        let runs = all_runs(query);
        let known = all_runs(shorter);
        assert(runs == known.push((place + 1, query.len() as int)));
        assert forall|i: int| 0 <= i < words.len() implies {
            let run = #[trigger] runs[i];
            0 <= run.0 <= run.1 <= query.len() && query.subrange(run.0, run.1) == words[i]
        } by {
            if i < earlier.len() {
                let run = known[i];
                assert(runs[i] == run);
                assert(query.subrange(run.0, run.1) =~= shorter.subrange(run.0, run.1));
                assert(earlier[i] == words[i]);
            } else {
                assert(query.subrange(place + 1, query.len() as int) =~= last);
            }
        }
    } else {
        assert(query == Seq::<char>::empty());
    }
}

/// Whether a text can be the left side of a condition in one word: none of its characters
/// stands in an operator.
pub open spec fn is_plain_name(field: Seq<char>) -> bool {
    &&& is_plain_word(field)
    &&& forall|i: int|
        0 <= i < field.len() ==> #[trigger] field[i] != '<' && field[i] != '>' && field[i] != '='
            && field[i] != '!' && field[i] != ':'
}

/// Whether a text can be the right side of a condition in one word.
pub open spec fn is_plain_value(value: Seq<char>) -> bool {
    &&& is_plain_word(value)
    &&& forall|i: int|
        0 <= i < value.len() ==> #[trigger] value[i] != '<' && value[i] != '>' && value[i] != '='
}

/// Whether a text is one of the operators.
pub open spec fn is_operator(text: Seq<char>) -> bool {
    ||| text == "="@
    ||| text == ":"@
    ||| text == "!="@
    ||| text == ">"@
    ||| text == ">="@
    ||| text == "<"@
    ||| text == "<="@
}

proof fn lemma_operator_characters()
    ensures
        "="@ == seq!['='],
        ":"@ == seq![':'],
        "!="@ == seq!['!', '='],
        ">"@ == seq!['>'],
        ">="@ == seq!['>', '='],
        "<"@ == seq!['<'],
        "<="@ == seq!['<', '='],
        " "@ == seq![' '],
        inline_operators().len() == 7,
        inline_operators()[0] == ">="@,
        inline_operators()[1] == "<="@,
        inline_operators()[2] == "!="@,
        inline_operators()[3] == "="@,
        inline_operators()[4] == ">"@,
        inline_operators()[5] == "<"@,
        inline_operators()[6] == ":"@,
{
    reveal_strlit("=");
    reveal_strlit(":");
    reveal_strlit("!=");
    reveal_strlit(">");
    reveal_strlit(">=");
    reveal_strlit("<");
    reveal_strlit("<=");
    reveal_strlit(" ");
}

/// The operators are words.
proof fn lemma_operators_are_words(operator: Seq<char>)
    requires
        is_operator(operator),
    ensures
        is_plain_word(operator),
        operator_named(operator) is Some,
{
    lemma_operator_characters();
}

/// A condition inside a token is split at the first operator of the order that occurs.
proof fn lemma_split_at_operator(token: Seq<char>, from: int, index: int, position: int)
    requires
        0 <= from <= index < inline_operators().len(),
        forall|j: int, place: int|
            from <= j < index ==> !#[trigger] occurs_at(token, inline_operators()[j], place),
        occurs_at(token, inline_operators()[index], position),
        position > 0,
        forall|place: int| place < position ==> !occurs_at(token, inline_operators()[index], place),
    ensures
        inline_split(token, from) == Some(
            (
                token.take(position),
                inline_operators()[index],
                token.skip(position + inline_operators()[index].len()),
            ),
        ),
    decreases index - from,
{
    let operator = inline_operators()[from];
    if from == index {
        lemma_first_occurrence(token, operator, 0, Some(position));
    } else {
        assert forall|place: int| 0 <= place implies !occurs_at(token, operator, place) by {}
        lemma_first_occurrence(token, operator, 0, None);
        lemma_split_at_operator(token, from + 1, index, position);
    }
}

/// The place of an operator among those that can stand inside a token.
spec fn place_of(operator: Seq<char>) -> int {
    if operator == ">="@ {
        0
    } else if operator == "<="@ {
        1
    } else if operator == "!="@ {
        2
    } else if operator == "="@ {
        3
    } else if operator == ">"@ {
        4
    } else if operator == "<"@ {
        5
    } else {
        6
    }
}

proof fn lemma_occurs_character(text: Seq<char>, part: Seq<char>, place: int, index: int)
    requires
        occurs_at(text, part, place),
        0 <= index < part.len(),
    ensures
        place + index < text.len(),
        text[place + index] == part[index],
{
    assert(text.subrange(place, place + part.len())[index] == part[index]);
}

/// Which characters of a condition stand in an operator.
proof fn lemma_condition_characters(
    field: Seq<char>,
    operator: Seq<char>,
    value: Seq<char>,
    place: int,
)
    requires
        is_plain_name(field),
        is_operator(operator),
        forall|i: int|
            0 <= i < value.len() ==> #[trigger] value[i] != '<' && value[i] != '>' && value[i]
                != '=',
        0 <= place < (field + operator + value).len(),
    ensures
        ({
            let character = (field + operator + value)[place];
            let token = character == '<' || character == '>' || character == '=';
            &&& token ==> field.len() <= place < field.len() + operator.len()
                && character == operator[place - field.len()]
            &&& place < field.len() ==> character != '!' && character != ':'
        }),
{
    let token = field + operator + value;
    if place < field.len() {
        assert(token[place] == field[place]);
    } else if place < field.len() + operator.len() {
        assert(token[place] == operator[place - field.len()]);
    } else {
        assert(token[place] == value[place - field.len() - operator.len()]);
    }
}

/// A condition in one word is read as its three parts.
proof fn lemma_inline_parts(field: Seq<char>, operator: Seq<char>, value: Seq<char>)
    requires
        is_plain_name(field),
        is_operator(operator),
        forall|i: int|
            0 <= i < value.len() ==> #[trigger] value[i] != '<' && value[i] != '>' && value[i]
                != '=',
    ensures
        inline_split(field + operator + value, 0) == Some((field, operator, value)),
{
    lemma_operator_characters();
    let token = field + operator + value;
    let index = place_of(operator);
    let position = field.len() as int;
    assert(inline_operators()[index] == operator);
    assert forall|j: int, place: int| 0 <= j < index implies !#[trigger] occurs_at(
        token,
        inline_operators()[j],
        place,
    ) by {
        let other = inline_operators()[j];
        if occurs_at(token, other, place) {
            lemma_occurs_character(token, other, place, 0);
            lemma_condition_characters(field, operator, value, place);
            if other.len() == 2 {
                lemma_occurs_character(token, other, place, 1);
                lemma_condition_characters(field, operator, value, place + 1);
            }
        }
    }
    assert(token.subrange(position, position + operator.len()) == operator);
    assert forall|place: int| place < position implies !occurs_at(token, operator, place) by {
        if occurs_at(token, operator, place) {
            lemma_occurs_character(token, operator, place, 0);
            lemma_condition_characters(field, operator, value, place);
        }
    }
    lemma_split_at_operator(token, 0, index, position);
    assert(token.take(position) == field);
    assert(token.skip(position + operator.len()) == value);
}

/// Whether an entry of a query is a condition of three given parts.
spec fn is_condition(
    entry: QueryEntry,
    left: Seq<char>,
    middle: Seq<char>,
    right: Seq<char>,
) -> bool {
    match entry {
        QueryEntry::Condition { field, operator, value, .. } => field == left && operator == middle
            && value == right,
        _ => false,
    }
}

/// A condition can be written in one word or with spaces between its parts: either way it is
/// all that the query says.
proof fn lemma_condition_is_the_query(field: Seq<char>, operator: Seq<char>, value: Seq<char>)
    requires
        is_plain_name(field),
        is_operator(operator),
        is_plain_value(value),
        names_query_field(field),
    ensures
        query_entries(field + operator + value).len() == 1,
        is_condition(query_entries(field + operator + value)[0], field, operator, value),
        query_entries(field + " "@ + operator + " "@ + value).len() == 1,
        is_condition(
            query_entries(field + " "@ + operator + " "@ + value)[0],
            field,
            operator,
            value,
        ),
{
    reveal_with_fuel(entries_from, 2);
    lemma_operator_characters();
    lemma_operators_are_words(operator);
    let token = field + operator + value;
    assert(is_plain_word(token)) by {
        assert forall|i: int| 0 <= i < token.len() implies !is_space(#[trigger] token[i])
            && token[i] != '"' && token[i] != '\'' by {
            if i < field.len() {
                assert(token[i] == field[i]);
            } else if i < field.len() + operator.len() {
                assert(token[i] == operator[i - field.len()]);
            } else {
                assert(token[i] == value[i - field.len() - operator.len()]);
            }
        }
    }
    lemma_words_are_tokens(seq![token]);
    assert(joined(seq![token], " "@) == token);
    let texts = |model: TokenModel| model.text;
    let single = query_token_models(token);
    assert(single.map_values(texts).len() == 1);
    assert(single.map_values(texts)[0] == token);
    lemma_inline_parts(field, operator, value);
    assert(query_entries(token) =~= seq![entry_at(single, 0).0]);

    let words = seq![field, operator, value];
    let query = field + " "@ + operator + " "@ + value;
    reveal_with_fuel(joined, 4);
    assert(words.drop_last() == seq![field, operator]);
    assert(seq![field, operator].drop_last() == seq![field]);
    assert(joined(words, " "@) == query);
    assert forall|i: int| 0 <= i < words.len() implies is_plain_word(#[trigger] words[i]) by {}
    lemma_words_are_tokens(words);
    let tokens = query_token_models(query);
    assert(tokens.map_values(texts).len() == 3);
    assert(tokens.map_values(texts)[0] == field);
    assert(tokens.map_values(texts)[1] == operator);
    assert(tokens.map_values(texts)[2] == value);
    assert(query_entries(query) =~= seq![entry_at(tokens, 0).0]);
}

/// What a query that is one condition accepts, however it is written, and that it asks for
/// no words.
proof fn lemma_condition_decides(
    field: Seq<char>,
    operator: Seq<char>,
    value: Seq<char>,
    query: Seq<char>,
    now: Timestamp,
    event: LogEvent,
)
    requires
        is_plain_name(field),
        is_operator(operator),
        is_plain_value(value),
        names_query_field(field),
        query == field + operator + value || query == field + " "@ + operator + " "@ + value,
    ensures
        query_words(query).len() == 0,
        conditions_accept(query, now, event) <==> match condition_outcome(
            field,
            operator,
            value,
            now,
        ) {
            Ok(condition) => condition_holds(field, condition, event),
            Err(_) => false,
        },
        unquoted(value) == Some(value),
{
    lemma_condition_is_the_query(field, operator, value);
    let entries = query_entries(query);
    reveal_with_fuel(entry_words, 2);
    assert(entries.drop_last().len() == 0);
    assert(entry_words(entries) =~= Seq::<Seq<char>>::empty());
    assert(conditions_accept(query, now, event) == entry_holds(entries[0], now, event));
    lemma_plain_value_is_itself(value);
}

/// A plain value has nothing around it that is left out.
proof fn lemma_plain_value_is_itself(value: Seq<char>)
    requires
        is_plain_value(value),
    ensures
        unquoted(value) == Some(value),
{
    assert(!is_space(value[0]));
    assert(!is_space(value[value.len() - 1]));
    assert(trimmed(value) == value);
}

/// Whether two integers stand to each other as the text of an operator says.
pub open spec fn relates(operator: Seq<char>, left: int, right: int) -> bool {
    if operator == "="@ || operator == ":"@ {
        left == right
    } else if operator == "!="@ {
        left != right
    } else if operator == ">"@ {
        left > right
    } else if operator == ">="@ {
        left >= right
    } else if operator == "<"@ {
        left < right
    } else {
        operator == "<="@ && left <= right
    }
}

/// The parts of an event that are found under the names that a condition can give them.
proof fn lemma_parts_by_name(event: LogEvent)
    ensures
        part_value(event, "schema_version"@) == Some(
            LiteralModel::Number(integer_double(event.schema_version as int)),
        ),
        part_value(event, "timestamp"@) == Some(
            LiteralModel::Number(integer_double(event.timestamp.millis())),
        ),
        part_value(event, "level"@) == Some(LiteralModel::Text(level_text(event.level))),
        part_value(event, "source"@) == Some(LiteralModel::Text(event.source@)),
        part_value(event, "tag"@) == Some(
            LiteralModel::Text(tag_of(event.message@, event.subsystem@)),
        ),
        part_value(event, "subsystem"@) == Some(LiteralModel::Text(event.subsystem@)),
        part_value(event, "target"@) == optional_text_value(event.target),
        part_value(event, "event"@) == Some(LiteralModel::Text(event.event@)),
        part_value(event, "message"@) == Some(LiteralModel::Text(event.message@)),
        part_value(event, "app_session_id"@) == Some(LiteralModel::Text(event.app_session_id@)),
        part_value(event, "playback_session_id"@) == optional_text_value(
            event.playback_session_id,
        ),
        part_value(event, "request_id"@) == optional_text_value(event.request_id),
        part_value(event, "session_id"@) == optional_text_value(event.session_id),
        part_value(event, "provider"@) == optional_text_value(event.provider),
        part_value(event, "duration_ms"@) == (match event.duration_ms {
            Some(duration) => Some(LiteralModel::Number(duration)),
            None => None,
        }),
        part_value(event, "error_kind"@) == optional_text_value(event.error_kind),
        part_value(event, "status"@) == (match event.status {
            Some(value) => json_literal(value),
            None => None,
        }),
        part_value(event, "correlation"@) == Some(LiteralModel::Text(correlation_of(event))),
{
    reveal_strlit("schema_version");
    reveal_strlit("timestamp");
    reveal_strlit("level");
    reveal_strlit("source");
    reveal_strlit("tag");
    reveal_strlit("subsystem");
    reveal_strlit("target");
    reveal_strlit("event");
    reveal_strlit("message");
    reveal_strlit("app_session_id");
    reveal_strlit("playback_session_id");
    reveal_strlit("request_id");
    reveal_strlit("session_id");
    reveal_strlit("provider");
    reveal_strlit("duration_ms");
    reveal_strlit("error_kind");
    reveal_strlit("status");
    reveal_strlit("correlation");
    reveal_strlit("fields.");
    assert("schema_version"@.len() == 14 && "schema_version"@[0] == 's');
    assert("timestamp"@.len() == 9 && "timestamp"@[0] == 't');
    assert("level"@.len() == 5 && "level"@[0] == 'l');
    assert("source"@.len() == 6 && "source"@[0] == 's');
    assert("tag"@.len() == 3 && "tag"@[0] == 't');
    assert("subsystem"@.len() == 9 && "subsystem"@[0] == 's');
    assert("target"@.len() == 6 && "target"@[0] == 't');
    assert("event"@.len() == 5 && "event"@[0] == 'e');
    assert("message"@.len() == 7 && "message"@[0] == 'm');
    assert("app_session_id"@.len() == 14 && "app_session_id"@[0] == 'a');
    assert("playback_session_id"@.len() == 19 && "playback_session_id"@[0] == 'p');
    assert("request_id"@.len() == 10 && "request_id"@[0] == 'r');
    assert("session_id"@.len() == 10 && "session_id"@[0] == 's');
    assert("provider"@.len() == 8 && "provider"@[0] == 'p');
    assert("duration_ms"@.len() == 11 && "duration_ms"@[0] == 'd');
    assert("error_kind"@.len() == 10 && "error_kind"@[0] == 'e');
    assert("status"@.len() == 6 && "status"@[0] == 's');
    assert("correlation"@.len() == 11 && "correlation"@[0] == 'c');
    assert("source"@[1] == 'o' && "status"@[1] == 't');
}

/// The value of a field of an event's own.
proof fn lemma_own_field(event: LogEvent, name: Seq<char>)
    ensures
        part_value(event, "fields."@ + name) == (if event.fields@.contains_key(name) {
            json_literal(event.fields@[name])
        } else {
            None
        }),
{
    reveal_strlit("schema_version");
    reveal_strlit("timestamp");
    reveal_strlit("level");
    reveal_strlit("source");
    reveal_strlit("tag");
    reveal_strlit("subsystem");
    reveal_strlit("target");
    reveal_strlit("event");
    reveal_strlit("message");
    reveal_strlit("app_session_id");
    reveal_strlit("playback_session_id");
    reveal_strlit("request_id");
    reveal_strlit("session_id");
    reveal_strlit("provider");
    reveal_strlit("duration_ms");
    reveal_strlit("error_kind");
    reveal_strlit("status");
    reveal_strlit("correlation");
    reveal_strlit("fields.");
    let field = "fields."@ + name;
    assert(field[0] == 'f');
    assert(field.take("fields."@.len() as int) == "fields."@);
    assert(field.skip("fields."@.len() as int) == name);
}

/// Digits are a plain value that stands for its number, also where a timestamp is asked for.
proof fn lemma_digits_as_value(digits: Seq<char>, now: Timestamp)
    requires
        digits.len() > 0,
        all_digits(digits),
        digits_value(digits) < 0x20_0000_0000_0000,
    ensures
        is_plain_value(digits),
        number_reading(digits) == Some(integer_double(digits_value(digits) as int)),
        relative_seconds(digits, now) is None,
        timestamp_literal(digits) == Some(digits_value(digits) as int),
{
    lemma_digits_are_read(digits);
    assert forall|i: int| 0 <= i < digits.len() implies !is_space(#[trigger] digits[i])
        && digits[i] != '"' && digits[i] != '\'' && digits[i] != '<' && digits[i] != '>'
        && digits[i] != '=' by {
        assert(is_digit(digits[i]));
    }
    reveal_strlit("last-");
    assert(is_digit(digits[0]));
    assert(lowered(digits)[0] == digits[0]);
    if has_prefix(lowered(digits), "last-"@) {
        assert(lowered(digits).take("last-"@.len() as int)[0] == 'l');
    }
    assert(split_sign(digits) == (false, digits));
}

/// What a condition that compares a number of an event with digits accepts: events whose
/// number stands to that of the digits as the operator says. Numbers that are closer to each
/// other than the machine epsilon count as equal.
proof fn lemma_number_condition(
    field: Seq<char>,
    operator: Seq<char>,
    digits: Seq<char>,
    query: Seq<char>,
    now: Timestamp,
    event: LogEvent,
    left: Double,
)
    requires
        is_plain_name(field),
        is_operator(operator),
        names_query_field(field),
        digits.len() > 0,
        all_digits(digits),
        digits_value(digits) < 0x20_0000_0000_0000,
        query == field + operator + digits || query == field + " "@ + operator + " "@ + digits,
        part_value(event, lowered(field)) == Some(LiteralModel::Number(left)) || exists|text: Seq<
            char,
        >|
            part_value(event, lowered(field)) == Some(LiteralModel::Text(text)) && #[trigger]
            number_reading(text) == Some(left) && (operator != "="@ && operator != ":"@ && operator
                != "!="@ || field == "schema_version"@ || field == "timestamp"@ || field
                == "duration_ms"@),
        left.finite(),
    ensures
        query_words(query).len() == 0,
        ({
            let right = digits_value(digits) * two_to(1074);
            let accepted = conditions_accept(query, now, event);
            &&& operator == "="@ || operator == ":"@ ==> (left.value() == right ==> accepted) && (
            distance(left.value(), right as int) >= two_to(1022) ==> !accepted) && (distance(
                left.value(),
                right as int,
            ) <= two_to(1021) ==> accepted)
            &&& operator == "!="@ ==> (left.value() == right ==> !accepted) && (distance(
                left.value(),
                right as int,
            ) >= two_to(1022) ==> accepted) && (distance(left.value(), right as int) <= two_to(1021)
                ==> !accepted)
            &&& operator != "="@ && operator != ":"@ && operator != "!="@ ==> (accepted <==> relates(
                operator,
                left.value(),
                right as int,
            ))
        }),
{
    lemma_operator_characters();
    lemma_digits_as_value(digits, now);
    lemma_condition_decides(field, operator, digits, query, now, event);
    let right = integer_double(digits_value(digits) as int);
    lemma_integer_is_exact(digits_value(digits) as int);
    lemma_operators_order_values(left, right);
    lemma_near_means_within_epsilon(left, right);
}

/// A condition on the duration accepts the events whose duration stands to the number as the
/// operator says, and none without a duration.
pub proof fn lemma_duration_condition(
    field: Seq<char>,
    operator: Seq<char>,
    digits: Seq<char>,
    query: Seq<char>,
    now: Timestamp,
    event: LogEvent,
)
    requires
        is_plain_name(field),
        lowered(field) == "duration_ms"@,
        is_operator(operator),
        digits.len() > 0,
        all_digits(digits),
        digits_value(digits) < 0x20_0000_0000_0000,
        query == field + operator + digits || query == field + " "@ + operator + " "@ + digits,
        event.duration_ms matches Some(duration) ==> duration.finite(),
    ensures
        query_words(query).len() == 0,
        match event.duration_ms {
            Some(duration) => {
                let right = digits_value(digits) * two_to(1074);
                let accepted = conditions_accept(query, now, event);
                &&& operator == "<"@ ==> (accepted <==> duration.value() < right)
                &&& operator == "<="@ ==> (accepted <==> duration.value() <= right)
                &&& operator == ">"@ ==> (accepted <==> duration.value() > right)
                &&& operator == ">="@ ==> (accepted <==> duration.value() >= right)
                &&& operator == "="@ || operator == ":"@ ==> (duration.value() == right
                    ==> accepted) && (distance(duration.value(), right as int) >= two_to(1022)
                    ==> !accepted)
                &&& operator == "!="@ ==> (duration.value() == right ==> !accepted) && (distance(
                    duration.value(),
                    right as int,
                ) >= two_to(1022) ==> accepted)
            },
            None => !conditions_accept(query, now, event),
        },
{
    lemma_operator_characters();
    lemma_parts_by_name(event);
    lemma_digits_as_value(digits, now);
    match event.duration_ms {
        Some(duration) => {
            lemma_number_condition(field, operator, digits, query, now, event, duration);
            assert("<"@[0] == '<' && ">"@[0] == '>' && "="@[0] == '=' && ":"@[0] == ':');
            assert("<="@.len() == 2 && ">="@.len() == 2 && "!="@.len() == 2);
            assert("<="@[0] == '<' && ">="@[0] == '>' && "!="@[0] == '!');
        },
        None => {
            lemma_condition_decides(field, operator, digits, query, now, event);
        },
    }
}

/// Integers are ordered as their multiples are.
proof fn lemma_multiples(left: int, right: int)
    ensures
        left < right <==> left * two_to(1074) < right * two_to(1074),
        left == right <==> left * two_to(1074) == right * two_to(1074),
        left != right ==> distance(left * two_to(1074), right * two_to(1074)) >= two_to(1022),
{
    let unit = two_to(1074) as int;
    lemma_two_to_monotone(0, 1074);
    lemma_two_to_monotone(1022, 1074);
    assert(left < right ==> right * unit - left * unit >= unit) by (nonlinear_arith)
        requires
            unit > 0,
    ;
    assert(left > right ==> left * unit - right * unit >= unit) by (nonlinear_arith)
        requires
            unit > 0,
    ;
}

/// The whole number that a JSON value is.
pub open spec fn whole_number(value: JsonValue) -> Option<int> {
    match value {
        JsonValue::Number(JsonNumber::Natural(number)) => Some(number as int),
        JsonValue::Number(JsonNumber::Integer(number)) => Some(number as int),
        _ => None,
    }
}

/// A condition on a whole number of an event accepts the events whose number stands to that
/// of the digits as the operator says: on the version of the schema, on the milliseconds of
/// the timestamp, and on a number among the fields of an event's own or in its status.
pub proof fn lemma_integer_condition(
    field: Seq<char>,
    operator: Seq<char>,
    digits: Seq<char>,
    query: Seq<char>,
    now: Timestamp,
    event: LogEvent,
    name: Seq<char>,
    number: int,
)
    requires
        is_plain_name(field),
        is_operator(operator),
        digits.len() > 0,
        all_digits(digits),
        digits_value(digits) < 0x20_0000_0000_0000,
        query == field + operator + digits || query == field + " "@ + operator + " "@ + digits,
        -0x20_0000_0000_0000 < number < 0x20_0000_0000_0000,
        ({
            ||| lowered(field) == "schema_version"@ && number == event.schema_version
            ||| lowered(field) == "timestamp"@ && number == event.timestamp.millis()
            ||| lowered(field) == "status"@ && event.status is Some && whole_number(event.status->0)
                == Some(number)
            ||| field == "fields."@ + name && lowered(field) == field && name.len() > 0
                && event.fields@.contains_key(name) && whole_number(event.fields@[name]) == Some(
                number,
            )
        }),
    ensures
        query_words(query).len() == 0,
        conditions_accept(query, now, event) <==> relates(
            operator,
            number,
            digits_value(digits) as int,
        ),
{
    lemma_operator_characters();
    lemma_parts_by_name(event);
    lemma_own_field(event, name);
    reveal_strlit("fields.");
    if field == "fields."@ + name {
        assert(field.take("fields."@.len() as int) == "fields."@);
        assert(names_query_field(field));
    }
    lemma_integer_is_exact(number);
    let left = integer_double(number);
    lemma_number_condition(field, operator, digits, query, now, event, left);
    lemma_multiples(number, digits_value(digits) as int);
    lemma_multiples(digits_value(digits) as int, number);
}

/// The names of the parts of every event that a condition can be put on.
pub open spec fn part_names() -> Seq<Seq<char>> {
    seq![
        "schema_version"@,
        "timestamp"@,
        "level"@,
        "source"@,
        "tag"@,
        "subsystem"@,
        "target"@,
        "event"@,
        "message"@,
        "app_session_id"@,
        "playback_session_id"@,
        "request_id"@,
        "session_id"@,
        "provider"@,
        "duration_ms"@,
        "error_kind"@,
        "status"@,
        "correlation"@,
    ]
}

/// A condition can be put on the parts of every event, whatever the case of their names, and
/// on an event's own fields, and on nothing else.
pub proof fn lemma_conditions_are_on_known_names(field: Seq<char>)
    ensures
        names_query_field(field) <==> part_names().contains(lowered(field)) || (field.len() > 7
            && field.take(7) == "fields."@),
{
    reveal_strlit("fields.");
    let names = part_names();
    assert(names[0] == "schema_version"@);
    assert(names[1] == "timestamp"@);
    assert(names[2] == "level"@);
    assert(names[3] == "source"@);
    assert(names[4] == "tag"@);
    assert(names[5] == "subsystem"@);
    assert(names[6] == "target"@);
    assert(names[7] == "event"@);
    assert(names[8] == "message"@);
    assert(names[9] == "app_session_id"@);
    assert(names[10] == "playback_session_id"@);
    assert(names[11] == "request_id"@);
    assert(names[12] == "session_id"@);
    assert(names[13] == "provider"@);
    assert(names[14] == "duration_ms"@);
    assert(names[15] == "error_kind"@);
    assert(names[16] == "status"@);
    assert(names[17] == "correlation"@);
}

/// The text of a JSON value that is a text or a truth value.
pub open spec fn text_of_value(value: JsonValue) -> Option<Seq<char>> {
    match value {
        JsonValue::String(text) => Some(text@),
        JsonValue::Bool(true) => Some("true"@),
        JsonValue::Bool(false) => Some("false"@),
        _ => None,
    }
}

/// Whether an event has a text under a name, or has none.
pub open spec fn has_text(event: LogEvent, name: Seq<char>, text: Option<Seq<char>>) -> bool {
    ||| name == "level"@ && text == Some(
        match event.level {
            Level::Trace => "trace"@,
            Level::Debug => "debug"@,
            Level::Info => "info"@,
            Level::Warn => "warn"@,
            Level::Error => "error"@,
            Level::Fatal => "fatal"@,
        },
    )
    ||| name == "source"@ && text == Some(event.source@)
    ||| name == "tag"@ && text == Some(tag_of(event.message@, event.subsystem@))
    ||| name == "subsystem"@ && text == Some(event.subsystem@)
    ||| name == "event"@ && text == Some(event.event@)
    ||| name == "message"@ && text == Some(event.message@)
    ||| name == "app_session_id"@ && text == Some(event.app_session_id@)
    ||| name == "correlation"@ && text == Some(correlation_of(event))
    ||| name == "target"@ && text == option_view(event.target)
    ||| name == "playback_session_id"@ && text == option_view(event.playback_session_id)
    ||| name == "request_id"@ && text == option_view(event.request_id)
    ||| name == "session_id"@ && text == option_view(event.session_id)
    ||| name == "provider"@ && text == option_view(event.provider)
    ||| name == "error_kind"@ && text == option_view(event.error_kind)
    ||| name == "status"@ && match event.status {
        Some(value) => whole_number(value) is None && !(value matches JsonValue::Number(_))
            && text == text_of_value(value),
        None => text is None,
    }
    ||| exists|key: Seq<char>|
        name == #[trigger] ("fields."@ + key) && if event.fields@.contains_key(key) {
            !(event.fields@[key] matches JsonValue::Number(_)) && text == text_of_value(
                event.fields@[key],
            )
        } else {
            text is None
        }
}

proof fn lemma_text_parts(event: LogEvent, name: Seq<char>, text: Option<Seq<char>>)
    requires
        has_text(event, name, text),
    ensures
        part_value(event, name) == (match text {
            Some(text) => Some(LiteralModel::Text(text)),
            None => None,
        }),
{
    lemma_parts_by_name(event);
    if exists|key: Seq<char>|
        name == #[trigger] ("fields."@ + key) && if event.fields@.contains_key(key) {
            !(event.fields@[key] matches JsonValue::Number(_)) && text == text_of_value(
                event.fields@[key],
            )
        } else {
            text is None
        } {
        let key = choose|key: Seq<char>|
            name == #[trigger] ("fields."@ + key) && if event.fields@.contains_key(key) {
                !(event.fields@[key] matches JsonValue::Number(_)) && text == text_of_value(
                    event.fields@[key],
                )
            } else {
                text is None
            };
        lemma_own_field(event, key);
    }
}

/// A condition that asks for a text, or for any other, accepts the events that have it, or
/// that have another one, under that name, whatever the case of their letters; it accepts
/// none that has no text there.
pub proof fn lemma_text_condition(
    field: Seq<char>,
    operator: Seq<char>,
    value: Seq<char>,
    query: Seq<char>,
    now: Timestamp,
    event: LogEvent,
    text: Option<Seq<char>>,
)
    requires
        is_plain_name(field),
        names_query_field(field),
        operator == "="@ || operator == ":"@ || operator == "!="@,
        is_plain_value(value),
        query == field + operator + value || query == field + " "@ + operator + " "@ + value,
        has_text(event, lowered(field), text),
        field != "timestamp"@ && field != "schema_version"@ && field != "duration_ms"@,
    ensures
        query_words(query).len() == 0,
        operator == "!="@ ==> (conditions_accept(query, now, event) <==> text is Some && lowered(
            text->0,
        ) != lowered(value)),
        operator != "!="@ ==> (conditions_accept(query, now, event) <==> text is Some && lowered(
            text->0,
        ) == lowered(value)),
{
    lemma_operator_characters();
    assert("="@[0] == '=' && ":"@[0] == ':' && "!="@[0] == '!');
    lemma_condition_decides(field, operator, value, query, now, event);
    lemma_text_parts(event, lowered(field), text);
}

/// A text that is made of digits is ordered as a number against one.
pub proof fn lemma_numeric_text_condition(
    field: Seq<char>,
    operator: Seq<char>,
    digits: Seq<char>,
    query: Seq<char>,
    now: Timestamp,
    event: LogEvent,
    text: Seq<char>,
)
    requires
        is_plain_name(field),
        names_query_field(field),
        operator == "<"@ || operator == "<="@ || operator == ">"@ || operator == ">="@,
        digits.len() > 0,
        all_digits(digits),
        digits_value(digits) < 0x20_0000_0000_0000,
        text.len() > 0,
        all_digits(text),
        digits_value(text) < 0x20_0000_0000_0000,
        query == field + operator + digits || query == field + " "@ + operator + " "@ + digits,
        has_text(event, lowered(field), Some(text)),
    ensures
        query_words(query).len() == 0,
        conditions_accept(query, now, event) <==> relates(
            operator,
            digits_value(text) as int,
            digits_value(digits) as int,
        ),
{
    lemma_operator_characters();
    assert("<"@[0] == '<' && ">"@[0] == '>' && "="@[0] == '=' && ":"@[0] == ':');
    assert("<="@.len() == 2 && ">="@.len() == 2 && "!="@.len() == 2);
    assert("<="@[0] == '<' && ">="@[0] == '>' && "!="@[0] == '!');
    lemma_text_parts(event, lowered(field), Some(text));
    lemma_digits_are_read(text);
    let number = digits_value(text) as int;
    lemma_integer_is_exact(number);
    lemma_number_condition(field, operator, digits, query, now, event, integer_double(number));
    lemma_multiples(number, digits_value(digits) as int);
    lemma_multiples(digits_value(digits) as int, number);
}

/// A number of units of time is that many times the seconds of one.
proof fn lemma_unit_length(unit: char, count: int, seconds: int)
    requires
        ({
            ||| unit == 's' && seconds == count
            ||| unit == 'm' && seconds == 60 * count
            ||| unit == 'h' && seconds == 3600 * count
            ||| unit == 'd' && seconds == 86400 * count
        }),
    ensures
        unit_seconds(unit) matches Some(length) && seconds == count * length,
{
    if unit == 'm' {
        assert(unit_seconds(unit) == Some(60int));
    } else if unit == 'h' {
        assert(unit_seconds(unit) == Some(3600int));
    } else if unit == 'd' {
        assert(unit_seconds(unit) == Some(86400int));
    } else {
        assert(unit_seconds(unit) == Some(1int));
    }
}

/// A condition such as `timestamp:last-5m` accepts the events of the time that it reaches
/// back, in seconds, minutes, hours or days, whatever the operator.
pub proof fn lemma_recent_events_are_accepted(
    operator: Seq<char>,
    digits: Seq<char>,
    unit: char,
    query: Seq<char>,
    now: Timestamp,
    event: LogEvent,
    seconds: int,
)
    requires
        is_operator(operator),
        digits.len() > 0,
        all_digits(digits),
        0 < digits_value(digits) <= i64::MAX,
        ({
            ||| unit == 's' && seconds == digits_value(digits)
            ||| unit == 'm' && seconds == 60 * digits_value(digits)
            ||| unit == 'h' && seconds == 3600 * digits_value(digits)
            ||| unit == 'd' && seconds == 86400 * digits_value(digits)
        }),
        ({
            let value = "last-"@ + digits + seq![unit];
            query == "timestamp"@ + operator + value || query == "timestamp"@ + " "@ + operator
                + " "@ + value
        }),
        is_instant(now.seconds(), now.nanos()),
        is_instant(event.timestamp.seconds(), event.timestamp.nanos()),
        now.seconds() - seconds >= FIRST_SECOND,
    ensures
        query_words(query).len() == 0,
        conditions_accept(query, now, event) <==> event.timestamp.millis() >= now.millis() - seconds
            * 1000,
{
    lemma_operator_characters();
    lemma_parts_by_name(event);
    let value = "last-"@ + digits + seq![unit];
    let field = "timestamp"@;
    reveal_strlit("last-");
    reveal_strlit("timestamp");
    assert(is_plain_value(value)) by {
        assert forall|i: int| 0 <= i < value.len() implies !is_space(#[trigger] value[i])
            && value[i] != '"' && value[i] != '\'' && value[i] != '<' && value[i] != '>'
            && value[i] != '=' by {
            if i < 5 {
                assert(value[i] == "last-"@[i]);
            } else if i < 5 + digits.len() {
                assert(value[i] == digits[i - 5]);
                assert(is_digit(digits[i - 5]));
            } else {
                assert(value[i] == unit);
            }
        }
    }
    assert(is_plain_name(field));
    assert(lowered(field) == field) by {
        assert forall|i: int| 0 <= i < field.len() implies lowered(field)[i] == field[i] by {}
    }
    lemma_condition_decides(field, operator, value, query, now, event);
    let lower_value = lowered(value);
    assert(lower_value == value) by {
        assert forall|i: int| 0 <= i < value.len() implies lowered(value)[i] == value[i] by {
            if i < 5 {
                assert(value[i] == "last-"@[i]);
            } else if i < 5 + digits.len() {
                assert(value[i] == digits[i - 5]);
                assert(is_digit(digits[i - 5]));
            } else {
                assert(value[i] == unit);
            }
        }
    }
    assert(value.take(5) == "last-"@);
    let amount = value.skip(5);
    assert(amount.drop_last() == digits);
    assert(amount.last() == unit);
    assert(is_digit(digits[0]));
    assert(split_sign(digits) == (false, digits));
    assert(i64_of(digits) == Some(digits_value(digits) as int));
    lemma_unit_length(unit, digits_value(digits) as int, seconds);
    assert(now.nanos() / (NANOS_PER_SECOND as int) >= 0);
    assert(value.skip("last-"@.len() as int) == amount);
    assert(has_prefix(value, "last-"@));
    assert(relative_seconds(value, now) == Some(seconds));
    let start = now.millis() - seconds * 1000;
    lemma_integer_is_exact(start);
    lemma_integer_is_exact(event.timestamp.millis());
    lemma_operators_order_values(
        integer_double(event.timestamp.millis()),
        integer_double(start),
    );
    lemma_multiples(event.timestamp.millis(), start);
    lemma_multiples(start, event.timestamp.millis());
}

/// Whether two entries say the same, wherever they stand.
spec fn says_the_same(first: QueryEntry, second: QueryEntry) -> bool {
    match (first, second) {
        (QueryEntry::Word(left), QueryEntry::Word(right)) => left == right,
        (
            QueryEntry::Condition { field: f, operator: o, value: v, .. },
            QueryEntry::Condition { field, operator, value, .. },
        ) => f == field && o == operator && v == value,
        (QueryEntry::Broken { .. }, QueryEntry::Broken { .. }) => true,
        _ => false,
    }
}

/// What a query of one word says.
proof fn lemma_entry_of_word(word: Seq<char>)
    requires
        is_plain_word(word),
        operator_named(word) is None,
    ensures
        query_token_models(word).len() == 1,
        query_token_models(word)[0].text == word,
        query_entries(word) == seq![entry_at(query_token_models(word), 0).0],
        entry_at(query_token_models(word), 0).0 matches QueryEntry::Word(text) ==> text == word,
        query_words(word) == (if entry_at(query_token_models(word), 0).0 is Word {
            word
        } else {
            Seq::empty()
        }),
{
    reveal_strlit(" ");
    reveal_with_fuel(entries_from, 2);
    reveal_with_fuel(entry_words, 2);
    lemma_words_are_tokens(seq![word]);
    assert(joined(seq![word], " "@) == word);
    let texts = |model: TokenModel| model.text;
    let tokens = query_token_models(word);
    assert(tokens.map_values(texts).len() == 1);
    assert(tokens.map_values(texts)[0] == word);
    let entry = entry_at(tokens, 0).0;
    assert(query_entries(word) =~= seq![entry]);
    assert(seq![entry].drop_last() == Seq::<QueryEntry>::empty());
    if entry is Word {
        assert(entry_words(seq![entry]) == seq![word]);
        assert(joined(seq![word], " "@) == word);
    } else {
        assert(entry_words(seq![entry]) == Seq::<Seq<char>>::empty());
    }
}

proof fn lemma_entries_one_by_one(tokens: Seq<TokenModel>, from: int)
    requires
        0 <= from <= tokens.len(),
        forall|i: int| 0 <= i < tokens.len() ==> operator_named((#[trigger] tokens[i]).text) is None,
    ensures
        entries_from(tokens, from).len() == tokens.len() - from,
        forall|k: int|
            0 <= k < tokens.len() - from ==> #[trigger] entries_from(tokens, from)[k] == entry_at(
                tokens,
                from + k,
            ).0,
    decreases tokens.len() - from,
{
    if from < tokens.len() {
        if from + 1 < tokens.len() {
            assert(operator_named(tokens[from + 1].text) is None);
        }
        lemma_entries_one_by_one(tokens, from + 1);
        let rest = entries_from(tokens, from + 1);
        assert(entries_from(tokens, from) == seq![entry_at(tokens, from).0] + rest);
        assert forall|k: int| 0 <= k < tokens.len() - from implies #[trigger] entries_from(
            tokens,
            from,
        )[k] == entry_at(tokens, from + k).0 by {
            if k > 0 {
                assert(entries_from(tokens, from)[k] == rest[k - 1]);
            }
        }
    }
}

proof fn lemma_words_among_entries(entries: Seq<QueryEntry>, words: Seq<Seq<char>>)
    requires
        entries.len() == words.len(),
        forall|k: int|
            0 <= k < entries.len() ==> ((#[trigger] entries[k] matches QueryEntry::Word(text)
                ==> text == words[k])),
        forall|k: int|
            0 <= k < entries.len() ==> ((#[trigger] entries[k]) is Word <==> query_words(
                words[k],
            ).len() > 0),
    ensures
        entry_words(entries) == words.filter(|word: Seq<char>| query_words(word).len() > 0),
    decreases words.len(),
{
    reveal(Seq::filter);
    if words.len() > 0 {
        let (fewer, shorter) = (entries.drop_last(), words.drop_last());
        assert forall|k: int| 0 <= k < fewer.len() implies ((
        #[trigger] fewer[k] matches QueryEntry::Word(text) ==> text == shorter[k])) by {
            assert(fewer[k] == entries[k]);
        }
        assert forall|k: int| 0 <= k < fewer.len() implies ((#[trigger] fewer[k]) is Word
            <==> query_words(shorter[k]).len() > 0) by {
            assert(fewer[k] == entries[k]);
        }
        lemma_words_among_entries(fewer, shorter);
        assert(entries.last() == entries[entries.len() - 1]);
    }
}

/// Whether an entry is what a word says by itself.
spec fn reads_alone(entry: QueryEntry, word: Seq<char>) -> bool {
    &&& query_entries(word).len() == 1
    &&& says_the_same(entry, query_entries(word)[0])
    &&& entry is Word <==> query_words(word).len() > 0
    &&& (entry matches QueryEntry::Word(text) ==> text == word)
}

/// A token that no operator follows says what it says by itself.
proof fn lemma_entry_among_others(tokens: Seq<TokenModel>, index: int)
    requires
        0 <= index < tokens.len(),
        is_plain_word(tokens[index].text),
        operator_named(tokens[index].text) is None,
        index + 1 < tokens.len() ==> operator_named(tokens[index + 1].text) is None,
    ensures
        reads_alone(entry_at(tokens, index).0, tokens[index].text),
{
    lemma_entry_of_word(tokens[index].text);
}

/// The words of a query, none of which is an operator, are read one by one: an event is
/// accepted where each word by itself accepts it, and the words to search for are those that
/// are searched for by themselves.
#[verifier::rlimit(40)]
pub proof fn lemma_words_are_read_one_by_one(
    words: Seq<Seq<char>>,
    now: Timestamp,
    event: LogEvent,
)
    requires
        forall|i: int|
            0 <= i < words.len() ==> is_plain_word(#[trigger] words[i]) && !is_operator(words[i]),
    ensures
        conditions_accept(joined(words, " "@), now, event) <==> forall|i: int|
            0 <= i < words.len() ==> conditions_accept(#[trigger] words[i], now, event),
        query_words(joined(words, " "@)) == joined(
            words.filter(|word: Seq<char>| query_words(word).len() > 0),
            " "@,
        ),
{
    let query = joined(words, " "@);
    assert forall|i: int| 0 <= i < words.len() implies is_plain_word(#[trigger] words[i]) by {}
    lemma_words_are_tokens(words);
    let texts = |model: TokenModel| model.text;
    let tokens = query_token_models(query);
    assert(tokens.map_values(texts).len() == words.len());
    assert forall|i: int| 0 <= i < tokens.len() implies operator_named(
        (#[trigger] tokens[i]).text,
    ) is None && tokens[i].text == words[i] by {
        assert(tokens.map_values(texts)[i] == words[i]);
        assert(!is_operator(words[i]));
    }
    lemma_entries_one_by_one(tokens, 0);
    let entries = query_entries(query);
    assert forall|i: int| 0 <= i < words.len() implies reads_alone(
        #[trigger] entries[i],
        words[i],
    ) by {
        assert(is_plain_word(words[i]) && !is_operator(words[i]));
        assert(tokens[i].text == words[i]);
        if i + 1 < tokens.len() {
            assert(operator_named(tokens[i + 1].text) is None);
        }
        assert(entries[i] == entry_at(tokens, 0 + i).0);
        lemma_entry_among_others(tokens, i);
    }
    assert forall|i: int| 0 <= i < words.len() implies entry_holds(#[trigger] entries[i], now, event)
        == conditions_accept(words[i], now, event) by {
        assert(reads_alone(entries[i], words[i]));
        assert(conditions_accept(words[i], now, event) == entry_holds(
            query_entries(words[i])[0],
            now,
            event,
        ));
    }
    if conditions_accept(query, now, event) {
        assert forall|i: int| 0 <= i < words.len() implies conditions_accept(
            #[trigger] words[i],
            now,
            event,
        ) by {
            assert(entry_holds(entries[i], now, event));
        }
    }
    if forall|i: int| 0 <= i < words.len() ==> conditions_accept(#[trigger] words[i], now, event) {
        assert forall|i: int| 0 <= i < entries.len() implies entry_holds(
            #[trigger] entries[i],
            now,
            event,
        ) by {
            assert(conditions_accept(words[i], now, event));
        }
    }
    assert forall|i: int| 0 <= i < entries.len() implies ((
    #[trigger] entries[i] matches QueryEntry::Word(text) ==> text == words[i])) by {
        assert(reads_alone(entries[i], words[i]));
    }
    assert forall|i: int| 0 <= i < entries.len() implies ((#[trigger] entries[i]) is Word
        <==> query_words(words[i]).len() > 0) by {
        assert(reads_alone(entries[i], words[i]));
    }
    lemma_words_among_entries(entries, words);
}

/// A word without the characters of operators is a word to search for, and no condition.
pub proof fn lemma_plain_word_is_searched(word: Seq<char>, now: Timestamp, event: LogEvent)
    requires
        is_plain_name(word),
    ensures
        query_words(word) == word,
        conditions_accept(word, now, event),
{
    lemma_operator_characters();
    assert(!is_operator(word)) by {
        assert(word[0] != '=' && word[0] != ':' && word[0] != '!' && word[0] != '<' && word[0]
            != '>');
    }
    lemma_entry_of_word(word);
    lemma_no_operator_inside(word, 0);
}

proof fn lemma_no_operator_inside(word: Seq<char>, from: int)
    requires
        is_plain_name(word),
        0 <= from <= 7,
    ensures
        inline_split(word, from) is None,
    decreases 7 - from,
{
    lemma_operator_characters();
    if from < 7 {
        let operator = inline_operators()[from];
        assert forall|place: int| 0 <= place implies !occurs_at(word, operator, place) by {
            if occurs_at(word, operator, place) {
                lemma_occurs_character(word, operator, place, 0);
            }
        }
        lemma_first_occurrence(word, operator, 0, None);
        lemma_no_operator_inside(word, from + 1);
    }
}

/// A condition on something that does not exist accepts no event: in three words with any
/// operator, in one word with any operator but a colon.
#[verifier::rlimit(40)]
pub proof fn lemma_unknown_names_accept_nothing(
    field: Seq<char>,
    operator: Seq<char>,
    value: Seq<char>,
    now: Timestamp,
    event: LogEvent,
)
    requires
        is_plain_name(field),
        !part_names().contains(lowered(field)),
        !(field.len() > 7 && field.take(7) == "fields."@),
        is_operator(operator),
        is_plain_value(value),
    ensures
        !conditions_accept(field + " "@ + operator + " "@ + value, now, event),
        operator != ":"@ && (forall|i: int|
            0 <= i < field.len() ==> in_field_name(#[trigger] field[i])) ==> !conditions_accept(
            field + operator + value,
            now,
            event,
        ),
{
    reveal_with_fuel(entries_from, 2);
    lemma_conditions_are_on_known_names(field);
    lemma_operator_characters();
    lemma_operators_are_words(operator);
    let words = seq![field, operator, value];
    let query = field + " "@ + operator + " "@ + value;
    reveal_with_fuel(joined, 4);
    assert(words.drop_last() == seq![field, operator]);
    assert(seq![field, operator].drop_last() == seq![field]);
    assert(joined(words, " "@) == query);
    assert forall|i: int| 0 <= i < words.len() implies is_plain_word(#[trigger] words[i]) by {}
    lemma_words_are_tokens(words);
    let texts = |model: TokenModel| model.text;
    let tokens = query_token_models(query);
    assert(tokens.map_values(texts).len() == 3);
    assert(tokens.map_values(texts)[0] == field);
    assert(tokens.map_values(texts)[1] == operator);
    let first = query_entries(query)[0];
    assert(first == entry_at(tokens, 0).0);
    assert(!entry_holds(first, now, event));
    if operator != ":"@ && (forall|i: int|
        0 <= i < field.len() ==> in_field_name(#[trigger] field[i])) {
        let token = field + operator + value;
        assert(is_plain_word(token)) by {
            assert forall|i: int| 0 <= i < token.len() implies !is_space(#[trigger] token[i])
                && token[i] != '"' && token[i] != '\'' by {
                if i < field.len() {
                    assert(token[i] == field[i]);
                } else if i < field.len() + operator.len() {
                    assert(token[i] == operator[i - field.len()]);
                } else {
                    assert(token[i] == value[i - field.len() - operator.len()]);
                }
            }
        }
        assert(operator_named(token) is None) by {
            assert(token[0] == field[0]);
            assert(field[0] != '=' && field[0] != ':' && field[0] != '!' && field[0] != '<'
                && field[0] != '>');
        }
        lemma_entry_of_word(token);
        lemma_inline_parts(field, operator, value);
        let entry = query_entries(token)[0];
        assert(entry is Broken);
        assert(!entry_holds(entry, now, event));
    }
}

/// Whether a text can stand between quotes as it is, so that it is compared as it is.
pub open spec fn is_plain_quotation(text: Seq<char>) -> bool {
    forall|i: int|
        0 <= i < text.len() ==> #[trigger] text[i] != '"' && text[i] != '\'' && text[i] != '\\'
            && text[i] != '<' && text[i] != '>' && text[i] != '='
}

/// The quote that is open within a quotation.
proof fn lemma_quote_is_open(front: Seq<char>, quote: char, text: Seq<char>, count: int)
    requires
        quote == '"' || quote == '\'',
        forall|i: int| 0 <= i < front.len() ==> #[trigger] front[i] != '"' && front[i] != '\'',
        is_plain_quotation(text),
        0 <= count <= front.len() + 2 + text.len(),
    ensures
        ({
            let query = front + seq![quote] + text + seq![quote];
            quote_state(query, count) == (if front.len() < count <= front.len() + 1 + text.len() {
                (Some(quote), false)
            } else {
                (None::<char>, false)
            })
        }),
    decreases count,
{
    let query = front + seq![quote] + text + seq![quote];
    if count > 0 {
        lemma_quote_is_open(front, quote, text, count - 1);
        let place = count - 1;
        if place < front.len() {
            assert(query[place] == front[place]);
        } else if place == front.len() {
            assert(query[place] == quote);
        } else if place <= front.len() + text.len() {
            assert(query[place] == text[place - front.len() - 1]);
        } else {
            assert(query[place] == quote);
        }
    }
}

/// A run of characters in which nothing separates tokens stays open.
proof fn lemma_one_run(query: Seq<char>, count: int)
    requires
        0 < count <= query.len(),
        forall|i: int| 0 <= i < count ==> !#[trigger] separates_tokens(query, i),
    ensures
        token_runs(query, count) == (Seq::<(int, int)>::empty(), Some(0int)),
    decreases count,
{
    reveal_with_fuel(token_runs, 2);
    assert(!separates_tokens(query, count - 1));
    if count > 1 {
        lemma_one_run(query, count - 1);
    }
}

/// What has no backslash has nothing to be put in the place of.
proof fn lemma_nothing_to_replace(text: Seq<char>, part: Seq<char>, other: Seq<char>)
    requires
        part.len() > 0,
        part[0] == '\\',
        forall|i: int| 0 <= i < text.len() ==> #[trigger] text[i] != '\\',
    ensures
        replaced(text, part, other) == text,
    decreases text.len(),
{
    if text.len() >= part.len() {
        if text.take(part.len() as int) == part {
            assert(text.take(part.len() as int)[0] == text[0]);
        }
        let rest = text.drop_first();
        assert forall|i: int| 0 <= i < rest.len() implies #[trigger] rest[i] != '\\' by {
            assert(rest[i] == text[i + 1]);
        }
        lemma_nothing_to_replace(rest, part, other);
        assert(seq![text[0]] + rest == text);
    }
}

/// A condition whose value stands between quotes is one token.
proof fn lemma_quotation_is_one_token(
    field: Seq<char>,
    operator: Seq<char>,
    quote: char,
    value: Seq<char>,
)
    requires
        is_plain_name(field),
        is_operator(operator),
        quote == '"' || quote == '\'',
        is_plain_quotation(value),
    ensures
        ({
            let query = field + operator + seq![quote] + value + seq![quote];
            query_token_models(query).len() == 1 && query_token_models(query)[0].text == query
        }),
{
    lemma_operators_are_words(operator);
    let query = field + operator + seq![quote] + value + seq![quote];
    let front = field + operator;
    assert forall|i: int| 0 <= i < front.len() implies #[trigger] front[i] != '"' && front[i]
        != '\'' && !is_space(front[i]) by {
        if i < field.len() {
            assert(front[i] == field[i]);
        } else {
            assert(front[i] == operator[i - field.len()]);
        }
    }
    assert forall|i: int| 0 <= i < query.len() implies !#[trigger] separates_tokens(query, i) by {
        lemma_quote_is_open(front, quote, value, i);
        if i < front.len() {
            assert(query[i] == front[i]);
        } else if i == front.len() {
            assert(query[i] == quote);
        } else if i == query.len() - 1 {
            assert(query[i] == quote);
        }
    }
    lemma_one_run(query, query.len() as int);
    assert(query.subrange(0, query.len() as int) == query);
}

/// The value of a quotation is the text between its quotes.
proof fn lemma_quotation_is_unquoted(quote: char, value: Seq<char>)
    requires
        quote == '"' || quote == '\'',
        is_plain_quotation(value),
    ensures
        unquoted(seq![quote] + value + seq![quote]) == Some(value),
{
    let raw = seq![quote] + value + seq![quote];
    assert(raw[0] == quote && raw[raw.len() - 1] == quote);
    assert(trimmed(raw) == raw);
    assert(raw.subrange(1, raw.len() - 1) == value);
    reveal_strlit("\\\"");
    reveal_strlit("\\'");
    lemma_nothing_to_replace(value, "\\\""@, "\""@);
    lemma_nothing_to_replace(value, "\\'"@, "'"@);
}

/// A condition whose value stands between quotes, which may hold spaces, compares with the
/// text between them.
pub proof fn lemma_quoted_condition(
    field: Seq<char>,
    operator: Seq<char>,
    quote: char,
    value: Seq<char>,
    now: Timestamp,
    event: LogEvent,
    text: Option<Seq<char>>,
)
    requires
        is_plain_name(field),
        names_query_field(field),
        operator == "="@ || operator == ":"@ || operator == "!="@,
        quote == '"' || quote == '\'',
        is_plain_quotation(value),
        value.len() > 0,
        has_text(event, lowered(field), text),
        field != "timestamp"@ && field != "schema_version"@ && field != "duration_ms"@,
    ensures
        ({
            let query = field + operator + seq![quote] + value + seq![quote];
            &&& query_words(query).len() == 0
            &&& operator == "!="@ ==> (conditions_accept(query, now, event) <==> text is Some
                && lowered(text->0) != lowered(value))
            &&& operator != "!="@ ==> (conditions_accept(query, now, event) <==> text is Some
                && lowered(text->0) == lowered(value))
        }),
{
    lemma_operator_characters();
    assert("="@[0] == '=' && ":"@[0] == ':' && "!="@[0] == '!');
    lemma_operators_are_words(operator);
    let raw = seq![quote] + value + seq![quote];
    let query = field + operator + seq![quote] + value + seq![quote];
    assert(query == field + operator + raw);
    lemma_quotation_is_one_token(field, operator, quote, value);
    let tokens = query_token_models(query);
    assert forall|i: int| 0 <= i < raw.len() implies #[trigger] raw[i] != '<' && raw[i] != '>'
        && raw[i] != '=' by {
        if 0 < i <= value.len() {
            assert(raw[i] == value[i - 1]);
        }
    }
    lemma_inline_parts(field, operator, raw);
    reveal_with_fuel(entries_from, 2);
    reveal_with_fuel(entry_words, 2);
    let entries = query_entries(query);
    assert(entries =~= seq![entry_at(tokens, 0).0]);
    assert(entries.drop_last().len() == 0);
    assert(entry_words(entries) =~= Seq::<Seq<char>>::empty());
    assert(conditions_accept(query, now, event) == entry_holds(entries[0], now, event));
    lemma_quotation_is_unquoted(quote, value);
    lemma_text_parts(event, lowered(field), text);
}

/// Digits with a point among them are read as the double nearest to their value, and a sign
/// in front of digits is that of the number.
pub proof fn lemma_numerals_are_read(whole: Seq<char>, part: Seq<char>, number: Double)
    requires
        whole.len() > 0,
        all_digits(whole),
        all_digits(part),
    ensures
        !number.negative() && rounds_to(
            digits_value(whole + part) * two_to(1074),
            ten_to(part.len()),
            number.key(),
        ) ==> number_reading(whole + "."@ + part) == Some(number),
        digits_value(whole) < 0x20_0000_0000_0000 && digits_value(whole) > 0 ==> number_reading(
            "-"@ + whole,
        ) == Some(integer_double(-(digits_value(whole) as int))),
        digits_value(whole) < 0x20_0000_0000_0000 ==> number_reading("+"@ + whole) == Some(
            integer_double(digits_value(whole) as int),
        ),
{
    reveal_strlit(".");
    reveal_strlit("-");
    reveal_strlit("+");
    assert(is_digit(whole[0]));
    lemma_form_of_decimal(whole, part);
    let text = whole + "."@ + part;
    assert(text[0] == whole[0]);
    assert(split_sign(text) == (false, text));
    if !number.negative() && rounds_to(
        digits_value(whole + part) * two_to(1074),
        ten_to(part.len()),
        number.key(),
    ) {
        let digits = digits_value(whole + part);
        assert(ten_to(0) == 1);
        assert(digits * 1 * two_to(1074) == digits * two_to(1074)) by (nonlinear_arith);
        assert(denotes(
            number,
            false,
            Form::Decimal { digits, exponent: -(part.len() as int) },
        ));
        lemma_number_reading(text, Some(number));
    }
    if digits_value(whole) < 0x20_0000_0000_0000 {
        let value = digits_value(whole);
        lemma_digits_are_read(whole);
        let plus = "+"@ + whole;
        let minus = "-"@ + whole;
        assert(plus.drop_first() == whole);
        assert(minus.drop_first() == whole);
        assert(split_sign(plus) == (false, whole));
        assert(split_sign(minus) == (true, whole));
        assert(split_sign(whole) == (false, whole));
        lemma_form_of_digits(whole);
        let form = Form::Decimal { digits: value, exponent: 0 };
        let key = lemma_exact_key(value);
        assert(magnitude(key) * 1 == value * two_to(1074));
        lemma_exact_rounds(value * two_to(1074), 1, key);
        assert(ten_to(0) == 1);
        assert(value * 1 * two_to(1074) == value * two_to(1074)) by (nonlinear_arith);
        let positive = Double { bits: key as u64 };
        assert(positive.key() == key);
        assert(distance(value as int, 0) == value);
        assert(positive.holds_integer(value as int));
        lemma_integer_double(value as int, positive);
        assert(denotes(positive, false, form));
        lemma_number_reading(plus, Some(positive));
        if value > 0 {
            let negative = Double { bits: (key + SIGN) as u64 };
            assert(negative.key() == key);
            assert(distance(-(value as int), 0) == value);
            assert(negative.holds_integer(-(value as int)));
            lemma_integer_double(-(value as int), negative);
            assert(denotes(negative, true, form));
            lemma_number_reading(minus, Some(negative));
        }
    }
}

proof fn lemma_form_of_digits(text: Seq<char>)
    requires
        text.len() > 0,
        all_digits(text),
    ensures
        form_of(text) == Some(Form::Decimal { digits: digits_value(text), exponent: 0 }),
{
    reveal_strlit("inf");
    reveal_strlit("infinity");
    reveal_strlit("nan");
    assert(is_digit(text[0]));
    assert(lowered(text)[0] == text[0]);
    assert(lowered(text) != "inf"@ && lowered(text) != "infinity"@ && lowered(text) != "nan"@);
    lemma_first_where_is(text, exponent_mark(), text.len() as int);
    assert(before(text, text.len() as int) == text);
    lemma_first_where_is(text, point(), text.len() as int);
    assert(behind(text, text.len() as int) == Seq::<char>::empty());
    assert(text + Seq::<char>::empty() == text);
}

proof fn lemma_form_of_decimal(whole: Seq<char>, part: Seq<char>)
    requires
        whole.len() > 0,
        all_digits(whole),
        all_digits(part),
    ensures
        form_of(whole + "."@ + part) == Some(
            Form::Decimal { digits: digits_value(whole + part), exponent: -(part.len() as int) },
        ),
{
    reveal_strlit(".");
    reveal_strlit("inf");
    reveal_strlit("infinity");
    reveal_strlit("nan");
    let text = whole + "."@ + part;
    assert(is_digit(whole[0]));
    assert(lowered(text)[0] == text[0]);
    assert(lowered(text) != "inf"@ && lowered(text) != "infinity"@ && lowered(text) != "nan"@);
    assert forall|i: int| 0 <= i < text.len() implies !exponent_mark()(#[trigger] text[i]) by {
        if i < whole.len() {
            assert(text[i] == whole[i]);
        } else if i > whole.len() {
            assert(text[i] == part[i - whole.len() - 1]);
        }
    }
    lemma_first_where_is(text, exponent_mark(), text.len() as int);
    assert(before(text, text.len() as int) == text);
    assert forall|i: int| 0 <= i < whole.len() implies !point()(#[trigger] text[i]) by {
        assert(text[i] == whole[i]);
    }
    lemma_first_where_is(text, point(), whole.len() as int);
    assert(before(text, whole.len() as int) == whole);
    assert(behind(text, whole.len() as int) == part);
}

}
