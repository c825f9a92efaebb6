//! The query language: free text mixed with conditions on the parts of events.
use std::ops::Range;

use vstd::prelude::*;

use crate::event::{correlation_of, tag_of, LogEvent};
use crate::json::{bool_text, JsonNumber, JsonValue};
use crate::level::level_text;
use crate::number::{integer_double, Double};
use crate::numeral::{i64_of, number_reading, parse_i64, parse_number};
use crate::schema::double_of;
use crate::text::{
    ascii_alphanumeric, byte_length, chars_of, find_from, first_occurrence, has_prefix, is_space,
    is_whitespace, join, joined, lemma_blank_is_space, lemma_byte_length_push,
    lemma_byte_length_take, lemma_first_occurrence, lowered, occurs_at, owned, replace, replaced,
    same, same_ignoring_case, strip_prefix, text_between, to_lower, trim, trimmed, views, width_of,
};
use crate::time::{rfc3339_instant, Timestamp, FIRST_SECOND, NANOS_PER_SECOND};

verus! {

/// How the value of a part is compared with that of a condition.
#[derive(Clone, Copy, PartialEq, Eq, Structural, Debug)]
pub enum QueryOperator {
    Equal,
    NotEqual,
    Greater,
    GreaterOrEqual,
    Less,
    LessOrEqual,
}

/// The text of an operator.
pub open spec fn operator_text(operator: QueryOperator) -> Seq<char> {
    match operator {
        QueryOperator::Equal => "="@,
        QueryOperator::NotEqual => "!="@,
        QueryOperator::Greater => ">"@,
        QueryOperator::GreaterOrEqual => ">="@,
        QueryOperator::Less => "<"@,
        QueryOperator::LessOrEqual => "<="@,
    }
}

/// The operator that a text stands for.
pub open spec fn operator_named(text: Seq<char>) -> Option<QueryOperator> {
    if text == "="@ || text == ":"@ {
        Some(QueryOperator::Equal)
    } else if text == "!="@ {
        Some(QueryOperator::NotEqual)
    } else if text == ">"@ {
        Some(QueryOperator::Greater)
    } else if text == ">="@ {
        Some(QueryOperator::GreaterOrEqual)
    } else if text == "<"@ {
        Some(QueryOperator::Less)
    } else if text == "<="@ {
        Some(QueryOperator::LessOrEqual)
    } else {
        None
    }
}

/// Whether two numbers stand to each other as an operator says. Numbers count as
/// equal where their difference is smaller than the machine epsilon.
pub open spec fn numbers_satisfy(operator: QueryOperator, left: Double, right: Double) -> bool {
    match operator {
        QueryOperator::Equal => left.near(right),
        QueryOperator::NotEqual => left.comparable(right) && !left.near(right),
        QueryOperator::Greater => right.less(left),
        QueryOperator::GreaterOrEqual => right.less(left) || right.equal(left),
        QueryOperator::Less => left.less(right),
        QueryOperator::LessOrEqual => left.less(right) || left.equal(right),
    }
}

/// Whether two texts stand to each other as an operator says: they can only be
/// equal or different, without regard to the case of ASCII letters.
pub open spec fn texts_satisfy(operator: QueryOperator, left: Seq<char>, right: Seq<char>) -> bool {
    match operator {
        QueryOperator::Equal => lowered(left) == lowered(right),
        QueryOperator::NotEqual => lowered(left) != lowered(right),
        _ => false,
    }
}

impl QueryOperator {
    /// The text of the operator.
    pub fn text(self) -> (text: &'static str)
        ensures
            text@ == operator_text(self),
    {
        match self {
            QueryOperator::Equal => "=",
            QueryOperator::NotEqual => "!=",
            QueryOperator::Greater => ">",
            QueryOperator::GreaterOrEqual => ">=",
            QueryOperator::Less => "<",
            QueryOperator::LessOrEqual => "<=",
        }
    }

    /// Whether two numbers stand to each other as the operator says.
    pub fn compare_number(self, left: Double, right: Double) -> (result: bool)
        ensures
            result == numbers_satisfy(self, left, right),
    {
        match self {
            QueryOperator::Equal => left.is_near(right),
            QueryOperator::NotEqual => left.is_comparable(right) && !left.is_near(right),
            QueryOperator::Greater => right.is_less(left),
            QueryOperator::GreaterOrEqual => right.is_less(left) || right.is_equal(left),
            QueryOperator::Less => left.is_less(right),
            QueryOperator::LessOrEqual => left.is_less(right) || left.is_equal(right),
        }
    }

    /// Whether two texts stand to each other as the operator says.
    pub fn compare_text(self, left: &str, right: &str) -> (result: bool)
        ensures
            result == texts_satisfy(self, left@, right@),
    {
        match self {
            QueryOperator::Equal => same_ignoring_case(left, right),
            QueryOperator::NotEqual => !same_ignoring_case(left, right),
            _ => false,
        }
    }
}

/// The operator that a text stands for.
fn parse_operator(text: &str) -> (result: Option<QueryOperator>)
    ensures
        result == operator_named(text@),
{
    if same(text, "=") || same(text, ":") {
        Some(QueryOperator::Equal)
    } else if same(text, "!=") {
        Some(QueryOperator::NotEqual)
    } else if same(text, ">") {
        Some(QueryOperator::Greater)
    } else if same(text, ">=") {
        Some(QueryOperator::GreaterOrEqual)
    } else if same(text, "<") {
        Some(QueryOperator::Less)
    } else if same(text, "<=") {
        Some(QueryOperator::LessOrEqual)
    } else {
        None
    }
}

/// A part of a query between white space, with the bytes it takes up.
pub struct TokenModel {
    pub text: Seq<char>,
    pub start: nat,
    pub end: nat,
}

/// The quote that is open behind the first characters of a query, and whether
/// the last of them escapes the next.
pub open spec fn quote_state(query: Seq<char>, count: int) -> (Option<char>, bool)
    decreases count,
{
    if count <= 0 {
        (None, false)
    } else {
        let (quote, escapes) = quote_state(query, count - 1);
        let character = query[count - 1];
        if escapes {
            (quote, false)
        } else if character == '\\' && quote is Some {
            (quote, true)
        } else if character == '\'' || character == '"' {
            if quote == Some(character) {
                (None, false)
            } else if quote is None {
                (Some(character), false)
            } else {
                (quote, false)
            }
        } else {
            (quote, false)
        }
    }
}

/// Whether the character at a position separates tokens: white space outside of
/// quotes.
pub open spec fn separates_tokens(query: Seq<char>, position: int) -> bool {
    quote_state(query, position).0 is None && is_space(query[position])
}

/// The runs of characters that no separator interrupts, among the first
/// characters of a query: those that are complete, and where the one that is
/// not began.
pub open spec fn token_runs(query: Seq<char>, count: int) -> (Seq<(int, int)>, Option<int>)
    decreases count,
{
    if count <= 0 {
        (Seq::empty(), None)
    } else {
        let (complete, open) = token_runs(query, count - 1);
        if separates_tokens(query, count - 1) {
            match open {
                Some(start) => (complete.push((start, count - 1)), None),
                None => (complete, None),
            }
        } else {
            match open {
                Some(_) => (complete, open),
                None => (complete, Some(count - 1)),
            }
        }
    }
}

/// The token that a run of characters is.
pub open spec fn token_of(query: Seq<char>, run: (int, int)) -> TokenModel {
    TokenModel {
        text: query.subrange(run.0, run.1),
        start: byte_length(query.take(run.0)),
        end: byte_length(query.take(run.1)),
    }
}

/// The tokens of a query.
pub open spec fn query_token_models(query: Seq<char>) -> Seq<TokenModel> {
    let (complete, open) = token_runs(query, query.len() as int);
    let runs = match open {
        Some(start) => complete.push((start, query.len() as int)),
        None => complete,
    };
    runs.map_values(|run: (int, int)| token_of(query, run))
}

/// A part of a query between white space, with the bytes it takes up.
struct Token {
    text: String,
    start: usize,
    end: usize,
}

impl View for Token {
    type V = TokenModel;

    closed spec fn view(&self) -> TokenModel {
        TokenModel { text: self.text@, start: self.start as nat, end: self.end as nat }
    }
}

spec fn token_views(tokens: Seq<Token>) -> Seq<TokenModel> {
    tokens.map_values(|token: Token| token@)
}

/// While a character is escaped a quote is open.
proof fn lemma_escape_needs_quote(query: Seq<char>, count: int)
    ensures
        quote_state(query, count).1 ==> quote_state(query, count).0 is Some,
    decreases count,
{
    if count > 0 {
        lemma_escape_needs_quote(query, count - 1);
    }
}

/// The runs of characters among the first characters of a query lie there, in
/// order and apart.
pub proof fn lemma_token_runs_in_order(query: Seq<char>, count: int)
    requires
        0 <= count <= query.len(),
    ensures
        forall|i: int|
            0 <= i < token_runs(query, count).0.len() ==> {
                let run = #[trigger] token_runs(query, count).0[i];
                0 <= run.0 < run.1 <= count
            },
        forall|i: int, j: int|
            0 <= i < j < token_runs(query, count).0.len() ==> (#[trigger] token_runs(
                query,
                count,
            ).0[i]).1 <= (#[trigger] token_runs(query, count).0[j]).0,
        match token_runs(query, count).1 {
            Some(start) => {
                &&& 0 <= start < count
                &&& forall|i: int|
                    0 <= i < token_runs(query, count).0.len() ==> (#[trigger] token_runs(
                        query,
                        count,
                    ).0[i]).1 <= start
            },
            None => true,
        },
    decreases count,
{
    if count > 0 {
        lemma_token_runs_in_order(query, count - 1);
    }
}

/// The tokens of a query.
fn query_tokens(query: &str) -> (tokens: Vec<Token>)
    ensures
        token_views(tokens@) == query_token_models(query@),
{
    let characters = chars_of(query);
    let total: usize = query.as_bytes().len();
    let mut tokens: Vec<Token> = Vec::new();
    let mut quote: Option<char> = None;
    let mut escapes = false;
    let mut start: Option<(usize, usize)> = None;
    let mut offset: usize = 0;
    let mut index: usize = 0;
    assert(query@.take(0) == Seq::<char>::empty());
    while index < characters.len()
        invariant
            index <= characters.len(),
            characters@ == query@,
            total == byte_length(query@),
            offset == byte_length(query@.take(index as int)),
            (quote, escapes) == quote_state(query@, index as int),
            match start {
                Some((position, bytes)) => {
                    &&& token_runs(query@, index as int).1 == Some(position as int)
                    &&& bytes == byte_length(query@.take(position as int))
                    &&& position < index
                },
                None => token_runs(query@, index as int).1 is None,
            },
            token_views(tokens@) == token_runs(query@, index as int).0.map_values(
                |run: (int, int)| token_of(query@, run),
            ),
        decreases characters.len() - index,
    {
        let character = characters[index];
        proof {
            lemma_escape_needs_quote(query@, index as int);
            lemma_byte_length_push(query@.take(index as int), character);
            assert(query@.take(index + 1) == query@.take(index as int).push(character));
            lemma_byte_length_take(query@, index + 1);
        }
        let ghost found = token_views(tokens@);
        let separates = quote.is_none() && is_whitespace(character);
        if separates {
            if let Some((position, bytes)) = start {
                let text = text_between(characters.as_slice(), position, index);
                let token = Token { text, start: bytes, end: offset };
                tokens.push(token);
                assert(token_views(tokens@) == found.push(token@));
                assert(token@ == token_of(query@, (position as int, index as int)));
            }
            start = None;
        } else if start.is_none() {
            start = Some((index, offset));
        }
        if escapes {
            escapes = false;
        } else if character == '\\' && quote.is_some() {
            escapes = true;
        } else if character == '\'' || character == '"' {
            if quote == Some(character) {
                quote = None;
            } else if quote.is_none() {
                quote = Some(character);
            }
        }
        offset += width_of(character);
        index += 1;
        assert(token_views(tokens@) =~= token_runs(query@, index as int).0.map_values(
            |run: (int, int)| token_of(query@, run),
        ));
    }
    assert(query@.take(index as int) == query@);
    if let Some((position, bytes)) = start {
        let ghost found = token_views(tokens@);
        let text = text_between(characters.as_slice(), position, characters.len());
        let token = Token { text, start: bytes, end: total };
        tokens.push(token);
        assert(token_views(tokens@) == found.push(token@));
        assert(token@ == token_of(query@, (position as int, query@.len() as int)));
    }
    assert(token_views(tokens@) =~= query_token_models(query@));
    tokens
}

/// Whether a name, in lower case, is that of a part of every event.
pub open spec fn names_part(name: Seq<char>) -> bool {
    ||| name == "schema_version"@
    ||| name == "timestamp"@
    ||| name == "level"@
    ||| name == "source"@
    ||| name == "tag"@
    ||| name == "subsystem"@
    ||| name == "target"@
    ||| name == "event"@
    ||| name == "message"@
    ||| name == "app_session_id"@
    ||| name == "playback_session_id"@
    ||| name == "request_id"@
    ||| name == "session_id"@
    ||| name == "provider"@
    ||| name == "duration_ms"@
    ||| name == "error_kind"@
    ||| name == "status"@
    ||| name == "correlation"@
}

/// Whether a text names something that a condition can be put on: a part of
/// every event, without regard to case, or one of the event's own fields.
pub open spec fn names_query_field(field: Seq<char>) -> bool {
    ||| names_part(lowered(field))
    ||| has_prefix(field, "fields."@) && field.len() > "fields."@.len()
}

/// Whether a text names something that a condition can be put on.
fn is_query_field(field: &str) -> (result: bool)
    ensures
        result == names_query_field(field@),
{
    let lower = to_lower(field);
    let name = lower.as_str();
    if same(name, "schema_version") || same(name, "timestamp") || same(name, "level") || same(name, "source") || same(name, "tag") || same(name, "subsystem") || same(name, "target") || same(name, "event") || same(name, "message") || same(name, "app_session_id") || same(name, "playback_session_id") || same(name, "request_id") || same(name, "session_id") || same(name, "provider") || same(name, "duration_ms") || same(name, "error_kind") || same(name, "status") || same(name, "correlation") {
        return true;
    }
    match strip_prefix(field, "fields.") {
        Some(rest) => !rest.as_str().is_empty(),
        None => false,
    }
}

/// The operators that can stand inside a token, in the order in which they are
/// looked for.
pub open spec fn inline_operators() -> Seq<Seq<char>> {
    seq![">="@, "<="@, "!="@, "="@, ">"@, "<"@, ":"@]
}

/// The condition inside a token, as the texts before, of and behind its
/// operator: the first operator from a place in their order on that has
/// something before it.
pub open spec fn inline_split(token: Seq<char>, from: int) -> Option<
    (Seq<char>, Seq<char>, Seq<char>),
>
    decreases inline_operators().len() - from,
{
    if from < 0 || from >= inline_operators().len() {
        None
    } else {
        let operator = inline_operators()[from];
        match first_occurrence(token, operator, 0) {
            Some(position) => if position > 0 {
                Some((token.take(position), operator, token.skip(position + operator.len())))
            } else {
                inline_split(token, from + 1)
            },
            None => inline_split(token, from + 1),
        }
    }
}

/// A character that can stand in the name of a field.
pub open spec fn in_field_name(character: char) -> bool {
    ascii_alphanumeric(character) || character == '_' || character == '.'
}

/// Whether a token looks like a condition on something that does not exist.
pub open spec fn is_broken(token: Seq<char>) -> bool {
    match inline_split(token, 0) {
        Some((field, operator, _)) => operator != ":"@ && forall|i: int|
            0 <= i < field.len() ==> in_field_name(#[trigger] field[i]),
        None => false,
    }
}

/// The condition inside a token.
fn split_inline_expression(token: &str) -> (result: Option<(String, &'static str, String)>)
    ensures
        match result {
            Some((field, operator, value)) => inline_split(token@, 0) == Some(
                (field@, operator@, value@),
            ),
            None => inline_split(token@, 0) is None,
        },
{
    let characters = chars_of(token);
    let operators: [&'static str; 7] = [">=", "<=", "!=", "=", ">", "<", ":"];
    let mut index: usize = 0;
    while index < 7
        invariant
            index <= 7,
            characters@ == token@,
            operators@.len() == 7,
            forall|i: int| 0 <= i < 7 ==> (#[trigger] operators@[i])@ == inline_operators()[i],
            inline_split(token@, index as int) == inline_split(token@, 0),
        decreases 7 - index,
    {
        let operator = operators[index];
        let pattern = chars_of(operator);
        assert(operators@[index as int]@ == inline_operators()[index as int]);
        let found = find_from(characters.as_slice(), pattern.as_slice(), 0);
        proof {
            let position = match found {
                Some(position) => Some(position as int),
                None => None,
            };
            assert forall|place: int| occurs_at(token@, pattern@, place) implies 0 <= place by {}
            lemma_first_occurrence(token@, pattern@, 0, position);
        }
        if let Some(position) = found {
            if position > 0 {
                assert(occurs_at(characters@, pattern@, position as int));
                assert(position + pattern.len() <= characters.len());
                let field = text_between(characters.as_slice(), 0, position);
                let value = text_between(
                    characters.as_slice(),
                    position + pattern.len(),
                    characters.len(),
                );
                assert(field@ == token@.take(position as int));
                assert(value@ == token@.skip(position + pattern@.len()));
                return Some((field, operator, value));
            }
        }
        index += 1;
    }
    None
}

/// Whether a token looks like a condition on something that does not exist.
fn looks_like_broken_expression(token: &str) -> (result: bool)
    ensures
        result == is_broken(token@),
{
    match split_inline_expression(token) {
        Some((field, operator, _)) => {
            if same(operator, ":") {
                return false;
            }
            let characters = chars_of(field.as_str());
            let mut index: usize = 0;
            while index < characters.len()
                invariant
                    index <= characters.len(),
                    characters@ == field@,
                    inline_split(token@, 0) is Some,
                    (inline_split(token@, 0)->0).0 == field@,
                    forall|i: int| 0 <= i < index ==> in_field_name(#[trigger] characters@[i]),
                decreases characters.len() - index,
            {
                let character = characters[index];
                let allowed = ('0' <= character && character <= '9') || ('a' <= character
                    && character <= 'z') || ('A' <= character && character <= 'Z') || character
                    == '_' || character == '.';
                if !allowed {
                    assert(!in_field_name(characters@[index as int]));
                    return false;
                }
                index += 1;
            }
            true
        },
        None => false,
    }
}

/// What a query says at one place.
pub enum QueryEntry {
    /// A word to search for.
    Word(Seq<char>),
    /// A condition, with the bytes it takes up.
    Condition { field: Seq<char>, operator: Seq<char>, value: Seq<char>, start: nat, end: nat },
    /// A condition on something that does not exist.
    UnknownField { field: Seq<char>, start: nat, end: nat },
    /// A condition that ends before its value.
    MissingValue { field: Seq<char>, start: nat, end: nat },
    /// A token that looks like a condition on something that does not exist.
    Broken { token: Seq<char>, start: nat, end: nat },
}

/// What the tokens of a query say from a place on, and how many tokens that
/// takes.
pub open spec fn entry_at(tokens: Seq<TokenModel>, index: int) -> (QueryEntry, int) {
    let token = tokens[index];
    if index + 1 < tokens.len() && operator_named(tokens[index + 1].text) is Some {
        let last = if index + 2 < tokens.len() {
            index + 2
        } else {
            index + 1
        };
        let start = token.start;
        let end = tokens[last].end;
        if !names_query_field(token.text) {
            (QueryEntry::UnknownField { field: token.text, start, end }, last + 1 - index)
        } else if index + 2 >= tokens.len() {
            (QueryEntry::MissingValue { field: token.text, start, end }, 2)
        } else {
            (
                QueryEntry::Condition {
                    field: token.text,
                    operator: tokens[index + 1].text,
                    value: tokens[index + 2].text,
                    start,
                    end,
                },
                3,
            )
        }
    } else {
        let start = token.start;
        let end = token.end;
        match inline_split(token.text, 0) {
            Some((field, operator, value)) => if names_query_field(field) {
                (QueryEntry::Condition { field, operator, value, start, end }, 1)
            } else if is_broken(token.text) {
                (QueryEntry::Broken { token: token.text, start, end }, 1)
            } else {
                (QueryEntry::Word(token.text), 1)
            },
            None => (QueryEntry::Word(token.text), 1),
        }
    }
}

/// What the tokens of a query say from a place on.
pub open spec fn entries_from(tokens: Seq<TokenModel>, index: int) -> Seq<QueryEntry>
    decreases tokens.len() - index,
{
    if index < 0 || index >= tokens.len() {
        Seq::empty()
    } else {
        let (entry, count) = entry_at(tokens, index);
        seq![entry] + entries_from(tokens, index + count)
    }
}

/// What a query says.
pub open spec fn query_entries(query: Seq<char>) -> Seq<QueryEntry> {
    entries_from(query_token_models(query), 0)
}

/// The value of a condition without the quotes around it, unless only one of
/// them is there.
pub open spec fn unquoted(raw: Seq<char>) -> Option<Seq<char>> {
    let value = trimmed(raw);
    if value.len() >= 2 && ((value[0] == '"' && value.last() == '"') || (value[0] == '\''
        && value.last() == '\'')) {
        Some(
            replaced(
                replaced(value.subrange(1, value.len() - 1), "\\\""@, "\""@),
                "\\'"@,
                "'"@,
            ),
        )
    } else if value.len() > 0 && (value[0] == '"' || value[0] == '\'' || value.last() == '"'
        || value.last() == '\'') {
        None
    } else {
        Some(value)
    }
}

/// The value of a condition without the quotes around it.
fn unquote(raw: &str) -> (result: Option<String>)
    ensures
        match result {
            Some(value) => unquoted(raw@) == Some(value@),
            None => unquoted(raw@) is None,
        },
{
    let value = trim(raw);
    let characters = chars_of(value.as_str());
    let length: usize = characters.len();
    if length >= 2 && ((characters[0] == '"' && characters[length - 1] == '"') || (characters[0]
        == '\'' && characters[length - 1] == '\'')) {
        let inner = text_between(characters.as_slice(), 1, length - 1);
        proof {
            reveal_strlit("\\\"");
            reveal_strlit("\\'");
        }
        let inner = replace(inner.as_str(), "\\\"", "\"");
        let inner = replace(inner.as_str(), "\\'", "'");
        return Some(inner);
    }
    if length > 0 && (characters[0] == '"' || characters[0] == '\'' || characters[length - 1]
        == '"' || characters[length - 1] == '\'') {
        None
    } else {
        Some(value)
    }
}

/// The seconds in a unit of time.
pub open spec fn unit_seconds(unit: char) -> Option<int> {
    if unit == 's' {
        Some(1)
    } else if unit == 'm' {
        Some(60)
    } else if unit == 'h' {
        Some(3600)
    } else if unit == 'd' {
        Some(86400)
    } else {
        None
    }
}

/// The seconds before an instant that a text such as `last-5m` reaches back, if
/// that is an instant too.
pub open spec fn relative_seconds(value: Seq<char>, now: Timestamp) -> Option<int> {
    let value = lowered(value);
    let amount = value.skip("last-"@.len() as int);
    if !has_prefix(value, "last-"@) || amount.len() == 0 {
        None
    } else {
        match (i64_of(amount.drop_last()), unit_seconds(amount.last())) {
            (Some(count), Some(unit)) => if count > 0 && now.seconds() + now.nanos() / (
            NANOS_PER_SECOND as int) - count * unit >= FIRST_SECOND {
                Some(count * unit)
            } else {
                None
            },
            _ => None,
        }
    }
}

/// The milliseconds since 1970 that the value of a condition on the timestamp
/// stands for.
pub open spec fn timestamp_literal(value: Seq<char>) -> Option<int> {
    match i64_of(value) {
        Some(milliseconds) => Some(milliseconds),
        None => match rfc3339_instant(value) {
            Some((seconds, nanos)) => Some(seconds * 1000 + nanos / 1_000_000),
            None => None,
        },
    }
}

/// The value that a condition compares with.
pub enum LiteralModel {
    Text(Seq<char>),
    Number(Double),
}

/// What a condition says: how to compare, what with, and that as it is shown.
pub struct ConditionModel {
    pub operator: QueryOperator,
    pub literal: LiteralModel,
    pub shown: Seq<char>,
}

/// Whether an operator asks for an order.
pub open spec fn is_ordering(operator: QueryOperator) -> bool {
    operator != QueryOperator::Equal && operator != QueryOperator::NotEqual
}

/// What a condition says, or what is wrong with it.
pub open spec fn condition_outcome(
    field: Seq<char>,
    operator: Seq<char>,
    raw: Seq<char>,
    now: Timestamp,
) -> Result<ConditionModel, Seq<char>> {
    match operator_named(operator) {
        None => Err("Unsupported operator '"@ + operator + "'"@),
        Some(operator) => match unquoted(raw) {
            None => Err("Query value has an unmatched quote"@),
            Some(value) => if value.len() == 0 {
                Err(field + " requires a value"@)
            } else if field == "timestamp"@ {
                match relative_seconds(value, now) {
                    Some(seconds) => Ok(
                        ConditionModel {
                            operator: QueryOperator::GreaterOrEqual,
                            literal: LiteralModel::Number(
                                integer_double(now.millis() - seconds * 1000),
                            ),
                            shown: value,
                        },
                    ),
                    None => match timestamp_literal(value) {
                        Some(milliseconds) => Ok(
                            ConditionModel {
                                operator,
                                literal: LiteralModel::Number(integer_double(milliseconds)),
                                shown: value,
                            },
                        ),
                        None => Err(
                            "timestamp expects Unix milliseconds, RFC 3339, or last-<number><s|m|h|d>"@,
                        ),
                    },
                }
            } else if field == "schema_version"@ || field == "duration_ms"@ || is_ordering(
                operator,
            ) {
                match number_reading(value) {
                    Some(number) => Ok(
                        ConditionModel {
                            operator,
                            literal: LiteralModel::Number(number),
                            shown: value,
                        },
                    ),
                    None => Err(field + " expects a numeric value"@),
                }
            } else {
                Ok(ConditionModel { operator, literal: LiteralModel::Text(value), shown: value })
            },
        },
    }
}

/// The value that a condition compares with.
#[derive(Debug, PartialEq)]
pub enum QueryLiteral {
    Text(String),
    Number(Double),
}

impl View for QueryLiteral {
    type V = LiteralModel;

    open spec fn view(&self) -> LiteralModel {
        match self {
            QueryLiteral::Text(text) => LiteralModel::Text(text@),
            QueryLiteral::Number(number) => LiteralModel::Number(*number),
        }
    }
}

/// A condition on a part of an event.
#[derive(Debug, PartialEq)]
pub struct StructuredPredicate {
    pub field: String,
    pub operator: QueryOperator,
    pub value: QueryLiteral,
}

/// A condition of a query, with its text and the bytes of the query that it
/// takes up.
#[derive(Debug, PartialEq)]
pub struct ParsedPredicate {
    pub label: String,
    pub range: Range<usize>,
    pub predicate: StructuredPredicate,
}

/// What is wrong with a part of a query, and the bytes that the part takes up.
#[derive(Debug, PartialEq, Eq)]
pub struct QueryError {
    pub message: String,
    pub range: Range<usize>,
}

/// A query: the words to search for, the conditions, and what is wrong with it.
#[derive(Debug, PartialEq)]
pub struct ParsedQuery {
    pub text: String,
    pub predicates: Vec<ParsedPredicate>,
    pub errors: Vec<QueryError>,
}

impl Clone for QueryLiteral {
    fn clone(&self) -> (copy: Self)
        ensures
            copy@ == self@,
    {
        match self {
            QueryLiteral::Text(text) => QueryLiteral::Text(text.clone()),
            QueryLiteral::Number(number) => QueryLiteral::Number(*number),
        }
    }
}

impl Clone for StructuredPredicate {
    fn clone(&self) -> (copy: Self)
        ensures
            copy.field@ == self.field@,
            copy.operator == self.operator,
            copy.value@ == self.value@,
    {
        StructuredPredicate {
            field: self.field.clone(),
            operator: self.operator,
            value: self.value.clone(),
        }
    }
}

/// Whether two conditions say the same.
pub open spec fn same_predicate(left: ParsedPredicate, right: ParsedPredicate) -> bool {
    &&& left.label@ == right.label@
    &&& left.range == right.range
    &&& left.predicate.field@ == right.predicate.field@
    &&& left.predicate.operator == right.predicate.operator
    &&& left.predicate.value@ == right.predicate.value@
}

impl Clone for ParsedPredicate {
    fn clone(&self) -> (copy: Self)
        ensures
            same_predicate(copy, *self),
    {
        ParsedPredicate {
            label: self.label.clone(),
            range: Range { start: self.range.start, end: self.range.end },
            predicate: self.predicate.clone(),
        }
    }
}

/// Whether two faults say the same.
pub open spec fn same_error(left: QueryError, right: QueryError) -> bool {
    &&& left.message@ == right.message@
    &&& left.range == right.range
}

impl Clone for QueryError {
    fn clone(&self) -> (copy: Self)
        ensures
            same_error(copy, *self),
    {
        QueryError {
            message: self.message.clone(),
            range: Range { start: self.range.start, end: self.range.end },
        }
    }
}

impl Clone for ParsedQuery {
    fn clone(&self) -> (copy: Self)
        ensures
            copy.text@ == self.text@,
            copy.predicates@.len() == self.predicates@.len(),
            forall|i: int|
                0 <= i < self.predicates@.len() ==> same_predicate(
                    #[trigger] copy.predicates@[i],
                    self.predicates@[i],
                ),
            copy.errors@.len() == self.errors@.len(),
            forall|i: int|
                0 <= i < self.errors@.len() ==> same_error(
                    #[trigger] copy.errors@[i],
                    self.errors@[i],
                ),
    {
        let mut predicates: Vec<ParsedPredicate> = Vec::new();
        let mut index: usize = 0;
        while index < self.predicates.len()
            invariant
                index <= self.predicates.len(),
                predicates@.len() == index,
                forall|i: int|
                    0 <= i < index ==> same_predicate(
                        #[trigger] predicates@[i],
                        self.predicates@[i],
                    ),
            decreases self.predicates.len() - index,
        {
            predicates.push(self.predicates[index].clone());
            index += 1;
        }
        let mut errors: Vec<QueryError> = Vec::new();
        let mut place: usize = 0;
        while place < self.errors.len()
            invariant
                place <= self.errors.len(),
                errors@.len() == place,
                forall|i: int|
                    0 <= i < place ==> same_error(#[trigger] errors@[i], self.errors@[i]),
            decreases self.errors.len() - place,
        {
            errors.push(self.errors[place].clone());
            place += 1;
        }
        ParsedQuery { text: self.text.clone(), predicates, errors }
    }
}

/// The text of a condition.
pub open spec fn condition_label(field: Seq<char>, condition: ConditionModel) -> Seq<char> {
    field + " "@ + operator_text(condition.operator) + " "@ + condition.shown
}

/// Whether a parsed condition says what a condition of a query says.
pub open spec fn is_condition(
    parsed: ParsedPredicate,
    field: Seq<char>,
    condition: ConditionModel,
    start: nat,
    end: nat,
) -> bool {
    &&& parsed.label@ == condition_label(field, condition)
    &&& parsed.range.start == start
    &&& parsed.range.end == end
    &&& parsed.predicate.field@ == lowered(field)
    &&& parsed.predicate.operator == condition.operator
    &&& parsed.predicate.value@ == condition.literal
}

/// Whether an error is the one with a message, at a place.
pub open spec fn is_query_error(
    error: QueryError,
    message: Seq<char>,
    start: nat,
    end: nat,
) -> bool {
    &&& error.message@ == message
    &&& error.range.start == start
    &&& error.range.end == end
}

/// A text made of three.
fn concat3(first: &str, second: &str, third: &str) -> (result: String)
    ensures
        result@ == first@ + second@ + third@,
{
    let mut result = owned(first);
    result.append(second);
    result.append(third);
    result
}

/// The seconds before an instant that a text such as `last-5m` reaches back.
fn parse_relative_duration(value: &str, now: Timestamp) -> (result: Option<i64>)
    ensures
        match result {
            Some(seconds) => relative_seconds(value@, now) == Some(seconds as int),
            None => relative_seconds(value@, now) is None,
        },
        result is Some ==> result->0 <= 0x1000_0000_0000,
{
    let value = to_lower(value);
    let amount = match strip_prefix(value.as_str(), "last-") {
        Some(amount) => amount,
        None => return None,
    };
    let characters = chars_of(amount.as_str());
    let length: usize = characters.len();
    if length == 0 {
        return None;
    }
    let count_text = text_between(characters.as_slice(), 0, length - 1);
    assert(count_text@ == amount@.drop_last());
    let count: i64 = match parse_i64(count_text.as_str()) {
        Some(count) => count,
        None => return None,
    };
    let unit: i64 = match characters[length - 1] {
        's' => 1,
        'm' => 60,
        'h' => 3600,
        'd' => 86400,
        _ => return None,
    };
    if count <= 0 {
        return None;
    }
    let (seconds, nanos) = now.parts();
    let reach: i128 = seconds as i128 + (nanos / NANOS_PER_SECOND) as i128 - FIRST_SECOND as i128;
    let span: i128 = count as i128 * unit as i128;
    if span <= reach {
        Some(span as i64)
    } else {
        None
    }
}

/// The milliseconds since 1970 that the value of a condition on the timestamp
/// stands for.
fn parse_timestamp(value: &str) -> (result: Option<i64>)
    ensures
        match result {
            Some(milliseconds) => timestamp_literal(value@) == Some(milliseconds as int),
            None => timestamp_literal(value@) is None,
        },
{
    match parse_i64(value) {
        Some(milliseconds) => Some(milliseconds),
        None => match Timestamp::from_rfc3339(value) {
            Some(instant) => Some(instant.timestamp_millis()),
            None => None,
        },
    }
}

/// The literal and the operator of a condition.
fn condition_parts(field: &str, operator_text: &str, raw_value: &str, now: Timestamp) -> (result:
    Result<(QueryOperator, QueryLiteral, String), String>)
    ensures
        match result {
            Ok((operator, literal, shown)) => condition_outcome(
                field@,
                operator_text@,
                raw_value@,
                now,
            ) == Ok::<ConditionModel, Seq<char>>(
                ConditionModel { operator, literal: literal@, shown: shown@ },
            ),
            Err(message) => condition_outcome(field@, operator_text@, raw_value@, now) == Err::<
                ConditionModel,
                Seq<char>,
            >(message@),
        },
{
    let operator = match parse_operator(operator_text) {
        Some(operator) => operator,
        None => return Err(concat3("Unsupported operator '", operator_text, "'")),
    };
    let value = match unquote(raw_value) {
        Some(value) => value,
        None => return Err(owned("Query value has an unmatched quote")),
    };
    if value.as_str().is_empty() {
        let mut message = owned(field);
        message.append(" requires a value");
        return Err(message);
    }
    if same(field, "timestamp") {
        if let Some(seconds) = parse_relative_duration(value.as_str(), now) {
            let threshold: i64 = now.timestamp_millis() - seconds * 1000;
            return Ok(
                (
                    QueryOperator::GreaterOrEqual,
                    QueryLiteral::Number(Double::from_i64(threshold)),
                    value,
                ),
            );
        }
        return match parse_timestamp(value.as_str()) {
            Some(milliseconds) => Ok(
                (operator, QueryLiteral::Number(Double::from_i64(milliseconds)), value),
            ),
            None => Err(
                owned("timestamp expects Unix milliseconds, RFC 3339, or last-<number><s|m|h|d>"),
            ),
        };
    }
    if same(field, "schema_version") || same(field, "duration_ms") || (operator
        != QueryOperator::Equal && operator != QueryOperator::NotEqual) {
        return match parse_number(value.as_str()) {
            Some(number) => Ok((operator, QueryLiteral::Number(number), value)),
            None => {
                let mut message = owned(field);
                message.append(" expects a numeric value");
                Err(message)
            },
        };
    }
    Ok((operator, QueryLiteral::Text(value.clone()), value))
}

/// A condition of a query, or what is wrong with it.
fn build_predicate(
    field: &str,
    operator_text: &str,
    raw_value: &str,
    start: usize,
    end: usize,
    now: Timestamp,
) -> (result: Result<ParsedPredicate, QueryError>)
    ensures
        match result {
            Ok(parsed) => match condition_outcome(field@, operator_text@, raw_value@, now) {
                Ok(condition) => is_condition(
                    parsed,
                    field@,
                    condition,
                    start as nat,
                    end as nat,
                ),
                Err(_) => false,
            },
            Err(error) => match condition_outcome(field@, operator_text@, raw_value@, now) {
                Ok(_) => false,
                Err(message) => is_query_error(error, message, start as nat, end as nat),
            },
        },
{
    match condition_parts(field, operator_text, raw_value, now) {
        Ok((operator, value, shown)) => {
            let mut label = concat3(field, " ", operator.text());
            label.append(" ");
            label.append(shown.as_str());
            let predicate = StructuredPredicate { field: to_lower(field), operator, value };
            Ok(ParsedPredicate { label, range: Range { start, end }, predicate })
        },
        Err(message) => Err(QueryError { message, range: Range { start, end } }),
    }
}

/// Whether the parsed conditions and the errors are those that a query's
/// entries lead to, each list in the order of the entries.
pub open spec fn outcomes(
    entries: Seq<QueryEntry>,
    now: Timestamp,
    predicates: Seq<ParsedPredicate>,
    errors: Seq<QueryError>,
) -> bool
    decreases entries.len(),
{
    if entries.len() == 0 {
        predicates.len() == 0 && errors.len() == 0
    } else {
        let before = entries.drop_last();
        match entries.last() {
            QueryEntry::Word(_) => outcomes(before, now, predicates, errors),
            QueryEntry::Condition { field, operator, value, start, end } => {
                match condition_outcome(field, operator, value, now) {
                    Ok(condition) => {
                        &&& predicates.len() > 0
                        &&& is_condition(predicates.last(), field, condition, start, end)
                        &&& outcomes(before, now, predicates.drop_last(), errors)
                    },
                    Err(message) => {
                        &&& errors.len() > 0
                        &&& is_query_error(errors.last(), message, start, end)
                        &&& outcomes(before, now, predicates, errors.drop_last())
                    },
                }
            },
            QueryEntry::UnknownField { field, start, end } => {
                &&& errors.len() > 0
                &&& is_query_error(
                    errors.last(),
                    "Unknown query field '"@ + field + "'"@,
                    start,
                    end,
                )
                &&& outcomes(before, now, predicates, errors.drop_last())
            },
            QueryEntry::MissingValue { field, start, end } => {
                &&& errors.len() > 0
                &&& is_query_error(errors.last(), field + " requires a value"@, start, end)
                &&& outcomes(before, now, predicates, errors.drop_last())
            },
            QueryEntry::Broken { token, start, end } => {
                &&& errors.len() > 0
                &&& is_query_error(
                    errors.last(),
                    "Unknown query field in '"@ + token + "'"@,
                    start,
                    end,
                )
                &&& outcomes(before, now, predicates, errors.drop_last())
            },
        }
    }
}

/// The words among a query's entries.
pub open spec fn entry_words(entries: Seq<QueryEntry>) -> Seq<Seq<char>>
    decreases entries.len(),
{
    if entries.len() == 0 {
        Seq::empty()
    } else {
        match entries.last() {
            QueryEntry::Word(word) => entry_words(entries.drop_last()).push(word),
            _ => entry_words(entries.drop_last()),
        }
    }
}

/// Whether a parsed query says what the query says.
pub open spec fn says(query: Seq<char>, now: Timestamp, parsed: ParsedQuery) -> bool {
    &&& parsed.text@ == joined(entry_words(query_entries(query)), " "@)
    &&& outcomes(query_entries(query), now, parsed.predicates@, parsed.errors@)
}

/// Splits a query into the words to search for and the conditions on the parts
/// of events.
#[verifier::rlimit(40)]
pub fn parse_structured_query(query: &str, now: Timestamp) -> (parsed: ParsedQuery)
    ensures
        says(query@, now, parsed),
{
    let tokens = query_tokens(query);
    let ghost models = token_views(tokens@);
    let mut words: Vec<String> = Vec::new();
    let mut predicates: Vec<ParsedPredicate> = Vec::new();
    let mut errors: Vec<QueryError> = Vec::new();
    let ghost mut done: Seq<QueryEntry> = Seq::empty();
    let mut index: usize = 0;
    assert(done + entries_from(models, 0) == entries_from(models, 0));
    while index < tokens.len()
        invariant
            index <= tokens.len(),
            models == token_views(tokens@),
            models == query_token_models(query@),
            done + entries_from(models, index as int) == query_entries(query@),
            outcomes(done, now, predicates@, errors@),
            views(words@) == entry_words(done),
        decreases tokens.len() - index,
    {
        let token = &tokens[index];
        let ghost before = done;
        let ghost predicates_before = predicates@;
        let ghost errors_before = errors@;
        let ghost words_before = views(words@);
        let ghost (entry, count) = entry_at(models, index as int);
        assert(models[index as int] == token@);
        proof {
            done = before.push(entry);
            assert(done.drop_last() == before);
            assert(before + (seq![entry] + entries_from(models, index + count)) == done
                + entries_from(models, index + count));
        }
        let mut operator = false;
        if index + 1 < tokens.len() {
            assert(models[index + 1] == tokens@[index + 1]@);
            operator = parse_operator(tokens[index + 1].text.as_str()).is_some();
        }
        if operator {
            let last: usize = if index + 2 < tokens.len() {
                index + 2
            } else {
                index + 1
            };
            assert(models[last as int] == tokens@[last as int]@);
            let start: usize = token.start;
            let end: usize = tokens[last].end;
            if !is_query_field(token.text.as_str()) {
                let message = concat3("Unknown query field '", token.text.as_str(), "'");
                errors.push(QueryError { message, range: Range { start, end } });
                assert(errors@.drop_last() == errors_before);
                index = last + 1;
                continue;
            }
            if index + 2 >= tokens.len() {
                let mut message = owned(token.text.as_str());
                message.append(" requires a value");
                errors.push(QueryError { message, range: Range { start, end } });
                assert(errors@.drop_last() == errors_before);
                index += 2;
                continue;
            }
            match build_predicate(
                token.text.as_str(),
                tokens[index + 1].text.as_str(),
                tokens[index + 2].text.as_str(),
                start,
                end,
                now,
            ) {
                Ok(predicate) => {
                    predicates.push(predicate);
                    assert(predicates@.drop_last() == predicates_before);
                },
                Err(error) => {
                    errors.push(error);
                    assert(errors@.drop_last() == errors_before);
                },
            }
            index += 3;
            continue;
        }
        let mut condition = false;
        if let Some((field, operator, value)) = split_inline_expression(token.text.as_str()) {
            if is_query_field(field.as_str()) {
                condition = true;
                match build_predicate(
                    field.as_str(),
                    operator,
                    value.as_str(),
                    token.start,
                    token.end,
                    now,
                ) {
                    Ok(predicate) => {
                        predicates.push(predicate);
                        assert(predicates@.drop_last() == predicates_before);
                    },
                    Err(error) => {
                        errors.push(error);
                        assert(errors@.drop_last() == errors_before);
                    },
                }
            }
        }
        if !condition {
            if looks_like_broken_expression(token.text.as_str()) {
                let message = concat3("Unknown query field in '", token.text.as_str(), "'");
                errors.push(
                    QueryError { message, range: Range { start: token.start, end: token.end } },
                );
                assert(errors@.drop_last() == errors_before);
            } else {
                words.push(token.text.clone());
                assert(views(words@) == words_before.push(token@.text));
            }
        }
        index += 1;
    }
    assert(done + Seq::<QueryEntry>::empty() == done);
    let text = join(&words, " ");
    ParsedQuery { text, predicates, errors }
}

/// The value of a part of an event that a condition looks at.
pub open spec fn optional_text_value(text: Option<String>) -> Option<LiteralModel> {
    match text {
        Some(text) => Some(LiteralModel::Text(text@)),
        None => None,
    }
}

/// The double that a JSON number stands for.
pub open spec fn number_double(number: JsonNumber) -> Double {
    match number {
        JsonNumber::Natural(value) => integer_double(value as int),
        JsonNumber::Integer(value) => integer_double(value as int),
        JsonNumber::Real { number, .. } => number,
    }
}

/// The value of a JSON value that a condition looks at: arrays, objects and
/// null have none.
pub open spec fn json_literal(value: JsonValue) -> Option<LiteralModel> {
    match value {
        JsonValue::String(text) => Some(LiteralModel::Text(text@)),
        JsonValue::Number(number) => Some(LiteralModel::Number(number_double(number))),
        JsonValue::Bool(flag) => Some(LiteralModel::Text(bool_text(flag))),
        JsonValue::Null | JsonValue::Array(_) | JsonValue::Object(_) => None,
    }
}

/// The value of the part of an event that a name, in lower case, stands for.
pub open spec fn part_value(event: LogEvent, field: Seq<char>) -> Option<LiteralModel> {
    if field == "schema_version"@ {
        Some(LiteralModel::Number(integer_double(event.schema_version as int)))
    } else if field == "timestamp"@ {
        Some(LiteralModel::Number(integer_double(event.timestamp.millis())))
    } else if field == "level"@ {
        Some(LiteralModel::Text(level_text(event.level)))
    } else if field == "source"@ {
        Some(LiteralModel::Text(event.source@))
    } else if field == "tag"@ {
        Some(LiteralModel::Text(tag_of(event.message@, event.subsystem@)))
    } else if field == "subsystem"@ {
        Some(LiteralModel::Text(event.subsystem@))
    } else if field == "target"@ {
        optional_text_value(event.target)
    } else if field == "event"@ {
        Some(LiteralModel::Text(event.event@))
    } else if field == "message"@ {
        Some(LiteralModel::Text(event.message@))
    } else if field == "app_session_id"@ {
        Some(LiteralModel::Text(event.app_session_id@))
    } else if field == "playback_session_id"@ {
        optional_text_value(event.playback_session_id)
    } else if field == "request_id"@ {
        optional_text_value(event.request_id)
    } else if field == "session_id"@ {
        optional_text_value(event.session_id)
    } else if field == "provider"@ {
        optional_text_value(event.provider)
    } else if field == "duration_ms"@ {
        match event.duration_ms {
            Some(duration) => Some(LiteralModel::Number(duration)),
            None => None,
        }
    } else if field == "error_kind"@ {
        optional_text_value(event.error_kind)
    } else if field == "status"@ {
        match event.status {
            Some(value) => json_literal(value),
            None => None,
        }
    } else if field == "correlation"@ {
        Some(LiteralModel::Text(correlation_of(event)))
    } else if has_prefix(field, "fields."@) {
        let name = field.skip("fields."@.len() as int);
        if event.fields@.contains_key(name) {
            json_literal(event.fields@[name])
        } else {
            None
        }
    } else {
        None
    }
}

/// Whether a value satisfies a condition. A text and a number are compared as
/// numbers, where the text is one.
pub open spec fn value_satisfies(
    operator: QueryOperator,
    value: LiteralModel,
    literal: LiteralModel,
) -> bool {
    match (literal, value) {
        (LiteralModel::Number(right), LiteralModel::Number(left)) => numbers_satisfy(
            operator,
            left,
            right,
        ),
        (LiteralModel::Text(right), LiteralModel::Text(left)) => texts_satisfy(
            operator,
            left,
            right,
        ),
        (LiteralModel::Text(right), LiteralModel::Number(left)) => match number_reading(right) {
            Some(right) => numbers_satisfy(operator, left, right),
            None => false,
        },
        (LiteralModel::Number(right), LiteralModel::Text(left)) => match number_reading(left) {
            Some(left) => numbers_satisfy(operator, left, right),
            None => false,
        },
    }
}

/// Whether an event satisfies a condition.
pub open spec fn predicate_holds(predicate: StructuredPredicate, event: LogEvent) -> bool {
    match part_value(event, predicate.field@) {
        Some(value) => value_satisfies(predicate.operator, value, predicate.value@),
        None => false,
    }
}

/// Whether an event satisfies every one of some conditions.
pub open spec fn all_hold(predicates: Seq<ParsedPredicate>, event: LogEvent) -> bool {
    forall|i: int|
        0 <= i < predicates.len() ==> predicate_holds((#[trigger] predicates[i]).predicate, event)
}

/// A text that a condition looks at.
fn text_literal(text: &str) -> (result: Option<QueryLiteral>)
    ensures
        result is Some,
        result->0@ == LiteralModel::Text(text@),
{
    Some(QueryLiteral::Text(owned(text)))
}

/// An optional text that a condition looks at.
fn optional_literal(text: &Option<String>) -> (result: Option<QueryLiteral>)
    ensures
        match result {
            Some(value) => optional_text_value(*text) == Some(value@),
            None => optional_text_value(*text) is None,
        },
{
    match text {
        Some(text) => text_literal(text.as_str()),
        None => None,
    }
}

/// The value of a JSON value that a condition looks at.
fn json_query_value(value: &JsonValue) -> (result: Option<QueryLiteral>)
    ensures
        match result {
            Some(literal) => json_literal(*value) == Some(literal@),
            None => json_literal(*value) is None,
        },
{
    match value {
        JsonValue::String(text) => text_literal(text.as_str()),
        JsonValue::Number(number) => {
            let double = double_of(number);
            Some(QueryLiteral::Number(double))
        },
        JsonValue::Bool(flag) => text_literal(
            if *flag {
                "true"
            } else {
                "false"
            },
        ),
        JsonValue::Null | JsonValue::Array(_) | JsonValue::Object(_) => None,
    }
}

/// The value of the part of an event that a name, in lower case, stands for.
pub fn event_query_value(event: &LogEvent, field: &str) -> (result: Option<QueryLiteral>)
    ensures
        match result {
            Some(literal) => part_value(*event, field@) == Some(literal@),
            None => part_value(*event, field@) is None,
        },
{
    if same(field, "schema_version") {
        Some(QueryLiteral::Number(Double::from_u64(event.schema_version as u64)))
    } else if same(field, "timestamp") {
        Some(QueryLiteral::Number(Double::from_i64(event.timestamp.timestamp_millis())))
    } else if same(field, "level") {
        text_literal(event.level.name())
    } else if same(field, "source") {
        text_literal(event.source.as_str())
    } else if same(field, "tag") {
        let tag = event.tag();
        text_literal(tag.as_str())
    } else if same(field, "subsystem") {
        text_literal(event.subsystem.as_str())
    } else if same(field, "target") {
        optional_literal(&event.target)
    } else if same(field, "event") {
        text_literal(event.event.as_str())
    } else if same(field, "message") {
        text_literal(event.message.as_str())
    } else if same(field, "app_session_id") {
        text_literal(event.app_session_id.as_str())
    } else if same(field, "playback_session_id") {
        optional_literal(&event.playback_session_id)
    } else if same(field, "request_id") {
        optional_literal(&event.request_id)
    } else if same(field, "session_id") {
        optional_literal(&event.session_id)
    } else if same(field, "provider") {
        optional_literal(&event.provider)
    } else if same(field, "duration_ms") {
        match event.duration_ms {
            Some(duration) => Some(QueryLiteral::Number(duration)),
            None => None,
        }
    } else if same(field, "error_kind") {
        optional_literal(&event.error_kind)
    } else if same(field, "status") {
        match &event.status {
            Some(value) => json_query_value(value),
            None => None,
        }
    } else if same(field, "correlation") {
        text_literal(event.correlation_id())
    } else {
        match strip_prefix(field, "fields.") {
            Some(name) => match event.fields.get(name.as_str()) {
                Some(value) => json_query_value(value),
                None => None,
            },
            None => None,
        }
    }
}

impl StructuredPredicate {
    /// Whether an event satisfies the condition.
    pub fn matches(&self, event: &LogEvent) -> (result: bool)
        ensures
            result == predicate_holds(*self, *event),
    {
        match event_query_value(event, self.field.as_str()) {
            Some(value) => match (&self.value, &value) {
                (QueryLiteral::Number(right), QueryLiteral::Number(left)) => {
                    self.operator.compare_number(*left, *right)
                },
                (QueryLiteral::Text(right), QueryLiteral::Text(left)) => {
                    self.operator.compare_text(left.as_str(), right.as_str())
                },
                (QueryLiteral::Text(right), QueryLiteral::Number(left)) => {
                    match parse_number(right.as_str()) {
                        Some(right) => self.operator.compare_number(*left, right),
                        None => false,
                    }
                },
                (QueryLiteral::Number(right), QueryLiteral::Text(left)) => {
                    match parse_number(left.as_str()) {
                        Some(left) => self.operator.compare_number(left, *right),
                        None => false,
                    }
                },
            },
            None => false,
        }
    }
}

impl ParsedPredicate {
    /// Whether an event satisfies the condition.
    pub fn matches(&self, event: &LogEvent) -> (result: bool)
        ensures
            result == predicate_holds(self.predicate, *event),
    {
        self.predicate.matches(event)
    }
}

/// A query of white space has no tokens.
proof fn lemma_space_has_no_tokens(query: Seq<char>, count: int)
    requires
        0 <= count <= query.len(),
        forall|i: int| 0 <= i < query.len() ==> is_space(#[trigger] query[i]),
    ensures
        quote_state(query, count) == (None::<char>, false),
        token_runs(query, count) == (Seq::<(int, int)>::empty(), None::<int>),
    decreases count,
{
    if count > 0 {
        lemma_space_has_no_tokens(query, count - 1);
        assert(is_space(query[count - 1]));
    }
}

/// A query that is empty once trimmed says nothing.
pub proof fn lemma_blank_query_says_nothing(query: Seq<char>)
    requires
        trimmed(query).len() == 0,
    ensures
        query_entries(query) == Seq::<QueryEntry>::empty(),
{
    lemma_blank_is_space(query);
    lemma_space_has_no_tokens(query, query.len() as int);
}

/// Every entry of a query is a word, a condition or an error: none is lost and
/// none counts twice.
pub proof fn lemma_entries_are_told_apart(
    entries: Seq<QueryEntry>,
    now: Timestamp,
    predicates: Seq<ParsedPredicate>,
    errors: Seq<QueryError>,
)
    requires
        outcomes(entries, now, predicates, errors),
    ensures
        entries.len() == entry_words(entries).len() + predicates.len() + errors.len(),
    decreases entries.len(),
{
    if entries.len() > 0 {
        let before = entries.drop_last();
        match entries.last() {
            QueryEntry::Word(_) => {
                lemma_entries_are_told_apart(before, now, predicates, errors);
            },
            QueryEntry::Condition { field, operator, value, .. } => {
                match condition_outcome(field, operator, value, now) {
                    Ok(_) => {
                        lemma_entries_are_told_apart(before, now, predicates.drop_last(), errors);
                    },
                    Err(_) => {
                        lemma_entries_are_told_apart(before, now, predicates, errors.drop_last());
                    },
                }
            },
            _ => {
                lemma_entries_are_told_apart(before, now, predicates, errors.drop_last());
            },
        }
    }
}

/// A condition is shown as it reads: the name of the part, the sign of the operator, and the
/// value.
pub proof fn lemma_conditions_are_shown(field: Seq<char>, condition: ConditionModel)
    ensures
        ({
            let sign = match condition.operator {
                QueryOperator::Equal => "="@,
                QueryOperator::NotEqual => "!="@,
                QueryOperator::Greater => ">"@,
                QueryOperator::GreaterOrEqual => ">="@,
                QueryOperator::Less => "<"@,
                QueryOperator::LessOrEqual => "<="@,
            };
            condition_label(field, condition) == field + " "@ + sign + " "@ + condition.shown
        }),
{
}

}
