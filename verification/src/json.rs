//! JSON values and their compact text.
use vstd::prelude::*;

use crate::number::Double;
use crate::numeral::{all_digits, digit_value, digits_value, is_digit};
use crate::text::owned;

verus! {

/// A number of a JSON document. Integers that fit 64 bits are held exactly, a
/// negative integer only in the second form; any other number is held as a
/// double beside its shortest text.
#[derive(Debug, PartialEq)]
pub enum JsonNumber {
    Natural(u64),
    Integer(i64),
    Real { number: Double, text: String },
}

/// A JSON value. An object is held by its members as they are listed; those of an event
/// that was read are in order.
#[derive(Debug, PartialEq)]
pub enum JsonValue {
    Null,
    Bool(bool),
    Number(JsonNumber),
    String(String),
    Array(Vec<JsonValue>),
    Object(Vec<(String, JsonValue)>),
}

/// Whether two numbers are the same.
pub open spec fn same_number(left: JsonNumber, right: JsonNumber) -> bool {
    match (left, right) {
        (JsonNumber::Natural(left), JsonNumber::Natural(right)) => left == right,
        (JsonNumber::Integer(left), JsonNumber::Integer(right)) => left == right,
        (
            JsonNumber::Real { number: left, text: shown },
            JsonNumber::Real { number: right, text },
        ) => left == right && shown@ == text@,
        _ => false,
    }
}

/// Whether two values are the same, part by part.
pub open spec fn same_value(left: JsonValue, right: JsonValue) -> bool
    decreases left,
{
    match (left, right) {
        (JsonValue::Null, JsonValue::Null) => true,
        (JsonValue::Bool(left), JsonValue::Bool(right)) => left == right,
        (JsonValue::Number(left), JsonValue::Number(right)) => same_number(left, right),
        (JsonValue::String(left), JsonValue::String(right)) => left@ == right@,
        (JsonValue::Array(left), JsonValue::Array(right)) => {
            &&& left@.len() == right@.len()
            &&& forall|i: int|
                0 <= i < left@.len() ==> same_value(#[trigger] left@[i], right@[i])
        },
        (JsonValue::Object(left), JsonValue::Object(right)) => {
            &&& left@.len() == right@.len()
            &&& forall|i: int|
                0 <= i < left@.len() ==> (#[trigger] left@[i]).0@ == right@[i].0@ && same_value(
                    left@[i].1,
                    right@[i].1,
                )
        },
        _ => false,
    }
}

/// Of two values that are the same, either comes first.
pub proof fn lemma_same_value_symmetric(left: JsonValue, right: JsonValue)
    requires
        same_value(left, right),
    ensures
        same_value(right, left),
    decreases left,
{
    match (left, right) {
        (JsonValue::Array(first), JsonValue::Array(second)) => {
            assert forall|i: int| 0 <= i < second@.len() implies same_value(
                #[trigger] second@[i],
                first@[i],
            ) by {
                assert(same_value(first@[i], second@[i]));
                lemma_same_value_symmetric(first@[i], second@[i]);
            }
        },
        (JsonValue::Object(first), JsonValue::Object(second)) => {
            assert forall|i: int| 0 <= i < second@.len() implies (#[trigger] second@[i]).0@
                == first@[i].0@ && same_value(second@[i].1, first@[i].1) by {
                assert(same_value(first@[i].1, second@[i].1));
                lemma_same_value_symmetric(first@[i].1, second@[i].1);
            }
        },
        _ => {},
    }
}

impl Clone for JsonNumber {
    fn clone(&self) -> (copy: Self)
        ensures
            same_number(*self, copy),
    {
        match self {
            JsonNumber::Natural(value) => JsonNumber::Natural(*value),
            JsonNumber::Integer(value) => JsonNumber::Integer(*value),
            JsonNumber::Real { number, text } => JsonNumber::Real {
                number: *number,
                text: text.clone(),
            },
        }
    }
}

/// A copy of a value.
fn copied_value(value: &JsonValue) -> (copy: JsonValue)
    ensures
        same_value(*value, copy),
    decreases value,
{
    match value {
        JsonValue::Null => JsonValue::Null,
        JsonValue::Bool(flag) => JsonValue::Bool(*flag),
        JsonValue::Number(number) => JsonValue::Number(number.clone()),
        JsonValue::String(text) => JsonValue::String(text.clone()),
        JsonValue::Array(items) => {
            let mut copies: Vec<JsonValue> = Vec::new();
            let mut index: usize = 0;
            while index < items.len()
                invariant
                    index <= items.len(),
                    *value == JsonValue::Array(*items),
                    copies@.len() == index,
                    forall|i: int|
                        0 <= i < index ==> same_value(#[trigger] items@[i], copies@[i]),
                decreases items.len() - index,
            {
                proof {
                    assert(decreases_to!(value => value->Array_0));
                    assert(decreases_to!(*items => items@));
                    assert(decreases_to!(items@ => items@[index as int]));
                }
                copies.push(copied_value(&items[index]));
                index += 1;
            }
            JsonValue::Array(copies)
        },
        JsonValue::Object(members) => {
            let mut copies: Vec<(String, JsonValue)> = Vec::new();
            let mut index: usize = 0;
            while index < members.len()
                invariant
                    index <= members.len(),
                    *value == JsonValue::Object(*members),
                    copies@.len() == index,
                    forall|i: int|
                        0 <= i < index ==> (#[trigger] members@[i]).0@ == copies@[i].0@
                            && same_value(members@[i].1, copies@[i].1),
                decreases members.len() - index,
            {
                proof {
                    assert(decreases_to!(value => value->Object_0));
                    assert(decreases_to!(*members => members@));
                    assert(decreases_to!(members@ => members@[index as int]));
                    assert(decreases_to!(members@[index as int] => members@[index as int].1));
                }
                copies.push((members[index].0.clone(), copied_value(&members[index].1)));
                index += 1;
            }
            JsonValue::Object(copies)
        },
    }
}

impl Clone for JsonValue {
    fn clone(&self) -> (copy: Self)
        ensures
            same_value(*self, copy),
    {
        copied_value(self)
    }
}

/// The decimal digit with a value.
pub open spec fn digit_char(value: nat) -> char {
    (48 + value) as char
}

/// The decimal text of a natural number.
pub open spec fn decimal_text(number: nat) -> Seq<char>
    decreases number,
{
    if number < 10 {
        seq![digit_char(number)]
    } else {
        decimal_text(number / 10).push(digit_char(number % 10))
    }
}

/// The decimal text of an integer.
pub open spec fn integer_text(number: int) -> Seq<char> {
    if number < 0 {
        seq!['-'] + decimal_text((-number) as nat)
    } else {
        decimal_text(number as nat)
    }
}

/// A hexadecimal digit.
pub open spec fn hex_char(value: nat) -> char {
    if value < 10 {
        (48 + value) as char
    } else {
        (87 + value) as char
    }
}

/// How a character is written inside a JSON string.
pub open spec fn escape_of(character: char) -> Seq<char> {
    let code = character as u32;
    if character == '"' {
        seq!['\\', '"']
    } else if character == '\\' {
        seq!['\\', '\\']
    } else if code == 8 {
        seq!['\\', 'b']
    } else if code == 9 {
        seq!['\\', 't']
    } else if code == 10 {
        seq!['\\', 'n']
    } else if code == 12 {
        seq!['\\', 'f']
    } else if code == 13 {
        seq!['\\', 'r']
    } else if code < 32 {
        seq!['\\', 'u', '0', '0', hex_char((code / 16) as nat), hex_char((code % 16) as nat)]
    } else {
        seq![character]
    }
}

/// The inside of a JSON string.
pub open spec fn escaped(text: Seq<char>) -> Seq<char>
    decreases text.len(),
{
    if text.len() == 0 {
        Seq::empty()
    } else {
        escaped(text.drop_last()) + escape_of(text.last())
    }
}

/// The JSON string that stands for a text.
pub open spec fn quoted(text: Seq<char>) -> Seq<char> {
    seq!['"'] + escaped(text) + seq!['"']
}

/// `serde_json::to_string` on a string: the text between double quotes, with
/// quotes, backslashes and the control characters below the space escaped.
/// Writing to memory, it does not fail.
#[verifier::external_body]
pub(crate) fn quote(text: &str) -> (result: String)
    ensures
        result@ == quoted(text@),
{
    serde_json::to_string(text).unwrap()
}

/// The text of a JSON number.
pub open spec fn number_text(number: JsonNumber) -> Seq<char> {
    match number {
        JsonNumber::Natural(value) => decimal_text(value as nat),
        JsonNumber::Integer(value) => integer_text(value as int),
        JsonNumber::Real { text, .. } => text@,
    }
}

/// The compact text of a JSON value.
pub open spec fn compact(value: JsonValue) -> Seq<char>
    decreases value,
{
    match value {
        JsonValue::Null => "null"@,
        JsonValue::Bool(flag) => bool_text(flag),
        JsonValue::Number(number) => number_text(number),
        JsonValue::String(text) => quoted(text@),
        JsonValue::Array(items) => seq!['['] + compact_items(items@) + seq![']'],
        JsonValue::Object(members) => seq!['{'] + compact_members(members@) + seq!['}'],
    }
}

/// The compact texts of values, with commas between them.
pub open spec fn compact_items(items: Seq<JsonValue>) -> Seq<char>
    decreases items,
{
    if items.len() == 0 {
        Seq::empty()
    } else if items.len() == 1 {
        compact(items[0])
    } else {
        compact_items(items.drop_last()) + seq![','] + compact(items.last())
    }
}

/// The compact texts of an object's members, with commas between them.
pub open spec fn compact_members(members: Seq<(String, JsonValue)>) -> Seq<char>
    decreases members,
{
    if members.len() == 0 {
        Seq::empty()
    } else if members.len() == 1 {
        quoted(members[0].0@) + seq![':'] + compact(members[0].1)
    } else {
        compact_members(members.drop_last()) + seq![','] + quoted(members.last().0@) + seq![':']
            + compact(members.last().1)
    }
}

/// The text of a truth value.
pub open spec fn bool_text(flag: bool) -> Seq<char> {
    if flag {
        "true"@
    } else {
        "false"@
    }
}

/// The text of a value that is no array, object or null.
pub open spec fn scalar_of(value: JsonValue) -> Option<Seq<char>> {
    match value {
        JsonValue::Null | JsonValue::Array(_) | JsonValue::Object(_) => None,
        JsonValue::Bool(flag) => Some(bool_text(flag)),
        JsonValue::Number(number) => Some(number_text(number)),
        JsonValue::String(text) => Some(text@),
    }
}

/// The view of an optional string.
pub open spec fn option_view(text: Option<String>) -> Option<Seq<char>> {
    match text {
        Some(text) => Some(text@),
        None => None,
    }
}

/// Appends the decimal text of a natural number.
pub fn push_decimal(text: &mut String, number: u64)
    ensures
        final(text)@ == old(text)@ + decimal_text(number as nat),
    decreases number,
{
    if number >= 10 {
        push_decimal(text, number / 10);
    }
    let digit: u8 = (number % 10) as u8;
    text.push((48 + digit) as char);
    assert(text@ == old(text)@ + decimal_text(number as nat));
}

/// The decimal text of an integer.
pub fn integer_to_text(number: i64) -> (text: String)
    ensures
        text@ == integer_text(number as int),
{
    let mut text = String::new();
    if number < 0 {
        text.push('-');
        let size: u64 = (-(number as i128)) as u64;
        push_decimal(&mut text, size);
        assert(text@ == integer_text(number as int));
    } else {
        push_decimal(&mut text, number as u64);
        assert(text@ == integer_text(number as int));
    }
    text
}

/// The decimal text of a natural number.
pub fn natural_to_text(number: u64) -> (text: String)
    ensures
        text@ == decimal_text(number as nat),
{
    let mut text = String::new();
    push_decimal(&mut text, number);
    assert(text@ == decimal_text(number as nat));
    text
}

impl JsonNumber {
    /// The text of the number.
    pub fn to_text(&self) -> (text: String)
        ensures
            text@ == number_text(*self),
    {
        match self {
            JsonNumber::Natural(value) => natural_to_text(*value),
            JsonNumber::Integer(value) => integer_to_text(*value),
            JsonNumber::Real { text, .. } => text.clone(),
        }
    }
}

/// The text of a value that is no array, object or null.
pub fn scalar_text(value: &JsonValue) -> (text: Option<String>)
    ensures
        option_view(text) == scalar_of(*value),
{
    match value {
        JsonValue::Null | JsonValue::Array(_) | JsonValue::Object(_) => None,
        JsonValue::Bool(flag) => Some(
            if *flag {
                owned("true")
            } else {
                owned("false")
            },
        ),
        JsonValue::Number(number) => Some(number.to_text()),
        JsonValue::String(text) => Some(text.clone()),
    }
}

/// Appends the compact text of a JSON value.
pub fn push_compact(text: &mut String, value: &JsonValue)
    ensures
        final(text)@ == old(text)@ + compact(*value),
    decreases value,
{
    match value {
        JsonValue::Null => {
            text.append("null");
        },
        JsonValue::Bool(flag) => {
            text.append(
                if *flag {
                    "true"
                } else {
                    "false"
                },
            );
        },
        JsonValue::Number(number) => {
            let number = number.to_text();
            text.append(number.as_str());
        },
        JsonValue::String(value) => {
            let value = quote(value.as_str());
            text.append(value.as_str());
        },
        JsonValue::Array(items) => {
            text.push('[');
            let ghost start = text@;
            let mut index: usize = 0;
            assert(items@.take(0) == Seq::<JsonValue>::empty());
            while index < items.len()
                invariant
                    index <= items.len(),
                    *value == JsonValue::Array(*items),
                    text@ == start + compact_items(items@.take(index as int)),
                decreases items.len() - index,
            {
                let ghost sofar = text@;
                if index > 0 {
                    text.push(',');
                }
                proof {
                    assert(decreases_to!(value => value->Array_0));
                    assert(decreases_to!(*items => items@));
                    assert(decreases_to!(items@ => items@[index as int]));
                    assert(items@.take(index + 1).drop_last() == items@.take(index as int));
                }
                push_compact(text, &items[index]);
                assert(text@ == start + compact_items(items@.take(index + 1)));
                index += 1;
            }
            assert(items@.take(index as int) == items@);
            text.push(']');
            assert(text@ == old(text)@ + compact(*value));
        },
        JsonValue::Object(members) => {
            text.push('{');
            let ghost start = text@;
            let mut index: usize = 0;
            assert(members@.take(0) == Seq::<(String, JsonValue)>::empty());
            while index < members.len()
                invariant
                    index <= members.len(),
                    *value == JsonValue::Object(*members),
                    text@ == start + compact_members(members@.take(index as int)),
                decreases members.len() - index,
            {
                if index > 0 {
                    text.push(',');
                }
                proof {
                    assert(decreases_to!(value => value->Object_0));
                    assert(decreases_to!(*members => members@));
                    assert(decreases_to!(members@ => members@[index as int]));
                    assert(decreases_to!(members@[index as int] => members@[index as int].1));
                    assert(members@.take(index + 1).drop_last() == members@.take(index as int));
                }
                let name = quote(members[index].0.as_str());
                text.append(name.as_str());
                text.push(':');
                push_compact(text, &members[index].1);
                assert(text@ == start + compact_members(members@.take(index + 1)));
                index += 1;
            }
            assert(members@.take(index as int) == members@);
            text.push('}');
            assert(text@ == old(text)@ + compact(*value));
        },
    }
}

/// Whether a text holds no end of a line.
pub open spec fn is_one_line(text: Seq<char>) -> bool {
    forall|i: int| 0 <= i < text.len() ==> #[trigger] text[i] != '\n'
}

/// Whether the text of no number inside a value holds an end of a line.
pub open spec fn numbers_in_line(value: JsonValue) -> bool
    decreases value,
{
    match value {
        JsonValue::Number(JsonNumber::Real { text, .. }) => is_one_line(text@),
        JsonValue::Array(items) => forall|i: int|
            0 <= i < items@.len() ==> numbers_in_line(#[trigger] items@[i]),
        JsonValue::Object(members) => forall|i: int|
            0 <= i < members@.len() ==> numbers_in_line((#[trigger] members@[i]).1),
        _ => true,
    }
}

proof fn lemma_decimal_is_one_line(number: nat)
    ensures
        is_one_line(decimal_text(number)),
    decreases number,
{
    if number >= 10 {
        lemma_decimal_is_one_line(number / 10);
    }
}

/// The text of an integer holds no end of a line.
pub proof fn lemma_integer_is_one_line(number: int)
    ensures
        is_one_line(integer_text(number)),
{
    if number < 0 {
        lemma_decimal_is_one_line((-number) as nat);
    } else {
        lemma_decimal_is_one_line(number as nat);
    }
}

/// A JSON string holds no end of a line, whatever it stands for.
pub proof fn lemma_quoted_is_one_line(text: Seq<char>)
    ensures
        is_one_line(quoted(text)),
        is_one_line(escaped(text)),
    decreases text.len(),
{
    if text.len() > 0 {
        lemma_quoted_is_one_line(text.drop_last());
        assert(is_one_line(escape_of(text.last())));
    }
}

/// The compact text of a value holds no end of a line.
pub proof fn lemma_compact_is_one_line(value: JsonValue)
    requires
        numbers_in_line(value),
    ensures
        is_one_line(compact(value)),
    decreases value,
{
    match value {
        JsonValue::Null => {
            reveal_strlit("null");
        },
        JsonValue::Bool(flag) => {
            reveal_strlit("true");
            reveal_strlit("false");
        },
        JsonValue::Number(number) => {
            match number {
                JsonNumber::Natural(value) => {
                    lemma_decimal_is_one_line(value as nat);
                },
                JsonNumber::Integer(value) => {
                    lemma_integer_is_one_line(value as int);
                },
                JsonNumber::Real { .. } => {},
            }
        },
        JsonValue::String(text) => {
            lemma_quoted_is_one_line(text@);
        },
        JsonValue::Array(items) => {
            lemma_items_are_one_line(items@);
        },
        JsonValue::Object(members) => {
            lemma_members_are_one_line(members@);
        },
    }
}

proof fn lemma_items_are_one_line(items: Seq<JsonValue>)
    requires
        forall|i: int| 0 <= i < items.len() ==> numbers_in_line(#[trigger] items[i]),
    ensures
        is_one_line(compact_items(items)),
    decreases items,
{
    if items.len() == 1 {
        lemma_compact_is_one_line(items[0]);
    } else if items.len() > 1 {
        lemma_items_are_one_line(items.drop_last());
        lemma_compact_is_one_line(items.last());
    }
}

proof fn lemma_members_are_one_line(members: Seq<(String, JsonValue)>)
    requires
        forall|i: int| 0 <= i < members.len() ==> numbers_in_line((#[trigger] members[i]).1),
    ensures
        is_one_line(compact_members(members)),
    decreases members,
{
    if members.len() == 1 {
        lemma_quoted_is_one_line(members[0].0@);
        lemma_compact_is_one_line(members[0].1);
    } else if members.len() > 1 {
        lemma_members_are_one_line(members.drop_last());
        lemma_quoted_is_one_line(members.last().0@);
        lemma_compact_is_one_line(members.last().1);
    }
}

/// The decimal text of a number is made of digits that stand for the number, the first of
/// which is not zero unless it is the only one.
pub proof fn lemma_decimal_text_reads(number: nat)
    ensures
        decimal_text(number).len() > 0,
        all_digits(decimal_text(number)),
        digits_value(decimal_text(number)) == number,
        decimal_text(number).len() > 1 ==> decimal_text(number)[0] != '0',
        number > 0 ==> decimal_text(number)[0] != '0',
    decreases number,
{
    let text = decimal_text(number);
    reveal_with_fuel(digits_value, 2);
    if number < 10 {
        assert(text.drop_last() == Seq::<char>::empty());
        lemma_digit_reads(number);
    } else {
        lemma_decimal_text_reads(number / 10);
        lemma_digit_reads(number % 10);
        let before = decimal_text(number / 10);
        assert(text.drop_last() == before);
        assert forall|i: int| 0 <= i < text.len() implies is_digit(#[trigger] text[i]) by {
            if i < before.len() {
                assert(text[i] == before[i]);
            }
        }
        assert(text[0] == before[0]);
    }
}

/// The character of a digit stands for it.
pub proof fn lemma_digit_reads(digit: nat)
    requires
        digit < 10,
    ensures
        is_digit(digit_char(digit)),
        digit_value(digit_char(digit)) == digit,
        digit_char(digit) == '0' <==> digit == 0,
{
}

/// Whether a character stands for itself inside a JSON string.
pub open spec fn needs_no_escape(character: char) -> bool {
    character != '"' && character != '\\' && character as u32 >= 32
}

/// A text without quotes, backslashes and control characters stands between quotes as it is;
/// of the others, each is written with a backslash.
pub proof fn lemma_plain_texts_are_quoted(text: Seq<char>, character: char)
    requires
        forall|i: int| 0 <= i < text.len() ==> needs_no_escape(#[trigger] text[i]),
    ensures
        quoted(text) == seq!['"'] + text + seq!['"'],
        character == '"' || character == '\\' ==> escaped(text.push(character)) == text + seq![
            '\\',
            character,
        ],
        character == '\n' ==> escaped(text.push(character)) == text + seq!['\\', 'n'],
        character == '\t' ==> escaped(text.push(character)) == text + seq!['\\', 't'],
        character == '\r' ==> escaped(text.push(character)) == text + seq!['\\', 'r'],
{
    lemma_plain_texts_are_written(text);
    assert(text.push(character).drop_last() == text);
}

proof fn lemma_plain_texts_are_written(text: Seq<char>)
    requires
        forall|i: int| 0 <= i < text.len() ==> needs_no_escape(#[trigger] text[i]),
    ensures
        escaped(text) == text,
    decreases text.len(),
{
    if text.len() > 0 {
        let before = text.drop_last();
        assert forall|i: int| 0 <= i < before.len() implies needs_no_escape(
            #[trigger] before[i],
        ) by {
            assert(before[i] == text[i]);
        }
        lemma_plain_texts_are_written(before);
        assert(needs_no_escape(text[text.len() - 1]));
        assert(before + seq![text.last()] == text);
    }
}

/// The compact text of a value: words for what is nothing, true or false, the digits of a
/// number, a text between quotes, and the texts of items with commas between them in brackets.
pub proof fn lemma_compact_texts(number: u64, text: String, items: Vec<JsonValue>)
    ensures
        compact(JsonValue::Null) == "null"@,
        compact(JsonValue::Bool(true)) == "true"@,
        compact(JsonValue::Bool(false)) == "false"@,
        compact(JsonValue::Number(JsonNumber::Natural(number))) == decimal_text(number as nat),
        compact(JsonValue::String(text)) == quoted(text@),
        items@.len() == 0 ==> compact(JsonValue::Array(items)) == seq!['[', ']'],
        items@.len() == 1 ==> compact(JsonValue::Array(items)) == seq!['['] + compact(items@[0])
            + seq![']'],
        items@.len() == 2 ==> compact(JsonValue::Array(items)) == seq!['['] + (compact(items@[0])
            + seq![','] + compact(items@[1])) + seq![']'],
{
    reveal_with_fuel(compact_items, 3);
    if items@.len() == 0 {
        assert(compact(JsonValue::Array(items)) =~= seq!['[', ']']);
    }
    if items@.len() == 2 {
        assert(items@.drop_last().len() == 1);
        assert(items@.drop_last()[0] == items@[0]);
        assert(compact_items(items@.drop_last()) == compact(items@[0]));
        assert(compact_items(items@) == compact(items@[0]) + seq![','] + compact(items@[1]));
    }
}

/// The text of a value that is no list, no object and not nothing is its own: that of a text
/// without quotes.
pub proof fn lemma_scalars_have_texts(text: String, number: JsonNumber)
    ensures
        scalar_of(JsonValue::String(text)) == Some(text@),
        scalar_of(JsonValue::Number(number)) == Some(number_text(number)),
        scalar_of(JsonValue::Bool(true)) == Some("true"@),
        scalar_of(JsonValue::Bool(false)) == Some("false"@),
        scalar_of(JsonValue::Null) is None,
{
}

}
