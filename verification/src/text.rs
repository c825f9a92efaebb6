//! Text as sequences of characters.
//!
//! The view of a `String` or `&str` is the sequence of its characters. This
//! module gives the few text operations that the rest of the library needs,
//! each with a specification over such sequences.
use vstd::prelude::*;

verus! {

/// `String::push` appends the character at the end of the string.
pub assume_specification[ std::string::String::push ](
    text: &mut std::string::String,
    character: char,
)
    ensures
        final(text)@ == old(text)@.push(character),
;

/// The views of a sequence of strings.
pub open spec fn views(strings: Seq<String>) -> Seq<Seq<char>> {
    strings.map_values(|text: String| text@)
}

/// What `char::is_alphanumeric` says of a character.
pub uninterp spec fn unicode_alphanumeric(character: char) -> bool;

/// A decimal digit or a letter of the Latin alphabet without diacritics.
pub open spec fn ascii_alphanumeric(character: char) -> bool {
    ||| '0' <= character <= '9'
    ||| 'a' <= character <= 'z'
    ||| 'A' <= character <= 'Z'
}

/// `char::is_alphanumeric`: whether the character is alphabetic or numeric in
/// Unicode's sense. Among the ASCII characters these are the digits and the
/// letters; which of the others are is left to the name.
#[verifier::external_body]
pub(crate) fn is_alphanumeric(character: char) -> (result: bool)
    ensures
        result == unicode_alphanumeric(character),
        character <= '\x7f' ==> result == ascii_alphanumeric(character),
{
    character.is_alphanumeric()
}

/// The characters with the Unicode property `White_Space`.
pub open spec fn is_space(character: char) -> bool {
    let code = character as u32;
    ||| 0x09 <= code <= 0x0d
    ||| code == 0x20
    ||| code == 0x85
    ||| code == 0xa0
    ||| code == 0x1680
    ||| 0x2000 <= code <= 0x200a
    ||| code == 0x2028
    ||| code == 0x2029
    ||| code == 0x202f
    ||| code == 0x205f
    ||| code == 0x3000
}

/// Whether a character is white space.
pub fn is_whitespace(character: char) -> (result: bool)
    ensures
        result == is_space(character),
{
    let code: u32 = character as u32;
    (0x09 <= code && code <= 0x0d) || code == 0x20 || code == 0x85 || code == 0xa0 || code == 0x1680
        || (0x2000 <= code && code <= 0x200a) || code == 0x2028 || code == 0x2029 || code == 0x202f
        || code == 0x205f || code == 0x3000
}

/// The lower-case form of an upper-case ASCII letter; any other character
/// unchanged.
pub open spec fn lower(character: char) -> char {
    if 'A' <= character <= 'Z' {
        ((character as u32) + 32) as char
    } else {
        character
    }
}

/// Every ASCII letter in lower case.
pub open spec fn lowered(text: Seq<char>) -> Seq<char> {
    text.map_values(|character: char| lower(character))
}

pub fn lower_char(character: char) -> (result: char)
    ensures
        result == lower(character),
{
    if 'A' <= character && character <= 'Z' {
        (character as u8 + 32) as char
    } else {
        character
    }
}

/// The characters of a text.
pub fn chars_of(text: &str) -> (characters: Vec<char>)
    ensures
        characters@ == text@,
{
    let mut characters: Vec<char> = Vec::new();
    for character in iter: text.chars()
        invariant
            characters@ == iter.seq().take(iter.index()),
            iter.seq() == text@,
    {
        characters.push(character);
    }
    characters
}

/// The text made of the characters from `start` up to `end`.
pub fn text_between(characters: &[char], start: usize, end: usize) -> (text: String)
    requires
        start <= end <= characters.len(),
    ensures
        text@ == characters@.subrange(start as int, end as int),
{
    let mut text = String::new();
    let mut index: usize = start;
    while index < end
        invariant
            start <= index <= end <= characters.len(),
            text@ == characters@.subrange(start as int, index as int),
        decreases end - index,
    {
        text.push(characters[index]);
        index += 1;
    }
    text
}

/// A string that holds the same text.
pub fn owned(text: &str) -> (result: String)
    ensures
        result@ == text@,
{
    let mut result = String::new();
    result.append(text);
    result
}

/// Whether two texts are equal.
pub fn same(left: &str, right: &str) -> (result: bool)
    ensures
        result == (left@ == right@),
{
    let first = left.as_bytes();
    let second = right.as_bytes();
    if first.len() != second.len() {
        return false;
    }
    let mut index: usize = 0;
    while index < first.len()
        invariant
            index <= first.len(),
            first.len() == second.len(),
            first@ == vstd::utf8::encode_utf8(left@),
            second@ == vstd::utf8::encode_utf8(right@),
            forall|i: int| 0 <= i < index ==> first@[i] == second@[i],
        decreases first.len() - index,
    {
        if first[index] != second[index] {
            return false;
        }
        index += 1;
    }
    assert(first@ == second@);
    proof {
        vstd::utf8::encode_utf8_decode_utf8(left@);
        vstd::utf8::encode_utf8_decode_utf8(right@);
    }
    true
}

/// A text with every ASCII letter in lower case.
pub fn to_lower(text: &str) -> (result: String)
    ensures
        result@ == lowered(text@),
{
    let characters = chars_of(text);
    let mut result = String::new();
    let mut index: usize = 0;
    while index < characters.len()
        invariant
            index <= characters.len(),
            characters@ == text@,
            result@ == lowered(text@.take(index as int)),
        decreases characters.len() - index,
    {
        result.push(lower_char(characters[index]));
        assert(text@.take(index + 1) == text@.take(index as int).push(text@[index as int]));
        assert(lowered(text@.take(index + 1)) == lowered(text@.take(index as int)).push(
            lower(text@[index as int]),
        ));
        index += 1;
    }
    assert(text@.take(index as int) == text@);
    result
}

/// Whether two texts are equal up to the case of ASCII letters.
pub fn same_ignoring_case(left: &str, right: &str) -> (result: bool)
    ensures
        result == (lowered(left@) == lowered(right@)),
{
    let left = to_lower(left);
    let right = to_lower(right);
    same(left.as_str(), right.as_str())
}

/// A text without the white space at its start.
pub open spec fn trim_start_spec(text: Seq<char>) -> Seq<char>
    decreases text.len(),
{
    if text.len() > 0 && is_space(text[0]) {
        trim_start_spec(text.drop_first())
    } else {
        text
    }
}

/// A text without the white space at its end.
pub open spec fn trim_end_spec(text: Seq<char>) -> Seq<char>
    decreases text.len(),
{
    if text.len() > 0 && is_space(text.last()) {
        trim_end_spec(text.drop_last())
    } else {
        text
    }
}

/// A text without the white space at both ends.
pub open spec fn trimmed(text: Seq<char>) -> Seq<char> {
    trim_end_spec(trim_start_spec(text))
}

/// A text without the white space at its start.
pub fn trim_start(text: &str) -> (result: String)
    ensures
        result@ == trim_start_spec(text@),
{
    let characters = chars_of(text);
    let start = start_of_trimmed(characters.as_slice());
    text_between(characters.as_slice(), start, characters.len())
}

/// Where the text begins once the white space at its start is left out.
fn start_of_trimmed(characters: &[char]) -> (start: usize)
    ensures
        start <= characters.len(),
        characters@.skip(start as int) == trim_start_spec(characters@),
{
    let mut start: usize = 0;
    assert(characters@.skip(0) == characters@);
    while start < characters.len() && is_whitespace(characters[start])
        invariant
            start <= characters.len(),
            trim_start_spec(characters@.skip(start as int)) == trim_start_spec(characters@),
        decreases characters.len() - start,
    {
        assert(characters@.skip(start as int).drop_first() == characters@.skip(start + 1));
        start += 1;
    }
    start
}

/// A text without the white space at its end.
pub fn trim_end(text: &str) -> (result: String)
    ensures
        result@ == trim_end_spec(text@),
{
    let characters = chars_of(text);
    let mut end: usize = characters.len();
    assert(text@.take(end as int) == text@);
    while end > 0 && is_whitespace(characters[end - 1])
        invariant
            end <= characters.len(),
            characters@ == text@,
            trim_end_spec(text@.take(end as int)) == trim_end_spec(text@),
        decreases end,
    {
        assert(text@.take(end as int).drop_last() == text@.take(end - 1));
        end = end - 1;
    }
    assert(text@.subrange(0, end as int) == text@.take(end as int));
    text_between(characters.as_slice(), 0, end)
}

/// A text without the white space at both ends.
pub fn trim(text: &str) -> (result: String)
    ensures
        result@ == trimmed(text@),
{
    let characters = chars_of(text);
    let start = start_of_trimmed(characters.as_slice());
    let mut end: usize = characters.len();
    assert(text@.subrange(start as int, end as int) == text@.skip(start as int));
    while start < end && is_whitespace(characters[end - 1])
        invariant
            start <= end <= characters.len(),
            characters@ == text@,
            trim_end_spec(text@.subrange(start as int, end as int)) == trimmed(text@),
        decreases end - start,
    {
        assert(text@.subrange(start as int, end as int).drop_last() == text@.subrange(
            start as int,
            end - 1,
        ));
        end -= 1;
    }
    text_between(characters.as_slice(), start, end)
}

/// Whether a text is empty once trimmed.
pub fn is_blank(text: &str) -> (result: bool)
    ensures
        result == (trimmed(text@).len() == 0),
{
    let text = trim(text);
    let characters = chars_of(text.as_str());
    characters.len() == 0
}

/// Whether a text begins with a prefix.
pub open spec fn has_prefix(text: Seq<char>, prefix: Seq<char>) -> bool {
    prefix.len() <= text.len() && text.take(prefix.len() as int) == prefix
}

/// Whether a text ends with a suffix.
pub open spec fn has_suffix(text: Seq<char>, suffix: Seq<char>) -> bool {
    suffix.len() <= text.len() && text.skip(text.len() - suffix.len()) == suffix
}

/// Whether a part occurs in a text at a given position.
pub open spec fn occurs_at(text: Seq<char>, part: Seq<char>, position: int) -> bool {
    &&& 0 <= position
    &&& position + part.len() <= text.len()
    &&& text.subrange(position, position + part.len()) == part
}

/// Whether a part occurs somewhere in a text.
pub open spec fn occurs_in(text: Seq<char>, part: Seq<char>) -> bool {
    exists|position: int| occurs_at(text, part, position)
}

/// Whether a part occurs at a position among some characters.
pub fn matches_at(characters: &[char], part: &[char], position: usize) -> (result: bool)
    ensures
        result == occurs_at(characters@, part@, position as int),
{
    if position > characters.len() || part.len() > characters.len() - position {
        return false;
    }
    let mut index: usize = 0;
    while index < part.len()
        invariant
            index <= part.len(),
            position + part.len() <= characters.len(),
            forall|k: int| 0 <= k < index ==> characters@[position + k] == part@[k],
        decreases part.len() - index,
    {
        if characters[position + index] != part[index] {
            assert(characters@.subrange(position as int, position + part.len())[index as int]
                != part@[index as int]);
            return false;
        }
        index += 1;
    }
    assert(characters@.subrange(position as int, position + part.len()) == part@);
    true
}

/// The first position from `from` on at which a part occurs among some
/// characters.
pub fn find_from(characters: &[char], part: &[char], from: usize) -> (found: Option<usize>)
    ensures
        match found {
            Some(position) => {
                &&& from <= position
                &&& occurs_at(characters@, part@, position as int)
                &&& forall|earlier: int|
                    from <= earlier < position ==> !occurs_at(characters@, part@, earlier)
            },
            None => forall|position: int|
                from <= position ==> !occurs_at(characters@, part@, position),
        },
{
    let mut position: usize = from;
    while position <= characters.len() && part.len() <= characters.len() - position
        invariant
            from <= position,
            position <= characters.len() + 1 || position == from,
            forall|earlier: int|
                from <= earlier < position ==> !occurs_at(characters@, part@, earlier),
        decreases characters.len() + 1 - position,
    {
        if matches_at(characters, part, position) {
            return Some(position);
        }
        if position == characters.len() {
            return None;
        }
        position += 1;
    }
    None
}

/// Whether a part occurs somewhere in a text.
pub fn contains(text: &str, part: &str) -> (result: bool)
    ensures
        result == occurs_in(text@, part@),
{
    let characters = chars_of(text);
    let part = chars_of(part);
    match find_from(characters.as_slice(), part.as_slice(), 0) {
        Some(position) => {
            assert(occurs_at(text@, part@, position as int));
            true
        },
        None => false,
    }
}

/// Whether a text ends with another.
pub fn ends_with(text: &str, suffix: &str) -> (result: bool)
    ensures
        result == has_suffix(text@, suffix@),
{
    let characters = chars_of(text);
    let part = chars_of(suffix);
    if part.len() > characters.len() {
        return false;
    }
    let ghost place = text@.len() - suffix@.len();
    assert(text@.skip(place) == text@.subrange(place, text@.len() as int));
    matches_at(characters.as_slice(), part.as_slice(), characters.len() - part.len())
}

/// Whether a text begins with a prefix.
pub fn starts_with(text: &str, prefix: &str) -> (result: bool)
    ensures
        result == has_prefix(text@, prefix@),
{
    let characters = chars_of(text);
    let prefix = chars_of(prefix);
    let result = matches_at(characters.as_slice(), prefix.as_slice(), 0);
    assert(text@.take(prefix@.len() as int) == text@.subrange(0, prefix@.len() as int));
    result
}

/// The text behind a prefix, if it has that prefix.
pub fn strip_prefix(text: &str, prefix: &str) -> (rest: Option<String>)
    ensures
        match rest {
            Some(rest) => has_prefix(text@, prefix@) && rest@ == text@.skip(prefix@.len() as int),
            None => !has_prefix(text@, prefix@),
        },
{
    let characters = chars_of(text);
    let prefix = chars_of(prefix);
    assert(text@.take(prefix@.len() as int) == text@.subrange(0, prefix@.len() as int)
        || prefix@.len() > text@.len());
    if matches_at(characters.as_slice(), prefix.as_slice(), 0) {
        let rest = text_between(characters.as_slice(), prefix.len(), characters.len());
        Some(rest)
    } else {
        None
    }
}

/// The pieces of a text between the characters that separate them.
pub open spec fn split_where(text: Seq<char>, separates: spec_fn(char) -> bool) -> Seq<Seq<char>>
    decreases text.len(),
{
    if text.len() == 0 {
        seq![Seq::<char>::empty()]
    } else {
        let before = split_where(text.drop_last(), separates);
        if separates(text.last()) {
            before.push(Seq::empty())
        } else {
            before.drop_last().push(before.last().push(text.last()))
        }
    }
}

/// A split gives at least one piece.
pub proof fn lemma_split_nonempty(text: Seq<char>, separates: spec_fn(char) -> bool)
    ensures
        split_where(text, separates).len() > 0,
    decreases text.len(),
{
    if text.len() > 0 {
        lemma_split_nonempty(text.drop_last(), separates);
    }
}

/// The test for one character.
pub open spec fn is_char(expected: char) -> spec_fn(char) -> bool {
    |character: char| character == expected
}

/// The pieces of a text between the occurrences of one character.
pub open spec fn split_at_char(text: Seq<char>, separator: char) -> Seq<Seq<char>> {
    split_where(text, is_char(separator))
}

/// The pieces of a text between the occurrences of one character.
pub fn split(text: &str, separator: char) -> (pieces: Vec<String>)
    ensures
        views(pieces@) == split_at_char(text@, separator),
        pieces@.len() > 0,
{
    let characters = chars_of(text);
    let ghost separates = is_char(separator);
    let mut pieces: Vec<String> = Vec::new();
    let mut current = String::new();
    let mut index: usize = 0;
    assert(text@.take(0) == Seq::<char>::empty());
    while index < characters.len()
        invariant
            index <= characters.len(),
            characters@ == text@,
            separates == is_char(separator),
            views(pieces@).push(current@) == split_where(text@.take(index as int), separates),
        decreases characters.len() - index,
    {
        let character = characters[index];
        let ghost before = views(pieces@);
        assert(text@.take(index + 1).drop_last() == text@.take(index as int));
        assert(before.push(current@).drop_last() == before);
        if character == separator {
            pieces.push(current);
            current = String::new();
            assert(views(pieces@) == before.push(views(pieces@).last()));
        } else {
            current.push(character);
        }
        index += 1;
    }
    assert(text@.take(index as int) == text@);
    let ghost before = views(pieces@);
    pieces.push(current);
    assert(views(pieces@) == before.push(current@));
    pieces
}

/// A character that ends a word.
pub open spec fn ends_word(character: char) -> bool {
    !unicode_alphanumeric(character)
}

/// The words of a text: its longest runs of alphanumeric characters.
pub open spec fn words_of(text: Seq<char>) -> Seq<Seq<char>> {
    split_where(text, |character: char| ends_word(character)).filter(
        |word: Seq<char>| word.len() > 0,
    )
}

/// The words of a text: its longest runs of alphanumeric characters.
pub fn words(text: &str) -> (result: Vec<String>)
    ensures
        views(result@) == words_of(text@),
{
    let characters = chars_of(text);
    let ghost separates = |character: char| ends_word(character);
    let ghost nonempty = |word: Seq<char>| word.len() > 0;
    let mut result: Vec<String> = Vec::new();
    let mut current = String::new();
    let mut length: usize = 0;
    let mut index: usize = 0;
    assert(text@.take(0) == Seq::<char>::empty());
    proof {
        reveal_with_fuel(Seq::filter, 2);
    }
    while index < characters.len()
        invariant
            index <= characters.len(),
            characters@ == text@,
            separates == (|character: char| ends_word(character)),
            nonempty == (|word: Seq<char>| word.len() > 0),
            length == current@.len(),
            length <= index,
            split_where(text@.take(index as int), separates).len() > 0,
            current@ == split_where(text@.take(index as int), separates).last(),
            views(result@) == split_where(text@.take(index as int), separates).drop_last().filter(
                nonempty,
            ),
        decreases characters.len() - index,
    {
        let character = characters[index];
        let ghost before = split_where(text@.take(index as int), separates);
        let ghost found = views(result@);
        assert(text@.take(index + 1).drop_last() == text@.take(index as int));
        if is_alphanumeric(character) {
            current.push(character);
            length += 1;
            assert(before.drop_last().push(before.last().push(character)).drop_last()
                == before.drop_last());
        } else {
            assert(before.push(Seq::<char>::empty()).drop_last() == before);
            assert(before == before.drop_last().push(before.last()));
            proof {
                before.drop_last().lemma_filter_push(before.last(), nonempty);
            }
            if length > 0 {
                result.push(current);
                assert(views(result@) == found.push(current@));
            }
            current = String::new();
            length = 0;
        }
        index += 1;
    }
    assert(text@.take(index as int) == text@);
    let ghost pieces = split_where(text@, separates);
    assert(pieces == pieces.drop_last().push(pieces.last()));
    proof {
        pieces.drop_last().lemma_filter_push(pieces.last(), nonempty);
    }
    if length > 0 {
        let ghost found = views(result@);
        result.push(current);
        assert(views(result@) == found.push(current@));
    }
    result
}

/// The first position at which a character passes a test, or the length.
pub open spec fn first_where(text: Seq<char>, test: spec_fn(char) -> bool) -> int
    decreases text.len(),
{
    if text.len() == 0 || test(text[0]) {
        0
    } else {
        1 + first_where(text.drop_first(), test)
    }
}

/// What makes a position the first at which a character passes a test.
pub proof fn lemma_first_where_is(text: Seq<char>, test: spec_fn(char) -> bool, found: int)
    requires
        0 <= found <= text.len(),
        forall|i: int| 0 <= i < found ==> !test(#[trigger] text[i]),
        found < text.len() ==> test(text[found]),
    ensures
        first_where(text, test) == found,
    decreases text.len(),
{
    if found > 0 {
        assert(!test(text[0]));
        assert forall|i: int| 0 <= i < found - 1 implies !test(
            #[trigger] text.drop_first()[i],
        ) by {
            assert(text.drop_first()[i] == text[i + 1]);
        }
        lemma_first_where_is(text.drop_first(), test, found - 1);
    }
}

/// The first position of a character from `from` on, or the length.
pub fn position_of_char(characters: &[char], character: char, from: usize) -> (position: usize)
    requires
        from <= characters.len(),
    ensures
        from <= position <= characters.len(),
        position - from == first_where(characters@.skip(from as int), is_char(character)),
        position < characters.len() ==> characters@[position as int] == character,
        forall|i: int| from <= i < position ==> characters@[i] != character,
{
    let mut position: usize = from;
    while position < characters.len() && characters[position] != character
        invariant
            from <= position <= characters.len(),
            forall|i: int| from <= i < position ==> characters@[i] != character,
        decreases characters.len() - position,
    {
        position += 1;
    }
    proof {
        let rest = characters@.skip(from as int);
        assert forall|i: int| 0 <= i < position - from implies !is_char(character)(
            #[trigger] rest[i],
        ) by {
            assert(rest[i] == characters@[from + i]);
        }
        lemma_first_where_is(rest, is_char(character), (position - from) as int);
    }
    position
}

/// Pieces with a separator between them.
pub open spec fn joined(pieces: Seq<Seq<char>>, separator: Seq<char>) -> Seq<char>
    decreases pieces.len(),
{
    if pieces.len() == 0 {
        Seq::empty()
    } else if pieces.len() == 1 {
        pieces[0]
    } else {
        joined(pieces.drop_last(), separator) + separator + pieces.last()
    }
}

/// Pieces with a separator between them.
pub fn join(pieces: &Vec<String>, separator: &str) -> (text: String)
    ensures
        text@ == joined(views(pieces@), separator@),
{
    let mut text = String::new();
    let mut index: usize = 0;
    assert(views(pieces@).take(0) == Seq::<Seq<char>>::empty());
    while index < pieces.len()
        invariant
            index <= pieces.len(),
            text@ == joined(views(pieces@).take(index as int), separator@),
        decreases pieces.len() - index,
    {
        if index > 0 {
            text.append(separator);
        }
        text.append(pieces[index].as_str());
        assert(views(pieces@).take(index + 1).drop_last() == views(pieces@).take(index as int));
        assert(text@ == joined(views(pieces@).take(index + 1), separator@));
        index += 1;
    }
    assert(views(pieces@).take(index as int) == views(pieces@));
    text
}

/// What `char::to_uppercase` makes of a character.
pub uninterp spec fn unicode_uppercase(character: char) -> Seq<char>;

/// The upper-case form of a lower-case ASCII letter; any other character
/// unchanged.
pub open spec fn upper(character: char) -> char {
    if 'a' <= character <= 'z' {
        ((character as u32) - 32) as char
    } else {
        character
    }
}

/// `char::to_uppercase`: the upper-case form of a character, which may be more
/// than one character long. Of an ASCII character it is the upper-case letter or
/// the character itself; of the others it is left to the name.
#[verifier::external_body]
pub(crate) fn to_uppercase(character: char) -> (result: String)
    ensures
        result@ == unicode_uppercase(character),
        character <= '\x7f' ==> result@ == seq![upper(character)],
{
    character.to_uppercase().collect()
}

/// The number of bytes of a text in UTF-8.
pub open spec fn byte_length(text: Seq<char>) -> nat {
    vstd::utf8::encode_utf8(text).len()
}

/// The number of bytes of a character in UTF-8.
pub open spec fn byte_width(character: char) -> nat {
    let code = character as u32;
    if code < 0x80 {
        1
    } else if code < 0x800 {
        2
    } else if code < 0x10000 {
        3
    } else {
        4
    }
}

/// A text's bytes are those of its parts.
pub proof fn lemma_encoding_concat(first: Seq<char>, second: Seq<char>)
    ensures
        vstd::utf8::encode_utf8(first + second) == vstd::utf8::encode_utf8(first)
            + vstd::utf8::encode_utf8(second),
    decreases first.len(),
{
    if first.len() == 0 {
        assert(first + second == second);
    } else {
        lemma_encoding_concat(first.drop_first(), second);
        assert((first + second).drop_first() == first.drop_first() + second);
        assert((first + second)[0] == first[0]);
    }
}

/// A character adds its width to the bytes of a text.
pub proof fn lemma_byte_length_push(text: Seq<char>, character: char)
    ensures
        byte_length(text.push(character)) == byte_length(text) + byte_width(character),
{
    let one = seq![character];
    lemma_encoding_concat(text, one);
    assert(text + one == text.push(character));
    assert(one.drop_first().len() == 0);
    vstd::utf8::char_is_scalar(character);
    reveal_with_fuel(vstd::utf8::encode_utf8, 2);
}

/// A part of a text has no more bytes than the text.
pub proof fn lemma_byte_length_take(text: Seq<char>, count: int)
    requires
        0 <= count <= text.len(),
    ensures
        byte_length(text.take(count)) <= byte_length(text),
{
    lemma_encoding_concat(text.take(count), text.skip(count));
    assert(text.take(count) + text.skip(count) == text);
}

/// The number of bytes of a character in UTF-8.
pub fn width_of(character: char) -> (width: usize)
    ensures
        width == byte_width(character),
{
    let code: u32 = character as u32;
    if code < 0x80 {
        1
    } else if code < 0x800 {
        2
    } else if code < 0x10000 {
        3
    } else {
        4
    }
}

/// The number of bytes of a text in UTF-8.
pub fn byte_count(text: &str) -> (count: usize)
    ensures
        count == byte_length(text@),
{
    text.as_bytes().len()
}

/// The first position from `from` on at which a part occurs.
pub open spec fn first_occurrence(text: Seq<char>, part: Seq<char>, from: int) -> Option<int>
    decreases text.len() + 1 - from,
{
    if from < 0 || from + part.len() > text.len() {
        None
    } else if occurs_at(text, part, from) {
        Some(from)
    } else {
        first_occurrence(text, part, from + 1)
    }
}

/// What makes a position the first at which a part occurs.
pub proof fn lemma_first_occurrence(
    text: Seq<char>,
    part: Seq<char>,
    from: int,
    found: Option<int>,
)
    requires
        0 <= from,
        match found {
            Some(position) => {
                &&& from <= position
                &&& occurs_at(text, part, position)
                &&& forall|earlier: int|
                    from <= earlier < position ==> !occurs_at(text, part, earlier)
            },
            None => forall|position: int| from <= position ==> !occurs_at(text, part, position),
        },
    ensures
        first_occurrence(text, part, from) == found,
    decreases text.len() + 1 - from,
{
    if from + part.len() <= text.len() && !occurs_at(text, part, from) {
        lemma_first_occurrence(text, part, from + 1, found);
    }
}

/// A text with every occurrence of a part, from the start on, put in place of by
/// another text.
pub open spec fn replaced(text: Seq<char>, part: Seq<char>, other: Seq<char>) -> Seq<char>
    decreases text.len(),
{
    if part.len() == 0 || text.len() < part.len() {
        text
    } else if text.take(part.len() as int) == part {
        other + replaced(text.skip(part.len() as int), part, other)
    } else {
        seq![text[0]] + replaced(text.drop_first(), part, other)
    }
}

/// A text with every occurrence of a part replaced.
pub fn replace(text: &str, part: &str, other: &str) -> (result: String)
    requires
        part@.len() > 0,
    ensures
        result@ == replaced(text@, part@, other@),
{
    let characters = chars_of(text);
    let pattern = chars_of(part);
    let mut result = String::new();
    let mut index: usize = 0;
    assert(text@.skip(0) == text@);
    while index < characters.len() && pattern.len() <= characters.len() - index
        invariant
            index <= characters.len(),
            characters@ == text@,
            pattern@ == part@,
            part@.len() > 0,
            result@ + replaced(text@.skip(index as int), part@, other@) == replaced(
                text@,
                part@,
                other@,
            ),
        decreases characters.len() - index,
    {
        let ghost rest = text@.skip(index as int);
        let ghost sofar = result@;
        assert(rest.take(part@.len() as int) == text@.subrange(
            index as int,
            index + part@.len(),
        ));
        if matches_at(characters.as_slice(), pattern.as_slice(), index) {
            result.append(other);
            assert(rest.skip(part@.len() as int) == text@.skip(index + part@.len()));
            assert(sofar + (other@ + replaced(text@.skip(index + part@.len()), part@, other@))
                == sofar + other@ + replaced(text@.skip(index + part@.len()), part@, other@));
            index += pattern.len();
        } else {
            result.push(characters[index]);
            assert(rest.drop_first() == text@.skip(index + 1));
            assert(sofar + (seq![rest[0]] + replaced(text@.skip(index + 1), part@, other@))
                == sofar.push(rest[0]) + replaced(text@.skip(index + 1), part@, other@));
            index += 1;
        }
    }
    let tail = text_between(characters.as_slice(), index, characters.len());
    assert(tail@ == text@.skip(index as int));
    result.append(tail.as_str());
    result
}

/// A text that is empty once trimmed consists of white space.
pub proof fn lemma_blank_is_space(text: Seq<char>)
    requires
        trimmed(text).len() == 0,
    ensures
        forall|i: int| 0 <= i < text.len() ==> is_space(#[trigger] text[i]),
    decreases text.len(),
{
    if text.len() > 0 {
        if is_space(text[0]) {
            let rest = text.drop_first();
            lemma_blank_is_space(rest);
            assert forall|i: int| 0 <= i < text.len() implies is_space(#[trigger] text[i]) by {
                if i > 0 {
                    assert(rest[i - 1] == text[i]);
                }
            }
        } else {
            lemma_trim_end_keeps_start(text);
        }
    }
}

/// Trimming the end leaves a first character that is no white space.
proof fn lemma_trim_end_keeps_start(text: Seq<char>)
    requires
        text.len() > 0,
        !is_space(text[0]),
    ensures
        trim_end_spec(text).len() > 0,
    decreases text.len(),
{
    if is_space(text.last()) {
        assert(text.len() > 1);
        lemma_trim_end_keeps_start(text.drop_last());
    }
}

/// What `char::to_lowercase` makes of a character.
pub uninterp spec fn unicode_lowercase(character: char) -> Seq<char>;

/// `char::to_lowercase`: the lower-case form of a character, which may be more
/// than one character long. Of an ASCII character it is the lower-case letter or
/// the character itself; of the others it is left to the name.
#[verifier::external_body]
pub(crate) fn to_lowercase(character: char) -> (result: String)
    ensures
        result@ == unicode_lowercase(character),
        character <= '\x7f' ==> result@ == seq![lower(character)],
{
    character.to_lowercase().collect()
}

/// The lower-case form of a character, which is that of a letter for an ASCII character.
pub open spec fn lowercase_of(character: char) -> Seq<char> {
    if character <= '\x7f' {
        seq![lower(character)]
    } else {
        unicode_lowercase(character)
    }
}

/// A text with every character in lower case.
pub open spec fn lowercased(text: Seq<char>) -> Seq<char>
    decreases text.len(),
{
    if text.len() == 0 {
        Seq::empty()
    } else {
        lowercased(text.drop_last()) + unicode_lowercase(text.last())
    }
}

/// A text with every character in lower case.
pub fn lowercase(text: &str) -> (result: String)
    ensures
        result@ == lowercased(text@),
{
    let characters = chars_of(text);
    let mut result = String::new();
    let mut index: usize = 0;
    assert(text@.take(0) == Seq::<char>::empty());
    while index < characters.len()
        invariant
            index <= characters.len(),
            characters@ == text@,
            result@ == lowercased(text@.take(index as int)),
        decreases characters.len() - index,
    {
        assert(text@.take(index + 1).drop_last() == text@.take(index as int));
        let lower = to_lowercase(characters[index]);
        result.append(lower.as_str());
        index += 1;
    }
    assert(text@.take(index as int) == text@);
    result
}

/// A text with one character put in place of another.
pub open spec fn with_char(text: Seq<char>, from: char, to: char) -> Seq<char> {
    text.map_values(
        |character: char|
            if character == from {
                to
            } else {
                character
            },
    )
}

/// A text with one character put in place of another.
pub fn replace_char(text: &str, from: char, to: char) -> (result: String)
    ensures
        result@ == with_char(text@, from, to),
{
    let characters = chars_of(text);
    let mut result = String::new();
    let mut index: usize = 0;
    while index < characters.len()
        invariant
            index <= characters.len(),
            characters@ == text@,
            result@ == with_char(text@, from, to).take(index as int),
        decreases characters.len() - index,
    {
        if characters[index] == from {
            result.push(to);
        } else {
            result.push(characters[index]);
        }
        index += 1;
    }
    assert(with_char(text@, from, to).take(index as int) == with_char(text@, from, to));
    result
}

/// What stands before and behind the first occurrence of a part.
pub open spec fn split_once_spec(text: Seq<char>, part: Seq<char>) -> Option<
    (Seq<char>, Seq<char>),
> {
    match first_occurrence(text, part, 0) {
        Some(position) => Some((text.take(position), text.skip(position + part.len()))),
        None => None,
    }
}

/// What stands before and behind the first occurrence of a part.
pub fn split_once(text: &str, part: &str) -> (result: Option<(String, String)>)
    ensures
        match result {
            Some((before, behind)) => split_once_spec(text@, part@) == Some((before@, behind@)),
            None => split_once_spec(text@, part@) is None,
        },
{
    let characters = chars_of(text);
    let pattern = chars_of(part);
    let found = find_from(characters.as_slice(), pattern.as_slice(), 0);
    proof {
        let position = match found {
            Some(position) => Some(position as int),
            None => None,
        };
        lemma_first_occurrence(text@, part@, 0, position);
    }
    match found {
        Some(position) => {
            assert(occurs_at(characters@, pattern@, position as int));
            assert(position + pattern.len() <= characters.len());
            let before = text_between(characters.as_slice(), 0, position);
            let behind = text_between(
                characters.as_slice(),
                position + pattern.len(),
                characters.len(),
            );
            assert(before@ == text@.take(position as int));
            assert(behind@ == text@.skip(position + part@.len()));
            Some((before, behind))
        },
        None => None,
    }
}

/// A text without the repetitions of a suffix at its end.
pub open spec fn without_suffix(text: Seq<char>, suffix: Seq<char>) -> Seq<char>
    decreases text.len(),
{
    if suffix.len() > 0 && has_suffix(text, suffix) {
        without_suffix(text.take(text.len() - suffix.len()), suffix)
    } else {
        text
    }
}

/// A text without the repetitions of a suffix at its end.
pub fn trim_end_matches(text: &str, suffix: &str) -> (result: String)
    requires
        suffix@.len() > 0,
    ensures
        result@ == without_suffix(text@, suffix@),
{
    let characters = chars_of(text);
    let pattern = chars_of(suffix);
    let mut end: usize = characters.len();
    assert(text@.take(end as int) == text@);
    loop
        invariant
            end <= characters.len(),
            characters@ == text@,
            pattern@ == suffix@,
            suffix@.len() > 0,
            without_suffix(text@.take(end as int), suffix@) == without_suffix(text@, suffix@),
        ensures
            without_suffix(text@, suffix@) == text@.take(end as int),
        decreases end,
    {
        if pattern.len() > end {
            break;
        }
        let start: usize = end - pattern.len();
        let found = matches_at(characters.as_slice(), pattern.as_slice(), start);
        assert(text@.take(end as int).skip(start as int) == text@.subrange(
            start as int,
            start + pattern@.len(),
        ));
        if !found {
            break;
        }
        assert(text@.take(end as int).take(start as int) == text@.take(start as int));
        end = start;
    }
    let result = text_between(characters.as_slice(), 0, end);
    assert(result@ == text@.take(end as int));
    result
}

/// A text without white space at its ends has none to lose.
pub proof fn lemma_trimmed_twice(text: Seq<char>)
    ensures
        trimmed(trimmed(text)) == trimmed(text),
{
    let start = trim_start_spec(text);
    lemma_trim_start_keeps(text);
    lemma_trim_end_keeps(start);
    let both = trim_end_spec(start);
    if both.len() > 0 {
        assert(both[0] == start[0]);
    }
}

/// White space at the start of two texts in a row is that of the first one, and of the
/// second where the first has nothing else.
pub proof fn lemma_trim_start_add(first: Seq<char>, second: Seq<char>)
    ensures
        trim_start_spec(first + second) == if trim_start_spec(first).len() == 0 {
            trim_start_spec(second)
        } else {
            trim_start_spec(first) + second
        },
    decreases first.len(),
{
    let both = first + second;
    if first.len() == 0 {
        assert(both == second);
    } else {
        assert(both[0] == first[0]);
        assert(both.drop_first() == first.drop_first() + second);
        if is_space(first[0]) {
            lemma_trim_start_add(first.drop_first(), second);
        }
    }
}

/// White space at the end of two texts in a row is that of the second one, and of the
/// first where the second has nothing else.
pub proof fn lemma_trim_end_add(first: Seq<char>, second: Seq<char>)
    ensures
        trim_end_spec(first + second) == if trim_end_spec(second).len() == 0 {
            trim_end_spec(first)
        } else {
            first + trim_end_spec(second)
        },
    decreases second.len(),
{
    let both = first + second;
    if second.len() == 0 {
        assert(both == first);
    } else {
        assert(both.last() == second.last());
        assert(both.drop_last() == first + second.drop_last());
        if is_space(second.last()) {
            lemma_trim_end_add(first, second.drop_last());
        }
    }
}

/// What is left starts with no white space.
pub proof fn lemma_trim_start_keeps(text: Seq<char>)
    ensures
        trim_start_spec(text).len() > 0 ==> !is_space(trim_start_spec(text)[0]),
    decreases text.len(),
{
    if text.len() > 0 && is_space(text[0]) {
        lemma_trim_start_keeps(text.drop_first());
    }
}

/// What is left is the start of the text, and ends with no white space.
pub proof fn lemma_trim_end_keeps(text: Seq<char>)
    ensures
        trim_end_spec(text).len() <= text.len(),
        trim_end_spec(text) == text.take(trim_end_spec(text).len() as int),
        trim_end_spec(text).len() > 0 ==> !is_space(trim_end_spec(text).last()),
    decreases text.len(),
{
    if text.len() > 0 && is_space(text.last()) {
        lemma_trim_end_keeps(text.drop_last());
        let rest = trim_end_spec(text.drop_last());
        assert(rest == text.take(rest.len() as int));
    } else {
        assert(text.take(text.len() as int) == text);
    }
}

/// An empty text has no words.
pub proof fn lemma_no_words()
    ensures
        words_of(Seq::<char>::empty()).len() == 0,
{
    reveal_with_fuel(Seq::filter, 3);
    let separates = |character: char| ends_word(character);
    let pieces = split_where(Seq::<char>::empty(), separates);
    assert(pieces == seq![Seq::<char>::empty()]);
    assert(pieces.drop_last() == Seq::<Seq<char>>::empty());
}

/// The pieces of two texts with a separator between them are those of the one and those of
/// the other.
pub proof fn lemma_split_at_separator(
    first: Seq<char>,
    separator: char,
    second: Seq<char>,
    separates: spec_fn(char) -> bool,
)
    requires
        separates(separator),
    ensures
        split_where(first + seq![separator] + second, separates) == split_where(first, separates)
            + split_where(second, separates),
    decreases second.len(),
{
    let text = first + seq![separator] + second;
    let start = split_where(first, separates);
    if second.len() == 0 {
        assert(text == first.push(separator));
        assert(text.drop_last() == first);
        assert(split_where(second, separates) == seq![Seq::<char>::empty()]);
        assert(start.push(Seq::empty()) == start + seq![Seq::<char>::empty()]);
    } else {
        let shorter = second.drop_last();
        assert(text.drop_last() == first + seq![separator] + shorter);
        assert(text.last() == second.last());
        lemma_split_at_separator(first, separator, shorter, separates);
        lemma_split_nonempty(shorter, separates);
        let rest = split_where(shorter, separates);
        let before = start + rest;
        assert(before.last() == rest.last());
        assert(before.drop_last() == start + rest.drop_last());
        if separates(second.last()) {
            assert(before.push(Seq::empty()) == start + rest.push(Seq::empty()));
        } else {
            let piece = rest.last().push(second.last());
            assert(before.drop_last().push(piece) == start + rest.drop_last().push(piece));
        }
    }
}

/// A text without separators is one piece.
pub proof fn lemma_one_piece(text: Seq<char>, separates: spec_fn(char) -> bool)
    requires
        forall|i: int| 0 <= i < text.len() ==> !separates(#[trigger] text[i]),
    ensures
        split_where(text, separates) == seq![text],
    decreases text.len(),
{
    if text.len() > 0 {
        let shorter = text.drop_last();
        assert forall|i: int| 0 <= i < shorter.len() implies !separates(#[trigger] shorter[i]) by {
            assert(shorter[i] == text[i]);
        }
        lemma_one_piece(shorter, separates);
        assert(shorter.push(text.last()) == text);
        assert(!separates(text[text.len() - 1]));
        assert(seq![shorter].drop_last().push(text) == seq![text]);
    } else {
        assert(text == Seq::<char>::empty());
    }
}

/// Splitting gives back the pieces that were joined, where none of them holds the separator.
pub proof fn lemma_split_undoes_join(pieces: Seq<Seq<char>>, separator: char)
    requires
        pieces.len() > 0,
        forall|i: int| 0 <= i < pieces.len() ==> !(#[trigger] pieces[i]).contains(separator),
    ensures
        split_at_char(joined(pieces, seq![separator]), separator) == pieces,
    decreases pieces.len(),
{
    let separates = is_char(separator);
    let last = pieces[pieces.len() - 1];
    assert forall|i: int| 0 <= i < last.len() implies !separates(#[trigger] last[i]) by {
        assert(last.contains(last[i]));
    }
    lemma_one_piece(last, separates);
    if pieces.len() == 1 {
        assert(pieces == seq![last]);
    } else {
        let before = pieces.drop_last();
        assert forall|i: int| 0 <= i < before.len() implies !(#[trigger] before[i]).contains(
            separator,
        ) by {
            assert(before[i] == pieces[i]);
        }
        lemma_split_undoes_join(before, separator);
        lemma_split_at_separator(joined(before, seq![separator]), separator, last, separates);
        assert(before + seq![last] == pieces);
    }
}

/// The first piece of a text begins with what stands before any separator.
pub proof fn lemma_first_piece_begins(
    start: Seq<char>,
    rest: Seq<char>,
    separates: spec_fn(char) -> bool,
)
    requires
        forall|i: int| 0 <= i < start.len() ==> !separates(#[trigger] start[i]),
    ensures
        split_where(rest, separates).len() > 0,
        split_where(start + rest, separates) == seq![start + split_where(rest, separates)[0]]
            + split_where(rest, separates).drop_first(),
    decreases rest.len(),
{
    let text = start + rest;
    lemma_split_nonempty(rest, separates);
    if rest.len() == 0 {
        assert(text == start);
        lemma_one_piece(start, separates);
        let pieces = split_where(rest, separates);
        assert(pieces == seq![Seq::<char>::empty()]);
        assert(start + pieces[0] == start);
        assert(seq![start] + pieces.drop_first() == seq![start]);
    } else {
        let shorter = rest.drop_last();
        assert(text.drop_last() == start + shorter);
        assert(text.last() == rest.last());
        lemma_first_piece_begins(start, shorter, separates);
        let pieces = split_where(shorter, separates);
        let before = seq![start + pieces[0]] + pieces.drop_first();
        if separates(rest.last()) {
            let longer = pieces.push(Seq::empty());
            assert(before.push(Seq::empty()) == seq![start + longer[0]] + longer.drop_first());
        } else {
            let longer = pieces.drop_last().push(pieces.last().push(rest.last()));
            if pieces.len() == 1 {
                assert(before.last() == start + pieces[0]);
                assert((start + pieces[0]).push(rest.last()) == start + longer[0]);
            } else {
                assert(before.last() == pieces.last());
            }
            assert(before.drop_last().push(before.last().push(rest.last())) == seq![start
                + longer[0]] + longer.drop_first());
        }
    }
}

/// Whether a text is one word: letters and digits, and at least one of them.
pub open spec fn is_word(text: Seq<char>) -> bool {
    &&& text.len() > 0
    &&& forall|i: int| 0 <= i < text.len() ==> !ends_word(#[trigger] text[i])
}

/// The words of a text do not change where a text of other characters is put between two of
/// its parts: they are those of the first part and those of the second.
pub proof fn lemma_words_of_parts(first: Seq<char>, separator: char, second: Seq<char>)
    requires
        ends_word(separator),
    ensures
        words_of(first + seq![separator] + second) == words_of(first) + words_of(second),
{
    let separates = |character: char| ends_word(character);
    let nonempty = |word: Seq<char>| word.len() > 0;
    lemma_split_at_separator(first, separator, second, separates);
    Seq::filter_distributes_over_add(
        split_where(first, separates),
        split_where(second, separates),
        nonempty,
    );
}

/// A single word is the only word of its text.
pub proof fn lemma_word_of_itself(word: Seq<char>)
    requires
        is_word(word),
    ensures
        words_of(word) == seq![word],
{
    let separates = |character: char| ends_word(character);
    let nonempty = |word: Seq<char>| word.len() > 0;
    lemma_one_piece(word, separates);
    reveal_with_fuel(Seq::filter, 2);
    assert(seq![word].drop_last() == Seq::<Seq<char>>::empty());
    assert(seq![word].filter(nonempty) == seq![word]);
}

/// Words with a space between them are the words of the text that they make.
pub proof fn lemma_words_of_join(words: Seq<Seq<char>>)
    requires
        ends_word(' '),
        forall|i: int| 0 <= i < words.len() ==> is_word(#[trigger] words[i]),
    ensures
        words_of(joined(words, " "@)) == words,
    decreases words.len(),
{
    reveal_strlit(" ");
    assert(" "@ == seq![' ']);
    if words.len() == 0 {
        lemma_no_words();
    } else {
        let last = words[words.len() - 1];
        assert(is_word(last));
        lemma_word_of_itself(last);
        if words.len() == 1 {
            assert(words == seq![last]);
        } else {
            let before = words.drop_last();
            assert forall|i: int| 0 <= i < before.len() implies is_word(#[trigger] before[i]) by {
                assert(is_word(words[i]));
            }
            lemma_words_of_join(before);
            lemma_words_of_parts(joined(before, " "@), ' ', last);
            assert(before + seq![last] == words);
        }
    }
}

/// Letters of the Latin alphabet without diacritics have a lower case, and no other
/// characters are changed by it.
pub proof fn lemma_lower_case(character: char)
    ensures
        'A' <= character <= 'Z' ==> lower(character) as u32 == character as u32 + 32,
        !('A' <= character <= 'Z') ==> lower(character) == character,
        lower(lower(character)) == lower(character),
        'a' <= character <= 'z' ==> upper(character) as u32 == character as u32 - 32 && lower(
            upper(character),
        ) == character,
        !('a' <= character <= 'z') ==> upper(character) == character,
{
}

/// The white space that is known: the space, the tabs and ends of lines, the spaces that do
/// not break, those of other widths, and the separators of lines and paragraphs.
pub proof fn lemma_white_space(character: char)
    ensures
        is_space(character) <==> {
            let code = character as u32;
            ||| character == ' ' || character == '\t' || character == '\n' || character == '\r'
            ||| code == 0x0b || code == 0x0c || code == 0x85 || code == 0xa0 || code == 0x1680
            ||| 0x2000 <= code <= 0x200a
            ||| code == 0x2028 || code == 0x2029 || code == 0x202f || code == 0x205f || code
                == 0x3000
        },
{
}

/// What is put in the place of a part stands where the part stood, and the rest stays.
pub proof fn lemma_parts_are_replaced(part: Seq<char>, other: Seq<char>, rest: Seq<char>)
    requires
        part.len() > 0,
    ensures
        replaced(part + rest, part, other) == other + replaced(rest, part, other),
        rest.len() < part.len() ==> replaced(rest, part, other) == rest,
        rest.len() > 0 && !occurs_at(rest, part, 0) ==> replaced(rest, part, other) == seq![rest[0]]
            + replaced(rest.drop_first(), part, other) || rest.len() < part.len(),
{
    let text = part + rest;
    assert(text.take(part.len() as int) == part);
    assert(text.skip(part.len() as int) == rest);
    if rest.len() >= part.len() {
        assert(rest.take(part.len() as int) == rest.subrange(0, part.len() as int));
    }
}

proof fn lemma_occurrence_is_first(text: Seq<char>, part: Seq<char>, from: int)
    requires
        0 <= from,
    ensures
        match first_occurrence(text, part, from) {
            Some(position) => {
                &&& from <= position
                &&& occurs_at(text, part, position)
                &&& forall|earlier: int|
                    from <= earlier < position ==> !occurs_at(text, part, earlier)
            },
            None => forall|position: int| from <= position ==> !occurs_at(text, part, position),
        },
    decreases text.len() + 1 - from,
{
    if from + part.len() <= text.len() && !occurs_at(text, part, from) {
        lemma_occurrence_is_first(text, part, from + 1);
    }
}

/// A text that is split where a part first occurs is made of what stands before it, the part,
/// and what stands behind it; the part begins nowhere earlier. It is split wherever the part
/// occurs.
pub proof fn lemma_split_once(text: Seq<char>, part: Seq<char>)
    ensures
        split_once_spec(text, part) is Some <==> occurs_in(text, part),
        match split_once_spec(text, part) {
            Some((before, behind)) => {
                &&& text == before + part + behind
                &&& forall|i: int| 0 <= i < before.len() ==> !occurs_at(text, part, i)
            },
            None => true,
        },
{
    lemma_occurrence_is_first(text, part, 0);
    if let Some(position) = first_occurrence(text, part, 0) {
        assert(text.subrange(position, position + part.len()) == part);
        assert(text == text.take(position) + part + text.skip(position + part.len()));
    }
}

/// A suffix is left out as often as it stands at the end, and nothing else is.
pub proof fn lemma_suffix_is_left_out(text: Seq<char>, suffix: Seq<char>)
    requires
        suffix.len() > 0,
    ensures
        without_suffix(text + suffix, suffix) == without_suffix(text, suffix),
        !has_suffix(text, suffix) ==> without_suffix(text, suffix) == text,
{
    assert((text + suffix).take(text.len() as int) == text);
    assert(has_suffix(text + suffix, suffix)) by {
        let whole = text + suffix;
        assert(whole.skip(whole.len() - suffix.len()) == suffix);
        assert(whole.subrange(whole.len() - suffix.len(), whole.len() as int) == suffix);
    }
}

/// A character is put in the place of another wherever that stands; the rest stays.
pub proof fn lemma_characters_are_replaced(text: Seq<char>, from: char, to: char, place: int)
    requires
        0 <= place < text.len(),
    ensures
        with_char(text, from, to).len() == text.len(),
        text[place] == from ==> with_char(text, from, to)[place] == to,
        text[place] != from ==> with_char(text, from, to)[place] == text[place],
        from != to ==> !with_char(text, from, to).contains(from),
{
}

}
