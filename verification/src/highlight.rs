//! Phrases in messages that tell how something went.
use vstd::prelude::*;

use crate::text::{
    chars_of, is_alphanumeric, is_char, lemma_one_piece, lemma_split_at_separator, lowered,
    same_ignoring_case, split, split_at_char, text_between, unicode_alphanumeric, views,
};

verus! {

/// What a phrase tells.
#[derive(Clone, Copy, PartialEq, Eq, Structural, Debug)]
pub enum MessageTone {
    Positive,
    Negative,
    Warning,
    Activity,
}

/// Phrases that tell of something that went wrong. The longer ones come first.
pub const NEGATIVE_PHRASES: [&'static str; 60] = [
    "not found",
    "not configured",
    "not initialized",
    "not connected",
    "not ready",
    "not authorized",
    "not supported",
    "not implemented",
    "no results",
    "no response",
    "no data",
    "no connection",
    "no match",
    "not available",
    "access denied",
    "permission denied",
    "connection refused",
    "connection failed",
    "network error",
    "request failed",
    "operation failed",
    "validation failed",
    "authentication failed",
    "authentication required",
    "service unavailable",
    "out of memory",
    "out of space",
    "timed out",
    "could not",
    "unable to",
    "failed",
    "failure",
    "error",
    "fatal",
    "exception",
    "panic",
    "crashed",
    "aborted",
    "cancelled",
    "canceled",
    "denied",
    "forbidden",
    "unauthorized",
    "rejected",
    "invalid",
    "missing",
    "unavailable",
    "disconnected",
    "offline",
    "corrupted",
    "mismatch",
    "blocked",
    "exceeded",
    "expired",
    "timeout",
    "unsupported",
    "unreachable",
    "overloaded",
    "malformed",
    "duplicate",
];

/// Phrases that ask for attention.
pub const WARNING_PHRASES: [&'static str; 20] = [
    "warning",
    "warn",
    "retrying",
    "retry",
    "delayed",
    "pending",
    "partial",
    "skipped",
    "deprecated",
    "rate limited",
    "throttled",
    "in progress",
    "waiting",
    "paused",
    "degraded",
    "limited",
    "fallback",
    "ignored",
    "unchanged",
    "slow",
];

/// Phrases that tell of something that went well.
pub const POSITIVE_PHRASES: [&'static str; 38] = [
    "successfully",
    "successful",
    "succeeded",
    "completed",
    "complete",
    "connected",
    "available",
    "validated",
    "verified",
    "detected",
    "resolved",
    "recovered",
    "accepted",
    "authorized",
    "enabled",
    "ready",
    "healthy",
    "initialized",
    "configured",
    "registered",
    "synchronized",
    "synced",
    "imported",
    "exported",
    "uploaded",
    "downloaded",
    "installed",
    "cleared",
    "removed",
    "released",
    "found",
    "success",
    "passed",
    "done",
    "created",
    "saved",
    "loaded",
    "started",
];

/// Phrases that tell of something under way.
pub const ACTIVITY_PHRASES: [&'static str; 22] = [
    "triggered",
    "trigger",
    "attempting",
    "initiated",
    "scheduled",
    "dispatching",
    "dispatched",
    "enqueued",
    "processing",
    "running",
    "queued",
    "received",
    "sending",
    "fetching",
    "searching",
    "scanning",
    "updating",
    "reloading",
    "listening",
    "watching",
    "discovering",
    "connecting",
];

/// Whether a character separates the words of a phrase.
pub open spec fn separates_words(character: char) -> bool {
    ||| character == ' '
    ||| character == '_'
    ||| character == '-'
    ||| character == '/'
    ||| character == '.'
}

/// Where the separators that start at a place end.
pub open spec fn separators_end(message: Seq<char>, start: int) -> int
    decreases message.len() - start,
{
    if 0 <= start < message.len() && separates_words(message[start]) {
        separators_end(message, start + 1)
    } else {
        start
    }
}

/// Whether a word stands at a place, in any case.
pub open spec fn word_at(message: Seq<char>, start: int, word: Seq<char>) -> bool {
    start + word.len() <= message.len() && lowered(
        message.subrange(start, start + word.len()),
    ) == lowered(word)
}

/// Where the words of a phrase that stand at a place, with separators between
/// them, end.
pub open spec fn words_end(message: Seq<char>, start: int, words: Seq<Seq<char>>) -> Option<int>
    decreases words.len(),
{
    if words.len() == 0 {
        Some(start)
    } else if !word_at(message, start, words[0]) {
        None
    } else {
        let end = start + words[0].len();
        if words.len() == 1 {
            Some(end)
        } else if separators_end(message, end) == end {
            None
        } else {
            words_end(message, separators_end(message, end), words.drop_first())
        }
    }
}

/// Where a phrase that stands at a place ends.
pub open spec fn phrase_end(message: Seq<char>, start: int, phrase: Seq<char>) -> Option<int> {
    words_end(message, start, split_at_char(phrase, ' '))
}

/// Where a phrase that stands at a place, and at the end of a word, ends.
pub open spec fn whole_phrase_end(message: Seq<char>, start: int, phrase: Seq<char>) -> Option<
    int,
> {
    match phrase_end(message, start, phrase) {
        Some(end) => if end < message.len() && unicode_alphanumeric(message[end]) {
            None
        } else {
            Some(end)
        },
        None => None,
    }
}

/// Where the first phrase of a list that stands at a place ends.
pub open spec fn first_phrase_end(
    message: Seq<char>,
    start: int,
    phrases: Seq<&'static str>,
) -> Option<int>
    decreases phrases.len(),
{
    if phrases.len() == 0 {
        None
    } else {
        match whole_phrase_end(message, start, phrases[0]@) {
            Some(end) => Some(end),
            None => first_phrase_end(message, start, phrases.drop_first()),
        }
    }
}

/// The phrase that stands at a place, at the start of a word: where it ends, and
/// what it tells.
pub open spec fn highlight(message: Seq<char>, start: int) -> Option<(int, MessageTone)> {
    if start > 0 && unicode_alphanumeric(message[start - 1]) {
        None
    } else {
        match first_phrase_end(message, start, NEGATIVE_PHRASES@) {
            Some(end) => Some((end, MessageTone::Negative)),
            None => match first_phrase_end(message, start, WARNING_PHRASES@) {
                Some(end) => Some((end, MessageTone::Warning)),
                None => match first_phrase_end(message, start, POSITIVE_PHRASES@) {
                    Some(end) => Some((end, MessageTone::Positive)),
                    None => match first_phrase_end(message, start, ACTIVITY_PHRASES@) {
                        Some(end) => Some((end, MessageTone::Activity)),
                        None => None,
                    },
                },
            },
        }
    }
}

/// A phrase ends within the message and not before it starts.
proof fn lemma_words_end(message: Seq<char>, start: int, words: Seq<Seq<char>>)
    requires
        0 <= start <= message.len(),
    ensures
        words_end(message, start, words) matches Some(end) ==> start <= end <= message.len(),
    decreases words.len(),
{
    if words.len() > 1 && word_at(message, start, words[0]) {
        let end = start + words[0].len();
        lemma_separators_end(message, end);
        lemma_words_end(message, separators_end(message, end), words.drop_first());
    }
}

proof fn lemma_separators_end(message: Seq<char>, start: int)
    requires
        0 <= start <= message.len(),
    ensures
        start <= separators_end(message, start) <= message.len(),
    decreases message.len() - start,
{
    if start < message.len() && separates_words(message[start]) {
        lemma_separators_end(message, start + 1);
    }
}

/// Whether a character separates the words of a phrase.
fn is_phrase_separator(character: char) -> (result: bool)
    ensures
        result == separates_words(character),
{
    character == ' ' || character == '_' || character == '-' || character == '/' || character
        == '.'
}

/// Where a phrase that stands at a place ends.
fn phrase_end_at(message: &Vec<char>, start: usize, phrase: &str) -> (end: Option<usize>)
    requires
        start <= message@.len(),
    ensures
        match end {
            Some(end) => phrase_end(message@, start as int, phrase@) == Some(end as int) && start
                <= end <= message@.len(),
            None => phrase_end(message@, start as int, phrase@) is None,
        },
{
    let words = split(phrase, ' ');
    let ghost all = split_at_char(phrase@, ' ');
    let mut position: usize = start;
    let mut index: usize = 0;
    assert(all.skip(0) == all);
    while index < words.len()
        invariant
            index <= words.len(),
            views(words@) == all,
            all == split_at_char(phrase@, ' '),
            start <= position <= message@.len(),
            words_end(message@, start as int, all) == words_end(
                message@,
                position as int,
                all.skip(index as int),
            ),
        decreases words.len() - index,
    {
        let word = chars_of(words[index].as_str());
        let ghost left = all.skip(index as int);
        assert(left[0] == words@[index as int]@);
        assert(left.drop_first() == all.skip(index + 1));
        if message.len() - position < word.len() {
            return None;
        }
        let candidate = text_between(message.as_slice(), position, position + word.len());
        if !same_ignoring_case(candidate.as_str(), words[index].as_str()) {
            return None;
        }
        position = position + word.len();
        index += 1;
        if index < words.len() {
            let separator_start: usize = position;
            while position < message.len() && is_phrase_separator(message[position])
                invariant
                    separator_start <= position <= message@.len(),
                    separators_end(message@, separator_start as int) == separators_end(
                        message@,
                        position as int,
                    ),
                decreases message.len() - position,
            {
                position += 1;
            }
            if position == separator_start {
                return None;
            }
        }
    }
    Some(position)
}

/// Where the first phrase of a list that stands at a place ends.
fn first_end_at(message: &Vec<char>, start: usize, phrases: &[&'static str]) -> (end: Option<
    usize,
>)
    requires
        start <= message@.len(),
    ensures
        match end {
            Some(end) => first_phrase_end(message@, start as int, phrases@) == Some(end as int)
                && start <= end <= message@.len(),
            None => first_phrase_end(message@, start as int, phrases@) is None,
        },
{
    let mut index: usize = 0;
    assert(phrases@.skip(0) == phrases@);
    while index < phrases.len()
        invariant
            index <= phrases@.len(),
            start <= message@.len(),
            first_phrase_end(message@, start as int, phrases@) == first_phrase_end(
                message@,
                start as int,
                phrases@.skip(index as int),
            ),
        decreases phrases@.len() - index,
    {
        assert(phrases@.skip(index as int).drop_first() == phrases@.skip(index + 1));
        if let Some(end) = phrase_end_at(message, start, phrases[index]) {
            if !(end < message.len() && is_alphanumeric(message[end])) {
                return Some(end);
            }
        }
        index += 1;
    }
    None
}

/// The phrase that stands at a place: where it ends, and what it tells.
pub fn highlight_at(message: &Vec<char>, start: usize) -> (found: Option<(usize, MessageTone)>)
    requires
        start <= message@.len(),
    ensures
        match found {
            Some(found) => highlight(message@, start as int) == Some((found.0 as int, found.1))
                && start <= found.0 <= message@.len(),
            None => highlight(message@, start as int) is None,
        },
{
    if start > 0 && is_alphanumeric(message[start - 1]) {
        return None;
    }
    if let Some(end) = first_end_at(message, start, NEGATIVE_PHRASES.as_slice()) {
        return Some((end, MessageTone::Negative));
    }
    if let Some(end) = first_end_at(message, start, WARNING_PHRASES.as_slice()) {
        return Some((end, MessageTone::Warning));
    }
    if let Some(end) = first_end_at(message, start, POSITIVE_PHRASES.as_slice()) {
        return Some((end, MessageTone::Positive));
    }
    match first_end_at(message, start, ACTIVITY_PHRASES.as_slice()) {
        Some(end) => Some((end, MessageTone::Activity)),
        None => None,
    }
}

/// A piece of a message, and what it tells.
#[verifier::ext_equal]
pub struct PieceModel {
    pub text: Seq<char>,
    pub tone: Option<MessageTone>,
}

/// A piece without a phrase, unless it is empty.
pub open spec fn plain_piece(message: Seq<char>, start: int, end: int) -> Seq<PieceModel> {
    if start < end {
        seq![PieceModel { text: message.subrange(start, end), tone: None }]
    } else {
        Seq::empty()
    }
}

/// The pieces of a message from a place on, where the phrases are looked for
/// from a later place on.
pub open spec fn pieces_from(message: Seq<char>, plain: int, cursor: int) -> Seq<PieceModel>
    decreases message.len() - cursor,
{
    if cursor >= message.len() {
        plain_piece(message, plain, message.len() as int)
    } else {
        match highlight(message, cursor) {
            Some(found) if cursor < found.0 <= message.len() => plain_piece(message, plain, cursor) + seq![
                PieceModel {
                    text: message.subrange(cursor, found.0),
                    tone: Some(found.1),
                },
            ] + pieces_from(message, found.0, found.0),
            _ => pieces_from(message, plain, cursor + 1),
        }
    }
}

/// A piece of a message, and what it tells.
pub struct MessagePiece {
    pub text: String,
    pub tone: Option<MessageTone>,
}

impl View for MessagePiece {
    type V = PieceModel;

    open spec fn view(&self) -> PieceModel {
        PieceModel { text: self.text@, tone: self.tone }
    }
}

/// The views of pieces.
pub open spec fn piece_views(pieces: Seq<MessagePiece>) -> Seq<PieceModel> {
    pieces.map_values(|piece: MessagePiece| piece@)
}

/// Adds a piece, unless it is empty.
fn append_message_text(
    pieces: &mut Vec<MessagePiece>,
    message: &Vec<char>,
    start: usize,
    end: usize,
    tone: Option<MessageTone>,
)
    requires
        start <= end <= message@.len(),
    ensures
        piece_views(final(pieces)@) == piece_views(old(pieces)@) + if start < end {
            seq![
                PieceModel {
                    text: message@.subrange(start as int, end as int),
                    tone,
                },
            ]
        } else {
            Seq::empty()
        },
{
    let ghost before = piece_views(pieces@);
    if start < end {
        pieces.push(MessagePiece { text: text_between(message.as_slice(), start, end), tone });
        assert(piece_views(pieces@) == before.push(pieces@.last()@));
    }
    assert(piece_views(pieces@) == before + if start < end {
        seq![PieceModel { text: message@.subrange(start as int, end as int), tone }]
    } else {
        Seq::empty()
    });
}

/// The pieces of a message: its phrases, and what stands between them.
pub fn highlighted_message(message: &str) -> (pieces: Vec<MessagePiece>)
    ensures
        piece_views(pieces@) == pieces_from(message@, 0, 0),
{
    let characters = chars_of(message);
    let mut pieces: Vec<MessagePiece> = Vec::new();
    let mut cursor: usize = 0;
    let mut plain: usize = 0;
    let ghost all = pieces_from(message@, 0, 0);
    assert(piece_views(pieces@) + all == all);
    while cursor < characters.len()
        invariant
            characters@ == message@,
            plain <= cursor <= characters@.len(),
            piece_views(pieces@) + pieces_from(message@, plain as int, cursor as int) == all,
        decreases characters.len() - cursor,
    {
        let ghost before = piece_views(pieces@);
        let found = highlight_at(&characters, cursor);
        let mut taken: bool = false;
        if let Some((end, tone)) = found {
            if end > cursor {
                append_message_text(&mut pieces, &characters, plain, cursor, None);
                append_message_text(&mut pieces, &characters, cursor, end, Some(tone));
                proof {
                    let phrase = seq![
                        PieceModel {
                            text: message@.subrange(cursor as int, end as int),
                            tone: Some(tone),
                        },
                    ];
                    let rest = pieces_from(message@, end as int, end as int);
                    let gap = plain_piece(message@, plain as int, cursor as int);
                    assert(piece_views(pieces@) == before + gap + phrase);
                    assert(before + (gap + phrase + rest) == before + gap + phrase + rest);
                }
                cursor = end;
                plain = end;
                taken = true;
            }
        }
        if !taken {
            cursor += 1;
        }
    }
    append_message_text(&mut pieces, &characters, plain, characters.len(), None);
    assert(piece_views(pieces@) == all);
    pieces
}

/// The texts of pieces, one after the other.
pub open spec fn joined_pieces(pieces: Seq<PieceModel>) -> Seq<char>
    decreases pieces.len(),
{
    if pieces.len() == 0 {
        Seq::empty()
    } else {
        pieces[0].text + joined_pieces(pieces.drop_first())
    }
}

/// The texts of pieces that stand before others come before theirs.
proof fn lemma_joined_pieces(first: Seq<PieceModel>, second: Seq<PieceModel>)
    ensures
        joined_pieces(first + second) == joined_pieces(first) + joined_pieces(second),
    decreases first.len(),
{
    if first.len() == 0 {
        assert(first + second == second);
        assert(joined_pieces(first) + joined_pieces(second) == joined_pieces(second));
    } else {
        assert((first + second).drop_first() == first.drop_first() + second);
        lemma_joined_pieces(first.drop_first(), second);
        let head = first[0].text;
        let middle = joined_pieces(first.drop_first());
        let tail = joined_pieces(second);
        assert(head + (middle + tail) == (head + middle) + tail);
    }
}

proof fn lemma_pieces_from(message: Seq<char>, plain: int, cursor: int)
    requires
        0 <= plain <= cursor <= message.len(),
    ensures
        joined_pieces(pieces_from(message, plain, cursor)) == message.skip(plain),
        forall|i: int|
            0 <= i < pieces_from(message, plain, cursor).len() ==> (#[trigger] pieces_from(
                message,
                plain,
                cursor,
            )[i]).text.len() > 0,
    decreases message.len() - cursor,
{
    reveal_with_fuel(joined_pieces, 3);
    if cursor >= message.len() {
        assert(message.subrange(plain, message.len() as int) == message.skip(plain));
        if plain < message.len() {
            let piece = plain_piece(message, plain, message.len() as int);
            assert(piece.drop_first() == Seq::<PieceModel>::empty());
            assert(joined_pieces(piece) == message.skip(plain) + Seq::<char>::empty());
        }
    } else {
        match highlight(message, cursor) {
            Some(found) if cursor < found.0 <= message.len() => {
                lemma_highlight_within(message, cursor);
                let gap = plain_piece(message, plain, cursor);
                let phrase = seq![
                    PieceModel {
                        text: message.subrange(cursor, found.0),
                        tone: Some(found.1),
                    },
                ];
                let rest = pieces_from(message, found.0, found.0);
                lemma_pieces_from(message, found.0, found.0);
                lemma_joined_pieces(gap + phrase, rest);
                lemma_joined_pieces(gap, phrase);
                assert(phrase.drop_first() == Seq::<PieceModel>::empty());
                assert(joined_pieces(phrase) == message.subrange(cursor, found.0));
                if plain < cursor {
                    assert(gap.drop_first() == Seq::<PieceModel>::empty());
                    assert(joined_pieces(gap) == message.subrange(plain, cursor));
                } else {
                    assert(joined_pieces(gap) == message.subrange(plain, cursor));
                }
                assert(message.subrange(plain, cursor) + message.subrange(cursor, found.0)
                    + message.skip(found.0) == message.skip(plain));
            },
            _ => {
                lemma_pieces_from(message, plain, cursor + 1);
            },
        }
    }
}

/// A phrase ends within the message.
proof fn lemma_highlight_within(message: Seq<char>, start: int)
    requires
        0 <= start <= message.len(),
    ensures
        highlight(message, start) matches Some(found) ==> found.0 <= message.len(),
{
    lemma_first_phrase_within(message, start, NEGATIVE_PHRASES@);
    lemma_first_phrase_within(message, start, WARNING_PHRASES@);
    lemma_first_phrase_within(message, start, POSITIVE_PHRASES@);
    lemma_first_phrase_within(message, start, ACTIVITY_PHRASES@);
}

proof fn lemma_first_phrase_within(message: Seq<char>, start: int, phrases: Seq<&'static str>)
    requires
        0 <= start <= message.len(),
    ensures
        first_phrase_end(message, start, phrases) matches Some(end) ==> end <= message.len(),
    decreases phrases.len(),
{
    if phrases.len() > 0 {
        lemma_words_end(message, start, split_at_char(phrases[0]@, ' '));
        lemma_first_phrase_within(message, start, phrases.drop_first());
    }
}

/// The pieces of a message make up the message, and none of them is empty.
pub proof fn lemma_pieces_make_up_message(message: Seq<char>)
    ensures
        joined_pieces(pieces_from(message, 0, 0)) == message,
        forall|i: int|
            0 <= i < pieces_from(message, 0, 0).len() ==> (#[trigger] pieces_from(message, 0, 0)[i])
                .text.len() > 0,
{
    lemma_pieces_from(message, 0, 0);
    assert(message.skip(0) == message);
}

/// Whether a text stands between others as a word of its own: no letter and no digit touches
/// it.
pub open spec fn stands_alone(before: Seq<char>, after: Seq<char>) -> bool {
    &&& before.len() > 0 ==> !unicode_alphanumeric(before.last())
    &&& after.len() > 0 ==> !unicode_alphanumeric(after[0])
}

proof fn lemma_phrase_of_one_word(message: Seq<char>, start: int, phrase: Seq<char>)
    requires
        !phrase.contains(' '),
    ensures
        phrase_end(message, start, phrase) == (if start + phrase.len() <= message.len() && lowered(
            message.subrange(start, start + phrase.len()),
        ) == lowered(phrase) {
            Some(start + phrase.len())
        } else {
            None
        }),
{
    let separates = is_char(' ');
    assert forall|i: int| 0 <= i < phrase.len() implies !separates(#[trigger] phrase[i]) by {
        assert(phrase.contains(phrase[i]));
    }
    lemma_one_piece(phrase, separates);
    reveal_with_fuel(words_end, 2);
}

proof fn lemma_listed_phrase_is_found(
    message: Seq<char>,
    start: int,
    phrases: Seq<&'static str>,
    index: int,
)
    requires
        0 <= index < phrases.len(),
        whole_phrase_end(message, start, phrases[index]@) is Some,
    ensures
        first_phrase_end(message, start, phrases) is Some,
    decreases phrases.len(),
{
    if index > 0 {
        assert(phrases.drop_first()[index - 1] == phrases[index]);
        lemma_listed_phrase_is_found(message, start, phrases.drop_first(), index - 1);
    }
}

proof fn lemma_found_phrase_is_listed(message: Seq<char>, start: int, phrases: Seq<&'static str>)
    ensures
        first_phrase_end(message, start, phrases) matches Some(end) ==> exists|i: int|
            0 <= i < phrases.len() && whole_phrase_end(message, start, (#[trigger] phrases[i])@)
                == Some(end),
        first_phrase_end(message, start, phrases) is None ==> forall|i: int|
            0 <= i < phrases.len() ==> whole_phrase_end(message, start, (#[trigger] phrases[i])@)
                is None,
    decreases phrases.len(),
{
    if phrases.len() > 0 {
        let rest = phrases.drop_first();
        lemma_found_phrase_is_listed(message, start, rest);
        match whole_phrase_end(message, start, phrases[0]@) {
            Some(_) => {},
            None => {
                match first_phrase_end(message, start, rest) {
                    Some(end) => {
                        let i = choose|i: int|
                            0 <= i < rest.len() && whole_phrase_end(
                                message,
                                start,
                                (#[trigger] rest[i])@,
                            ) == Some(end);
                        assert(phrases[i + 1] == rest[i]);
                    },
                    None => {
                        assert forall|i: int| 0 <= i < phrases.len() implies whole_phrase_end(
                            message,
                            start,
                            (#[trigger] phrases[i])@,
                        ) is None by {
                            if i > 0 {
                                assert(rest[i - 1] == phrases[i]);
                            }
                        }
                    },
                }
            },
        }
    }
}

/// A word of a list that stands alone in a message, in any case, is marked. What went wrong
/// is marked as such whatever else stands there; what asks for attention comes next, then
/// what went well, and last what is under way.
pub proof fn lemma_words_are_marked(
    before: Seq<char>,
    word: Seq<char>,
    after: Seq<char>,
    phrase: &'static str,
)
    requires
        stands_alone(before, after),
        lowered(word) == lowered(phrase@),
        !phrase@.contains(' '),
    ensures
        ({
            let found = highlight(before + word + after, before.len() as int);
            &&& NEGATIVE_PHRASES@.contains(phrase) ==> found is Some && (found->0).1
                == MessageTone::Negative
            &&& WARNING_PHRASES@.contains(phrase) ==> found is Some && ((found->0).1
                == MessageTone::Negative || (found->0).1 == MessageTone::Warning)
            &&& POSITIVE_PHRASES@.contains(phrase) ==> found is Some && (found->0).1
                != MessageTone::Activity
            &&& ACTIVITY_PHRASES@.contains(phrase) ==> found is Some
        }),
{
    let message = before + word + after;
    let start = before.len() as int;
    assert(lowered(word).len() == word.len());
    assert(lowered(phrase@).len() == phrase@.len());
    assert(message.subrange(start, start + word.len()) == word);
    lemma_phrase_of_one_word(message, start, phrase@);
    if start > 0 {
        assert(message[start - 1] == before.last());
    }
    if after.len() > 0 {
        assert(message[start + word.len()] == after[0]);
    }
    assert(whole_phrase_end(message, start, phrase@) is Some);
    if NEGATIVE_PHRASES@.contains(phrase) {
        let i = choose|i: int| 0 <= i < NEGATIVE_PHRASES@.len() && NEGATIVE_PHRASES@[i] == phrase;
        lemma_listed_phrase_is_found(message, start, NEGATIVE_PHRASES@, i);
    }
    if WARNING_PHRASES@.contains(phrase) {
        let i = choose|i: int| 0 <= i < WARNING_PHRASES@.len() && WARNING_PHRASES@[i] == phrase;
        lemma_listed_phrase_is_found(message, start, WARNING_PHRASES@, i);
    }
    if POSITIVE_PHRASES@.contains(phrase) {
        let i = choose|i: int| 0 <= i < POSITIVE_PHRASES@.len() && POSITIVE_PHRASES@[i] == phrase;
        lemma_listed_phrase_is_found(message, start, POSITIVE_PHRASES@, i);
    }
    if ACTIVITY_PHRASES@.contains(phrase) {
        let i = choose|i: int| 0 <= i < ACTIVITY_PHRASES@.len() && ACTIVITY_PHRASES@[i] == phrase;
        lemma_listed_phrase_is_found(message, start, ACTIVITY_PHRASES@, i);
    }
}

/// The phrases that tell one thing.
pub open spec fn phrases_of(tone: MessageTone) -> Seq<&'static str> {
    match tone {
        MessageTone::Negative => NEGATIVE_PHRASES@,
        MessageTone::Warning => WARNING_PHRASES@,
        MessageTone::Positive => POSITIVE_PHRASES@,
        MessageTone::Activity => ACTIVITY_PHRASES@,
    }
}

/// What is marked begins and ends at the ends of words and is a phrase of the list for what
/// it tells; a phrase of one word is that word, in any case.
pub proof fn lemma_marks_are_of_listed_phrases(message: Seq<char>, start: int)
    requires
        0 <= start < message.len(),
        highlight(message, start) is Some,
    ensures
        ({
            let (end, tone) = highlight(message, start)->0;
            &&& start > 0 ==> !unicode_alphanumeric(message[start - 1])
            &&& end < message.len() ==> !unicode_alphanumeric(message[end])
            &&& exists|i: int|
                0 <= i < phrases_of(tone).len() && {
                    let phrase = (#[trigger] phrases_of(tone)[i])@;
                    &&& phrase_end(message, start, phrase) == Some(end)
                    &&& !phrase.contains(' ') ==> end == start + phrase.len() && end
                        <= message.len() && lowered(message.subrange(start, end)) == lowered(phrase)
                }
        }),
{
    let (end, tone) = highlight(message, start)->0;
    let phrases = phrases_of(tone);
    lemma_found_phrase_is_listed(message, start, phrases);
    let i = choose|i: int|
        0 <= i < phrases.len() && whole_phrase_end(message, start, (#[trigger] phrases[i])@)
            == Some(end);
    let phrase = phrases[i]@;
    assert(phrase_end(message, start, phrase) == Some(end));
    if !phrase.contains(' ') {
        lemma_phrase_of_one_word(message, start, phrase);
    }
}

/// Whether a text is made of the characters that can stand between the words of a phrase,
/// and is not empty.
pub open spec fn is_gap(text: Seq<char>) -> bool {
    text.len() > 0 && forall|i: int|
        0 <= i < text.len() ==> {
            let character = #[trigger] text[i];
            character == ' ' || character == '_' || character == '-' || character == '/'
                || character == '.'
        }
}

proof fn lemma_gap_ends(message: Seq<char>, start: int, gap: Seq<char>)
    requires
        0 <= start,
        start + gap.len() <= message.len(),
        message.subrange(start, start + gap.len()) == gap,
        forall|i: int| 0 <= i < gap.len() ==> separates_words(#[trigger] gap[i]),
        start + gap.len() < message.len() ==> !separates_words(message[start + gap.len()]),
    ensures
        separators_end(message, start) == start + gap.len(),
    decreases gap.len(),
{
    if gap.len() > 0 {
        assert(message[start] == message.subrange(start, start + gap.len())[0]);
        assert(separates_words(gap[0]));
        let rest = gap.drop_first();
        assert(message.subrange(start + 1, start + 1 + rest.len()) =~= rest) by {
            assert forall|i: int| 0 <= i < rest.len() implies message.subrange(
                start + 1,
                start + 1 + rest.len(),
            )[i] == rest[i] by {
                assert(message.subrange(start, start + gap.len())[i + 1] == gap[i + 1]);
            }
        }
        assert forall|i: int| 0 <= i < rest.len() implies separates_words(#[trigger] rest[i]) by {
            assert(rest[i] == gap[i + 1]);
        }
        lemma_gap_ends(message, start + 1, rest);
    }
}

/// The two words of a phrase may have any of spaces, underscores, hyphens, slashes and dots
/// between them, and have to have at least one.
pub proof fn lemma_words_of_phrase_can_be_apart(
    before: Seq<char>,
    first: Seq<char>,
    gap: Seq<char>,
    second: Seq<char>,
    after: Seq<char>,
    phrase: Seq<char>,
    words: (Seq<char>, Seq<char>),
)
    requires
        phrase == words.0 + " "@ + words.1,
        !words.0.contains(' '),
        !words.1.contains(' '),
        lowered(first) == lowered(words.0),
        lowered(second) == lowered(words.1),
        second.len() > 0,
        !is_gap(second.take(1)),
        gap.len() == 0 || is_gap(gap),
    ensures
        gap.len() > 0 ==> phrase_end(
            before + first + gap + second + after,
            before.len() as int,
            phrase,
        ) == Some(before.len() + first.len() + gap.len() + second.len() as int),
        gap.len() == 0 ==> phrase_end(
            before + first + gap + second + after,
            before.len() as int,
            phrase,
        ) is None,
{
    reveal_strlit(" ");
    reveal_with_fuel(words_end, 3);
    let separates = is_char(' ');
    assert forall|i: int| 0 <= i < words.0.len() implies !separates(#[trigger] words.0[i]) by {
        assert(words.0.contains(words.0[i]));
    }
    assert forall|i: int| 0 <= i < words.1.len() implies !separates(#[trigger] words.1[i]) by {
        assert(words.1.contains(words.1[i]));
    }
    lemma_one_piece(words.0, separates);
    lemma_one_piece(words.1, separates);
    assert(" "@ == seq![' ']);
    lemma_split_at_separator(words.0, ' ', words.1, separates);
    let parts = split_at_char(phrase, ' ');
    assert(parts == seq![words.0, words.1]);
    assert(parts.drop_first() == seq![words.1]);
    let message = before + first + gap + second + after;
    let start = before.len() as int;
    assert(lowered(first).len() == first.len());
    assert(lowered(words.0).len() == words.0.len());
    assert(lowered(second).len() == second.len());
    assert(lowered(words.1).len() == words.1.len());
    assert(message.subrange(start, start + first.len()) == first);
    let end = start + first.len();
    let next = end + gap.len();
    assert(message.subrange(end, next) == gap);
    assert(message.subrange(next, next + second.len()) == second);
    assert(message[next] == second[0]);
    assert(second.take(1)[0] == second[0]);
    assert(!separates_words(second[0]));
    assert forall|i: int| 0 <= i < gap.len() implies separates_words(#[trigger] gap[i]) by {}
    lemma_gap_ends(message, end, gap);
}

/// Whether pieces mark the phrases of a message from a place on: each marked piece is the
/// phrase that stands where it begins, and no phrase begins within one that is not marked.
pub open spec fn marks_phrases(message: Seq<char>, place: int, pieces: Seq<PieceModel>) -> bool
    decreases pieces.len(),
{
    if pieces.len() == 0 {
        place == message.len()
    } else {
        let end = place + pieces[0].text.len();
        &&& end <= message.len()
        &&& pieces[0].text == message.subrange(place, end)
        &&& match pieces[0].tone {
            Some(tone) => highlight(message, place) == Some((end, tone)),
            None => forall|i: int|
                place <= i < end ==> (#[trigger] highlight(message, i) matches Some(found)
                    ==> found.0 <= i),
        }
        &&& marks_phrases(message, end, pieces.drop_first())
    }
}

/// The pieces of a message mark its phrases, and nothing else.
pub proof fn lemma_pieces_mark_phrases(message: Seq<char>)
    ensures
        marks_phrases(message, 0, pieces_from(message, 0, 0)),
{
    lemma_pieces_mark_from(message, 0, 0);
}

proof fn lemma_pieces_mark_from(message: Seq<char>, plain: int, cursor: int)
    requires
        0 <= plain <= cursor <= message.len(),
        forall|i: int|
            plain <= i < cursor ==> (#[trigger] highlight(message, i) matches Some(found)
                ==> found.0 <= i),
    ensures
        marks_phrases(message, plain, pieces_from(message, plain, cursor)),
    decreases message.len() - cursor,
{
    reveal_with_fuel(marks_phrases, 3);
    if cursor >= message.len() {
        let piece = plain_piece(message, plain, message.len() as int);
        if plain < message.len() {
            assert(piece.drop_first() == Seq::<PieceModel>::empty());
        }
    } else {
        lemma_highlight_within(message, cursor);
        match highlight(message, cursor) {
            Some(found) if cursor < found.0 <= message.len() => {
                lemma_pieces_mark_from(message, found.0, found.0);
                let gap = plain_piece(message, plain, cursor);
                let phrase = seq![
                    PieceModel {
                        text: message.subrange(cursor, found.0),
                        tone: Some(found.1),
                    },
                ];
                let rest = pieces_from(message, found.0, found.0);
                assert((phrase + rest).drop_first() == rest);
                if plain < cursor {
                    assert((gap + phrase + rest).drop_first() == phrase + rest);
                } else {
                    assert(gap + phrase + rest == phrase + rest);
                }
                assert(marks_phrases(message, cursor, phrase + rest));
            },
            _ => {
                lemma_pieces_mark_from(message, plain, cursor + 1);
            },
        }
    }
}

}
