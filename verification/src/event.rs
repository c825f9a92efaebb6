//! Log events.
use vstd::prelude::*;

use crate::json::{option_view, scalar_of, scalar_text, JsonValue};
use crate::level::Level;
use crate::number::Double;
use crate::ordered::TextMap;
use crate::text::{
    chars_of, first_where, is_blank, is_char, is_space, join, joined, lemma_first_piece_begins,
    lemma_first_where_is, lemma_one_piece, lemma_split_at_separator, lemma_split_nonempty,
    lemma_split_undoes_join, lemma_trim_start_add, lemma_trim_start_keeps, lowered, owned,
    position_of_char, same, split, split_at_char, split_where, text_between, to_lower,
    to_uppercase, trim, trim_end_spec, trim_start, trim_start_spec, trimmed, unicode_uppercase,
    views,
};
use crate::time::{rfc3339_text, Timestamp, NANOS_PER_SECOND};

verus! {

/// The version of the event schema.
pub const SCHEMA_VERSION: u16 = 1;

/// One record of a log.
#[derive(Debug, Clone, PartialEq)]
pub struct LogEvent {
    pub schema_version: u16,
    pub timestamp: Timestamp,
    pub level: Level,
    pub source: String,
    pub subsystem: String,
    pub target: Option<String>,
    pub event: String,
    pub message: String,
    pub app_session_id: String,
    pub playback_session_id: Option<String>,
    pub request_id: Option<String>,
    pub session_id: Option<String>,
    pub provider: Option<String>,
    pub duration_ms: Option<Double>,
    pub error_kind: Option<String>,
    pub status: Option<JsonValue>,
    pub fields: TextMap<JsonValue>,
}

/// The identifier that ties events together: the most specific one there is.
pub open spec fn correlation_of(event: LogEvent) -> Seq<char> {
    match event.playback_session_id {
        Some(id) => id@,
        None => match event.request_id {
            Some(id) => id@,
            None => match event.session_id {
                Some(id) => id@,
                None => event.app_session_id@,
            },
        },
    }
}

/// A label that names where something happened rather than what.
pub open spec fn is_context(label: Seq<char>) -> bool {
    let label = lowered(label);
    ||| label == "backend"@
    ||| label == "frontend"@
    ||| label == "local"@
    ||| label == "remote"@
    ||| label == "renderer"@
    ||| label == "settings"@
    ||| label == "sidecar"@
}

/// The text of a segment before its first closing bracket.
pub open spec fn bracketed(segment: Seq<char>) -> Seq<char> {
    trimmed(segment.take(first_where(segment, is_char(']'))))
}

/// Whether nothing but white space follows the first closing bracket of a segment.
pub open spec fn ends_with_label(segment: Seq<char>) -> bool {
    trimmed(segment.skip(first_where(segment, is_char(']')) + 1)).len() == 0
}

/// The labels in brackets, up to the first segment that has no closing bracket or goes
/// on after it. Each segment is what follows an opening bracket.
pub open spec fn labels_in(segments: Seq<Seq<char>>) -> Seq<Seq<char>>
    decreases segments.len(),
{
    if segments.len() == 0 || !segments[0].contains(']') {
        Seq::empty()
    } else {
        let label = bracketed(segments[0]);
        (if label.len() > 0 {
            seq![label]
        } else {
            Seq::empty()
        }) + (if ends_with_label(segments[0]) {
            labels_in(segments.drop_first())
        } else {
            Seq::empty()
        })
    }
}

/// The labels in brackets that a message begins with: before them, and between them,
/// stands nothing but white space.
pub open spec fn message_labels(message: Seq<char>) -> Seq<Seq<char>> {
    let segments = split_at_char(trim_start_spec(message), '[');
    if segments[0].len() == 0 {
        labels_in(segments.drop_first())
    } else {
        Seq::empty()
    }
}

/// The first text that is not empty and names no context.
pub open spec fn first_feature(texts: Seq<Seq<char>>) -> Option<Seq<char>>
    decreases texts.len(),
{
    if texts.len() == 0 {
        None
    } else if texts[0].len() > 0 && !is_context(texts[0]) {
        Some(texts[0])
    } else {
        first_feature(texts.drop_first())
    }
}

/// The first text that is not empty.
pub open spec fn first_nonempty(texts: Seq<Seq<char>>) -> Option<Seq<char>>
    decreases texts.len(),
{
    if texts.len() == 0 {
        None
    } else if texts[0].len() > 0 {
        Some(texts[0])
    } else {
        first_nonempty(texts.drop_first())
    }
}

/// A word with its first character in upper case.
pub open spec fn capitalized(word: Seq<char>) -> Seq<char> {
    unicode_uppercase(word[0]) + word.drop_first()
}

/// The words of an identifier, which underscores separate, each with its first
/// character in upper case.
pub open spec fn title_words(parts: Seq<Seq<char>>) -> Seq<Seq<char>>
    decreases parts.len(),
{
    if parts.len() == 0 {
        Seq::empty()
    } else if parts.last().len() == 0 {
        title_words(parts.drop_last())
    } else {
        title_words(parts.drop_last()).push(capitalized(parts.last()))
    }
}

/// The feature that a subsystem names.
pub open spec fn subsystem_feature(subsystem: Seq<char>) -> Seq<char> {
    let segments = split_at_char(subsystem, '.');
    match first_feature(segments) {
        Some(segment) => segment,
        None => match first_nonempty(segments) {
            Some(segment) => segment,
            None => "Other"@,
        },
    }
}

/// The words of the feature that a subsystem names.
pub open spec fn subsystem_tag(subsystem: Seq<char>) -> Seq<char> {
    joined(title_words(split_at_char(subsystem_feature(subsystem), '_')), " "@)
}

/// The feature that an event belongs to: the first label that its message begins with
/// and that names no context; without such a label, the words of the subsystem's
/// feature.
pub open spec fn tag_of(message: Seq<char>, subsystem: Seq<char>) -> Seq<char> {
    match first_feature(message_labels(message)) {
        Some(label) => label,
        None => subsystem_tag(subsystem),
    }
}

/// Whether a label names a context.
fn names_context(label: &str) -> (result: bool)
    ensures
        result == is_context(label@),
{
    let label = to_lower(label);
    let label = label.as_str();
    same(label, "backend") || same(label, "frontend") || same(label, "local") || same(
        label,
        "remote",
    ) || same(label, "renderer") || same(label, "settings") || same(label, "sidecar")
}

/// The first text that is not empty and names no context.
fn find_feature(texts: &Vec<String>) -> (result: Option<String>)
    ensures
        option_view(result) == first_feature(views(texts@)),
{
    let mut index: usize = 0;
    assert(views(texts@).skip(0) == views(texts@));
    while index < texts.len()
        invariant
            index <= texts.len(),
            first_feature(views(texts@).skip(index as int)) == first_feature(views(texts@)),
        decreases texts.len() - index,
    {
        let text = &texts[index];
        assert(views(texts@).skip(index as int)[0] == text@);
        if !text.as_str().is_empty() && !names_context(text.as_str()) {
            return Some(text.clone());
        }
        assert(views(texts@).skip(index as int).drop_first() == views(texts@).skip(index + 1));
        index += 1;
    }
    None
}

/// The first text that is not empty.
fn find_nonempty(texts: &Vec<String>) -> (result: Option<String>)
    ensures
        option_view(result) == first_nonempty(views(texts@)),
{
    let mut index: usize = 0;
    assert(views(texts@).skip(0) == views(texts@));
    while index < texts.len()
        invariant
            index <= texts.len(),
            first_nonempty(views(texts@).skip(index as int)) == first_nonempty(views(texts@)),
        decreases texts.len() - index,
    {
        let text = &texts[index];
        assert(views(texts@).skip(index as int)[0] == text@);
        if !text.as_str().is_empty() {
            return Some(text.clone());
        }
        assert(views(texts@).skip(index as int).drop_first() == views(texts@).skip(index + 1));
        index += 1;
    }
    None
}

/// The labels in brackets that a message begins with.
fn find_labels(message: &str) -> (labels: Vec<String>)
    ensures
        views(labels@) == message_labels(message@),
{
    let message_text = trim_start(message);
    let segments = split(message_text.as_str(), '[');
    let ghost all = split_at_char(trim_start_spec(message@), '[');
    let ghost rest = all.drop_first();
    let mut labels: Vec<String> = Vec::new();
    assert(all[0] == segments@[0]@);
    if !segments[0].as_str().is_empty() {
        return labels;
    }
    let mut index: usize = 1;
    assert(rest.skip(0) == rest);
    while index < segments.len()
        invariant
            1 <= index <= segments.len(),
            all == views(segments@),
            all == split_at_char(trim_start_spec(message@), '['),
            all[0].len() == 0,
            rest == all.drop_first(),
            views(labels@) + labels_in(rest.skip(index - 1)) == labels_in(rest),
        decreases segments.len() - index,
    {
        let segment = chars_of(segments[index].as_str());
        let ghost current = rest.skip(index - 1);
        let ghost found = views(labels@);
        assert(current[0] == segment@);
        assert(segment@.skip(0) == segment@);
        let end: usize = position_of_char(segment.as_slice(), ']', 0);
        if end == segment.len() {
            assert(!segment@.contains(']'));
            assert(found + Seq::<Seq<char>>::empty() == found);
            return labels;
        }
        assert(segment@[end as int] == ']');
        let label_text = text_between(segment.as_slice(), 0, end);
        assert(label_text@ == segment@.take(end as int));
        let label = trim(label_text.as_str());
        let after = text_between(segment.as_slice(), end + 1, segment.len());
        assert(after@ == segment@.skip(end + 1));
        assert(current.drop_first() == rest.skip(index as int));
        let ghost following = if ends_with_label(segment@) {
            labels_in(rest.skip(index as int))
        } else {
            Seq::empty()
        };
        if !label.as_str().is_empty() {
            labels.push(label);
            assert(views(labels@) == found.push(bracketed(segment@)));
            assert(found + (seq![bracketed(segment@)] + following) == views(labels@) + following);
        } else {
            assert(found + (Seq::<Seq<char>>::empty() + following) == views(labels@) + following);
        }
        if !is_blank(after.as_str()) {
            assert(views(labels@) + Seq::<Seq<char>>::empty() == views(labels@));
            return labels;
        }
        index += 1;
    }
    assert(views(labels@) + Seq::<Seq<char>>::empty() == views(labels@));
    labels
}

/// The words of an identifier, each with its first character in upper case.
fn find_title_words(identifier: &str) -> (words: Vec<String>)
    ensures
        views(words@) == title_words(split_at_char(identifier@, '_')),
{
    let parts = split(identifier, '_');
    let ghost texts = views(parts@);
    let mut words: Vec<String> = Vec::new();
    let mut index: usize = 0;
    assert(texts.take(0) == Seq::<Seq<char>>::empty());
    while index < parts.len()
        invariant
            index <= parts.len(),
            texts == views(parts@),
            views(words@) == title_words(texts.take(index as int)),
        decreases parts.len() - index,
    {
        let part = chars_of(parts[index].as_str());
        let ghost found = views(words@);
        assert(texts.take(index + 1).drop_last() == texts.take(index as int));
        assert(texts.take(index + 1).last() == part@);
        if part.len() > 0 {
            let mut word = to_uppercase(part[0]);
            let rest = text_between(part.as_slice(), 1, part.len());
            word.append(rest.as_str());
            assert(part@.drop_first() == part@.subrange(1, part@.len() as int));
            words.push(word);
            assert(views(words@) == found.push(capitalized(part@)));
        }
        index += 1;
    }
    assert(texts.take(index as int) == texts);
    words
}

/// The feature that an event with a message and a subsystem belongs to.
pub fn tag_text(message: &str, subsystem: &str) -> (tag: String)
    ensures
        tag@ == tag_of(message@, subsystem@),
{
    let labels = find_labels(message);
    if let Some(label) = find_feature(&labels) {
        return label;
    }
    let segments = split(subsystem, '.');
    let feature = match find_feature(&segments) {
        Some(segment) => segment,
        None => match find_nonempty(&segments) {
            Some(segment) => segment,
            None => owned("Other"),
        },
    };
    let words = find_title_words(feature.as_str());
    join(&words, " ")
}

/// The characters in which identifiers are written.
pub open spec fn is_lower_hex(character: char) -> bool {
    '0' <= character <= '9' || 'a' <= character <= 'f'
}

/// Whether a text is that of a random identifier: groups of eight, four, four, four
/// and twelve hexadecimal digits with hyphens between them, of which one tells the
/// version, and one the variant.
pub open spec fn is_random_identifier(text: Seq<char>) -> bool {
    &&& text.len() == 36
    &&& forall|i: int|
        0 <= i < 36 ==> if i == 8 || i == 13 || i == 18 || i == 23 {
            #[trigger] text[i] == '-'
        } else {
            is_lower_hex(text[i])
        }
    &&& text[14] == '4'
    &&& text[19] == '8' || text[19] == '9' || text[19] == 'a' || text[19] == 'b'
}

/// `Uuid::new_v4`: a random identifier of the fourth version in its hyphenated
/// text. Nothing is promised of which one.
#[verifier::external_body]
fn random_identifier() -> (result: String)
    ensures
        is_random_identifier(result@),
{
    uuid::Uuid::new_v4().to_string()
}

impl LogEvent {
    /// An event of the current instant, without optional parts.
    pub fn new(
        level: Level,
        source: String,
        subsystem: String,
        event: String,
        message: String,
        app_session_id: String,
    ) -> (result: Self)
        ensures
            result.schema_version == SCHEMA_VERSION,
            result.timestamp.nanos() < NANOS_PER_SECOND,
            result.timestamp.nanos() % 1_000_000 == 0,
            result.level == level,
            result.source@ == source@,
            result.subsystem@ == subsystem@,
            result.target is None,
            result.event@ == event@,
            result.message@ == message@,
            result.app_session_id@ == app_session_id@,
            result.playback_session_id is None,
            result.request_id is None,
            result.session_id is None,
            result.provider is None,
            result.duration_ms is None,
            result.error_kind is None,
            result.status is None,
            result.fields@ == Map::<Seq<char>, JsonValue>::empty(),
    {
        LogEvent {
            schema_version: SCHEMA_VERSION,
            timestamp: Timestamp::now(),
            level,
            source,
            subsystem,
            target: None,
            event,
            message,
            app_session_id,
            playback_session_id: None,
            request_id: None,
            session_id: None,
            provider: None,
            duration_ms: None,
            error_kind: None,
            status: None,
            fields: TextMap::new(),
        }
    }

    /// A fresh identifier for a session of an application.
    pub fn new_app_session_id() -> (result: String)
        ensures
            is_random_identifier(result@),
    {
        random_identifier()
    }

    /// The identifier that ties events together: the most specific one there is.
    pub fn correlation_id(&self) -> (result: &str)
        ensures
            result@ == correlation_of(*self),
    {
        if let Some(id) = &self.playback_session_id {
            return id.as_str();
        }
        if let Some(id) = &self.request_id {
            return id.as_str();
        }
        if let Some(id) = &self.session_id {
            return id.as_str();
        }
        self.app_session_id.as_str()
    }

    /// The RFC 3339 text of the instant, to the millisecond.
    pub fn timestamp_text(&self) -> (result: String)
        ensures
            result@ == rfc3339_text(self.timestamp.seconds(), self.timestamp.nanos()),
    {
        self.timestamp.to_rfc3339()
    }

    /// The feature that the event belongs to.
    pub fn tag(&self) -> (result: String)
        ensures
            result@ == tag_of(self.message@, self.subsystem@),
    {
        tag_text(self.message.as_str(), self.subsystem.as_str())
    }

    /// The text of a field whose value is no array, object or null.
    pub fn scalar_field_text(&self, key: &str) -> (result: Option<String>)
        ensures
            option_view(result) == (if self.fields@.contains_key(key@) {
                scalar_of(self.fields@[key@])
            } else {
                None
            }),
    {
        match self.fields.get(key) {
            Some(value) => scalar_text(value),
            None => None,
        }
    }
}

/// The text of a status: its scalar text, or a hyphen where it has none.
pub open spec fn status_of(status: Option<JsonValue>) -> Seq<char> {
    match status {
        Some(value) => match scalar_of(value) {
            Some(text) => text,
            None => "-"@,
        },
        None => "-"@,
    }
}

/// The text of a status.
pub fn status_text(status: Option<&JsonValue>) -> (text: String)
    ensures
        text@ == status_of(
            match status {
                Some(value) => Some(*value),
                None => None,
            },
        ),
{
    if let Some(value) = status {
        if let Some(text) = scalar_text(value) {
            return text;
        }
    }
    owned("-")
}

proof fn lemma_first_feature(texts: Seq<Seq<char>>, index: int)
    requires
        0 <= index < texts.len(),
        texts[index].len() > 0,
        !is_context(texts[index]),
    ensures
        first_feature(texts) matches Some(text) && texts.contains(text) && !is_context(text),
    decreases texts.len(),
{
    if texts[0].len() > 0 && !is_context(texts[0]) {
        assert(texts.contains(texts[0]));
    } else {
        let rest = texts.drop_first();
        assert(rest[index - 1] == texts[index]);
        lemma_first_feature(rest, index - 1);
        let found = first_feature(rest)->0;
        let place = choose|place: int| 0 <= place < rest.len() && rest[place] == found;
        assert(texts[place + 1] == found);
    }
}

proof fn lemma_labels_are_not_empty(segments: Seq<Seq<char>>)
    ensures
        forall|i: int| 0 <= i < labels_in(segments).len() ==> (#[trigger] labels_in(segments)[i])
            .len() > 0,
    decreases segments.len(),
{
    if segments.len() > 0 && segments[0].contains(']') {
        lemma_labels_are_not_empty(segments.drop_first());
        let labels = labels_in(segments);
        let rest = labels_in(segments.drop_first());
        let first: int = if bracketed(segments[0]).len() > 0 {
            1
        } else {
            0
        };
        assert forall|i: int| 0 <= i < labels.len() implies (#[trigger] labels[i]).len() > 0 by {
            if i >= first {
                assert(labels[i] == rest[i - first]);
            }
        }
    }
}

/// A label that names a context does not replace one that names a feature: where a
/// message has such a label, the event belongs to a label that names no context.
pub proof fn lemma_context_does_not_replace_feature(
    message: Seq<char>,
    subsystem: Seq<char>,
    index: int,
)
    requires
        0 <= index < message_labels(message).len(),
        !is_context(message_labels(message)[index]),
    ensures
        message_labels(message).contains(tag_of(message, subsystem)),
        !is_context(tag_of(message, subsystem)),
{
    lemma_labels_are_not_empty(split_at_char(trim_start_spec(message), '[').drop_first());
    lemma_first_feature(message_labels(message), index);
}

proof fn lemma_no_feature(texts: Seq<Seq<char>>)
    requires
        forall|i: int| 0 <= i < texts.len() ==> is_context(#[trigger] texts[i]),
    ensures
        first_feature(texts) is None,
    decreases texts.len(),
{
    if texts.len() > 0 {
        assert forall|i: int| 0 <= i < texts.drop_first().len() implies is_context(
            #[trigger] texts.drop_first()[i],
        ) by {
            assert(is_context(texts[i + 1]));
        }
        assert(is_context(texts[0]));
        lemma_no_feature(texts.drop_first());
    }
}

/// Where a message begins with no label, or with labels that all name a context, the
/// event belongs to the feature of its subsystem.
pub proof fn lemma_context_falls_back_to_subsystem(message: Seq<char>, subsystem: Seq<char>)
    requires
        forall|i: int|
            0 <= i < message_labels(message).len() ==> is_context(
                #[trigger] message_labels(message)[i],
            ),
    ensures
        tag_of(message, subsystem) == subsystem_tag(subsystem),
{
    lemma_no_feature(message_labels(message));
}

proof fn lemma_split_starts(text: Seq<char>, separator: char)
    requires
        text.len() > 0,
        text[0] != separator,
    ensures
        split_at_char(text, separator)[0].len() > 0,
    decreases text.len(),
{
    let before = split_at_char(text.drop_last(), separator);
    lemma_split_nonempty(text.drop_last(), is_char(separator));
    if text.len() > 1 {
        lemma_split_starts(text.drop_last(), separator);
        if before.len() > 1 {
            assert(split_at_char(text, separator)[0] == before[0]);
        }
    }
}

/// Brackets inside a message are no labels: a message that begins with anything else has
/// none.
pub proof fn lemma_labels_stand_first(message: Seq<char>)
    requires
        trim_start_spec(message).len() == 0 || trim_start_spec(message)[0] != '[',
    ensures
        message_labels(message).len() == 0,
{
    let text = trim_start_spec(message);
    if text.len() > 0 {
        lemma_split_starts(text, '[');
    }
}

/// The names of the places where something can happen, in lower case.
pub open spec fn context_names() -> Seq<Seq<char>> {
    seq![
        "backend"@,
        "frontend"@,
        "local"@,
        "remote"@,
        "renderer"@,
        "settings"@,
        "sidecar"@,
    ]
}

/// Which labels name a context, whatever the case of their letters: no others do.
pub proof fn lemma_contexts_are_named(label: Seq<char>)
    ensures
        is_context(label) <==> context_names().contains(lowered(label)),
{
    let names = context_names();
    assert(names[0] == "backend"@);
    assert(names[1] == "frontend"@);
    assert(names[2] == "local"@);
    assert(names[3] == "remote"@);
    assert(names[4] == "renderer"@);
    assert(names[5] == "settings"@);
    assert(names[6] == "sidecar"@);
}

/// Whether a text says what something is about: it is not empty, and it does not name a
/// place.
pub open spec fn is_topic(text: Seq<char>) -> bool {
    text.len() > 0 && !context_names().contains(lowered(text))
}

proof fn lemma_first_topic(texts: Seq<Seq<char>>, index: int)
    requires
        0 <= index < texts.len(),
        forall|i: int| 0 <= i < index ==> !is_topic(#[trigger] texts[i]),
        is_topic(texts[index]),
    ensures
        first_feature(texts) == Some(texts[index]),
    decreases texts.len(),
{
    lemma_contexts_are_named(texts[0]);
    if index > 0 {
        assert(!is_topic(texts[0]));
        let rest = texts.drop_first();
        assert forall|i: int| 0 <= i < index - 1 implies !is_topic(#[trigger] rest[i]) by {
            assert(rest[i] == texts[i + 1]);
        }
        lemma_first_topic(rest, index - 1);
    }
}

proof fn lemma_no_topic(texts: Seq<Seq<char>>)
    requires
        forall|i: int| 0 <= i < texts.len() ==> !is_topic(#[trigger] texts[i]),
    ensures
        first_feature(texts) is None,
    decreases texts.len(),
{
    if texts.len() > 0 {
        assert(!is_topic(texts[0]));
        lemma_contexts_are_named(texts[0]);
        let rest = texts.drop_first();
        assert forall|i: int| 0 <= i < rest.len() implies !is_topic(#[trigger] rest[i]) by {
            assert(rest[i] == texts[i + 1]);
        }
        lemma_no_topic(rest);
    }
}

proof fn lemma_first_text(texts: Seq<Seq<char>>, index: int)
    requires
        0 <= index <= texts.len(),
        forall|i: int| 0 <= i < index ==> (#[trigger] texts[i]).len() == 0,
        index < texts.len() ==> texts[index].len() > 0,
    ensures
        first_nonempty(texts) == (if index < texts.len() {
            Some(texts[index])
        } else {
            None
        }),
    decreases texts.len(),
{
    if index > 0 {
        assert(texts[0].len() == 0);
        let rest = texts.drop_first();
        assert forall|i: int| 0 <= i < index - 1 implies (#[trigger] rest[i]).len() == 0 by {
            assert(rest[i] == texts[i + 1]);
        }
        lemma_first_text(rest, index - 1);
    }
}

/// The words of an identifier are those that its underscores separate, each with its first
/// character in upper case.
proof fn lemma_words_of_identifier(words: Seq<Seq<char>>)
    requires
        words.len() > 0,
        forall|i: int|
            0 <= i < words.len() ==> (#[trigger] words[i]).len() > 0 && !words[i].contains('_'),
    ensures
        title_words(split_at_char(joined(words, "_"@), '_')) == words.map_values(
            |word: Seq<char>| unicode_uppercase(word[0]) + word.drop_first(),
        ),
{
    reveal_strlit("_");
    assert("_"@ == seq!['_']);
    lemma_split_undoes_join(words, '_');
    lemma_titles(words);
}

proof fn lemma_titles(words: Seq<Seq<char>>)
    requires
        forall|i: int| 0 <= i < words.len() ==> (#[trigger] words[i]).len() > 0,
    ensures
        title_words(words) == words.map_values(
            |word: Seq<char>| unicode_uppercase(word[0]) + word.drop_first(),
        ),
    decreases words.len(),
{
    let title = |word: Seq<char>| unicode_uppercase(word[0]) + word.drop_first();
    if words.len() > 0 {
        let before = words.drop_last();
        assert forall|i: int| 0 <= i < before.len() implies (#[trigger] before[i]).len() > 0 by {
            assert(before[i] == words[i]);
        }
        lemma_titles(before);
        assert(words[words.len() - 1].len() > 0);
        assert(words.map_values(title) == before.map_values(title).push(title(words.last())));
    } else {
        assert(words.map_values(title) == Seq::<Seq<char>>::empty());
    }
}

/// Where a message begins with no label, the tag is made of the first part of the subsystem,
/// between its dots, that is not empty and names no context: of the words that underscores
/// separate in it, each with its first character in upper case.
pub proof fn lemma_tag_is_of_first_topic(
    message: Seq<char>,
    segments: Seq<Seq<char>>,
    index: int,
    words: Seq<Seq<char>>,
)
    requires
        message_labels(message).len() == 0,
        0 <= index < segments.len(),
        forall|i: int| 0 <= i < segments.len() ==> !(#[trigger] segments[i]).contains('.'),
        forall|i: int| 0 <= i < index ==> !is_topic(#[trigger] segments[i]),
        is_topic(segments[index]),
        segments[index] == joined(words, "_"@),
        words.len() > 0,
        forall|i: int|
            0 <= i < words.len() ==> (#[trigger] words[i]).len() > 0 && !words[i].contains('_'),
    ensures
        tag_of(message, joined(segments, "."@)) == joined(
            words.map_values(|word: Seq<char>| unicode_uppercase(word[0]) + word.drop_first()),
            " "@,
        ),
{
    reveal_strlit(".");
    assert("."@ == seq!['.']);
    lemma_split_undoes_join(segments, '.');
    lemma_first_topic(segments, index);
    lemma_words_of_identifier(words);
}

/// A context, or nothing, in front of a subsystem that has a topic does not change its tag.
pub proof fn lemma_context_in_front_changes_no_tag(
    message: Seq<char>,
    front: Seq<char>,
    segments: Seq<Seq<char>>,
    index: int,
)
    requires
        front.len() == 0 || context_names().contains(lowered(front)),
        !front.contains('.'),
        0 <= index < segments.len(),
        forall|i: int| 0 <= i < segments.len() ==> !(#[trigger] segments[i]).contains('.'),
        is_topic(segments[index]),
    ensures
        tag_of(message, front + "."@ + joined(segments, "."@)) == tag_of(
            message,
            joined(segments, "."@),
        ),
{
    reveal_strlit(".");
    assert("."@ == seq!['.']);
    lemma_split_undoes_join(segments, '.');
    let separates = is_char('.');
    assert forall|i: int| 0 <= i < front.len() implies !separates(#[trigger] front[i]) by {
        assert(front.contains(front[i]));
    }
    lemma_one_piece(front, separates);
    lemma_split_at_separator(front, '.', joined(segments, "."@), separates);
    let longer = seq![front] + segments;
    assert(longer.drop_first() == segments);
    lemma_contexts_are_named(front);
    lemma_contexts_are_named(segments[index]);
    lemma_first_feature(segments, index);
    assert(first_feature(longer) == first_feature(segments));
}

/// Where a message begins with no label, and every part of the subsystem names a context or
/// is empty, the tag is made of the first part that is not empty; without one it is `Other`.
pub proof fn lemma_tag_without_topic(message: Seq<char>, segments: Seq<Seq<char>>, index: int)
    requires
        message_labels(message).len() == 0,
        segments.len() > 0,
        forall|i: int| 0 <= i < segments.len() ==> !(#[trigger] segments[i]).contains('.'),
        forall|i: int| 0 <= i < segments.len() ==> !is_topic(#[trigger] segments[i]),
        0 <= index <= segments.len(),
        forall|i: int| 0 <= i < index ==> (#[trigger] segments[i]).len() == 0,
        index < segments.len() ==> segments[index].len() > 0 && !segments[index].contains('_'),
    ensures
        index < segments.len() ==> tag_of(message, joined(segments, "."@)) == unicode_uppercase(
            segments[index][0],
        ) + segments[index].drop_first(),
        index == segments.len() ==> tag_of(message, joined(segments, "."@)) == unicode_uppercase(
            'O',
        ) + "ther"@,
{
    reveal_strlit(".");
    assert("."@ == seq!['.']);
    lemma_split_undoes_join(segments, '.');
    lemma_no_topic(segments);
    lemma_first_text(segments, index);
    reveal_strlit("Other");
    reveal_strlit("ther");
    let word = if index < segments.len() {
        segments[index]
    } else {
        "Other"@
    };
    assert(!word.contains('_'));
    let title = |word: Seq<char>| unicode_uppercase(word[0]) + word.drop_first();
    assert(joined(seq![word], "_"@) == word);
    lemma_words_of_identifier(seq![word]);
    assert(seq![word].map_values(title) == seq![title(word)]);
    if index == segments.len() {
        assert(word.drop_first() == "ther"@);
    }
}

/// Whether a text has no brackets.
pub open spec fn has_no_brackets(text: Seq<char>) -> bool {
    forall|i: int| 0 <= i < text.len() ==> #[trigger] text[i] != '[' && text[i] != ']'
}

/// What a message begins with that starts with a label in brackets.
proof fn lemma_labels_behind(label: Seq<char>, rest: Seq<char>)
    requires
        has_no_brackets(label),
    ensures
        ({
            let behind = split_at_char(rest, '[');
            let found = if trimmed(label).len() > 0 {
                seq![trimmed(label)]
            } else {
                Seq::empty()
            };
            message_labels("["@ + label + "]"@ + rest) == found + if trimmed(behind[0]).len()
                == 0 {
                labels_in(behind.drop_first())
            } else {
                Seq::empty()
            }
        }),
{
    reveal_strlit("[");
    reveal_strlit("]");
    assert("["@ == seq!['[']);
    assert("]"@ == seq![']']);
    let separates = is_char('[');
    let message = "["@ + label + "]"@ + rest;
    assert(message[0] == '[');
    assert(trim_start_spec(message) == message);
    let start = label + "]"@;
    let nothing = Seq::<char>::empty();
    assert(message == nothing + seq!['['] + (start + rest));
    lemma_split_at_separator(nothing, '[', start + rest, separates);
    assert(split_where(nothing, separates) == seq![nothing]);
    assert forall|i: int| 0 <= i < start.len() implies !separates(#[trigger] start[i]) by {
        if i < label.len() {
            assert(start[i] == label[i]);
        }
    }
    lemma_first_piece_begins(start, rest, separates);
    let behind = split_at_char(rest, '[');
    let first = start + behind[0];
    let segments = seq![first] + behind.drop_first();
    let all = split_at_char(message, '[');
    assert(all == seq![nothing] + segments);
    assert(all.drop_first() == segments);
    assert(all[0].len() == 0);
    assert(segments[0] == first);
    assert(segments.drop_first() == behind.drop_first());
    assert(first[label.len() as int] == ']');
    assert forall|i: int| 0 <= i < label.len() implies !is_char(']')(#[trigger] first[i]) by {
        assert(first[i] == label[i]);
    }
    lemma_first_where_is(first, is_char(']'), label.len() as int);
    assert(first.take(label.len() as int) == label);
    assert(first.skip(label.len() as int + 1) == behind[0]);
    assert(first.contains(']'));
}

/// A message that begins with a label in brackets that says what it is about has this label
/// as its tag, without the white space around it, whatever follows and whatever the
/// subsystem.
pub proof fn lemma_label_is_the_tag(label: Seq<char>, rest: Seq<char>, subsystem: Seq<char>)
    requires
        has_no_brackets(label),
        is_topic(trimmed(label)),
    ensures
        tag_of("["@ + label + "]"@ + rest, subsystem) == trimmed(label),
{
    lemma_labels_behind(label, rest);
    let labels = message_labels("["@ + label + "]"@ + rest);
    assert(labels[0] == trimmed(label));
    lemma_first_topic(labels, 0);
}

/// A label that is empty or names a context is passed over: a label that follows it, or
/// follows white space behind it, decides; without one, the subsystem does.
pub proof fn lemma_context_label_is_passed_over(
    label: Seq<char>,
    spacing: Seq<char>,
    rest: Seq<char>,
    subsystem: Seq<char>,
)
    requires
        has_no_brackets(label),
        !is_topic(trimmed(label)),
        trimmed(spacing).len() == 0,
        has_no_brackets(spacing),
    ensures
        rest.len() > 0 && rest[0] == '[' ==> tag_of("["@ + label + "]"@ + spacing + rest, subsystem)
            == tag_of(rest, subsystem),
        rest.len() > 0 && rest[0] != '[' && !is_space(rest[0]) ==> tag_of(
            "["@ + label + "]"@ + spacing + rest,
            subsystem,
        ) == tag_of(Seq::empty(), subsystem),
{
    let behind = spacing + rest;
    let message = "["@ + label + "]"@ + spacing + rest;
    assert(message == "["@ + label + "]"@ + behind);
    lemma_labels_behind(label, behind);
    let separates = is_char('[');
    assert forall|i: int| 0 <= i < spacing.len() implies !separates(#[trigger] spacing[i]) by {}
    lemma_first_piece_begins(spacing, rest, separates);
    let pieces = split_at_char(rest, '[');
    let all = split_at_char(behind, '[');
    assert(all.drop_first() == pieces.drop_first());
    let found = if trimmed(label).len() > 0 {
        seq![trimmed(label)]
    } else {
        Seq::empty()
    };
    lemma_contexts_are_named(trimmed(label));
    if rest.len() > 0 && rest[0] == '[' {
        let nothing = Seq::<char>::empty();
        let inner = rest.drop_first();
        assert(rest == nothing + seq!['['] + inner);
        lemma_split_at_separator(nothing, '[', inner, separates);
        assert(split_where(nothing, separates) == seq![nothing]);
        assert(pieces[0] == nothing);
        assert(all[0] == spacing);
        assert(trim_start_spec(rest) == rest);
        let labels = message_labels(rest);
        assert(message_labels(message) == found + labels);
        if found.len() > 0 {
            assert((found + labels).drop_first() == labels);
        } else {
            assert(found + labels == labels);
        }
    } else if rest.len() > 0 && !is_space(rest[0]) {
        let start = rest.take(1);
        assert(start + rest.skip(1) == rest);
        assert forall|i: int| 0 <= i < start.len() implies !separates(#[trigger] start[i]) by {}
        lemma_first_piece_begins(start, rest.skip(1), separates);
        assert(pieces[0][0] == rest[0]);
        lemma_trim_start_add(spacing, pieces[0]);
        lemma_trim_start_keeps(spacing);
        if trim_start_spec(spacing).len() > 0 {
            lemma_trim_end_keeps_something(trim_start_spec(spacing));
        }
        assert(trim_start_spec(all[0]) == pieces[0]);
        lemma_trim_end_keeps_something(pieces[0]);
        assert(message_labels(message) == found);
        lemma_labels_stand_first(Seq::empty());
        if found.len() > 0 {
            assert(found.drop_first() == Seq::<Seq<char>>::empty());
        }
    }
}

proof fn lemma_trim_end_keeps_something(text: Seq<char>)
    requires
        text.len() > 0,
        !is_space(text[0]),
    ensures
        trim_end_spec(text).len() > 0,
    decreases text.len(),
{
    if is_space(text.last()) {
        assert(text.len() > 1);
        lemma_trim_end_keeps_something(text.drop_last());
    }
}

/// The identifier that ties an event to others is that of its playback, where it has none
/// that of its request, where it has none that of its session, and else that of the app.
pub proof fn lemma_most_specific_correlation(event: LogEvent, id: String)
    ensures
        event.playback_session_id == Some(id) ==> correlation_of(event) == id@,
        event.playback_session_id is None && event.request_id == Some(id) ==> correlation_of(event)
            == id@,
        event.playback_session_id is None && event.request_id is None && event.session_id == Some(
            id,
        ) ==> correlation_of(event) == id@,
        event.playback_session_id is None && event.request_id is None && event.session_id is None
            ==> correlation_of(event) == event.app_session_id@,
{
}

}
