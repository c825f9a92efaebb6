//! What is known of the log sources.
use vstd::prelude::*;

use crate::follower::{place_of, MessageModel, ReaderMessage};
use crate::json::{decimal_text, natural_to_text, option_view};
use crate::ordered::TextMap;
use crate::text::owned;

verus! {

/// How a source stands.
#[derive(Clone, Copy, PartialEq, Eq, Structural, Debug)]
pub enum SourceHealthState {
    Loading,
    Tailing,
    Rotated,
    Missing,
    Error,
}

/// What is known of a source.
#[derive(Debug, Clone)]
pub struct SourceHealth {
    pub state: SourceHealthState,
    pub parse_errors: u64,
    pub rotations: u64,
    pub detail: Option<String>,
}

/// What is known of a source.
pub struct HealthModel {
    pub state: SourceHealthState,
    pub parse_errors: u64,
    pub rotations: u64,
    pub detail: Option<Seq<char>>,
}

impl View for SourceHealth {
    type V = HealthModel;

    open spec fn view(&self) -> HealthModel {
        HealthModel {
            state: self.state,
            parse_errors: self.parse_errors,
            rotations: self.rotations,
            detail: option_view(self.detail),
        }
    }
}

/// A source of which nothing but its state is known.
pub open spec fn plain_health(state: SourceHealthState) -> HealthModel {
    HealthModel { state, parse_errors: 0, rotations: 0, detail: None }
}

/// What is known of a source, or what it starts with.
pub open spec fn known_health(
    known: Option<HealthModel>,
    state: SourceHealthState,
) -> HealthModel {
    match known {
        Some(health) => health,
        None => plain_health(state),
    }
}

/// What is known of a source after a message, given what was known and whether its
/// file exists.
pub open spec fn health_after(
    known: Option<HealthModel>,
    message: MessageModel,
    exists_now: bool,
) -> Option<HealthModel> {
    match message {
        MessageModel::Batch(_) => known,
        MessageModel::InitialLoadStarted { file_size_bytes } => Some(
            HealthModel {
                state: SourceHealthState::Loading,
                ..known_health(known, SourceHealthState::Loading)
            },
        ),
        MessageModel::InitialLoadCompleted {
            file_size_bytes,
            event_count,
            invalid_count,
            duration_nanos,
        } => {
            let health = known_health(known, SourceHealthState::Tailing);
            Some(
                HealthModel {
                    state: SourceHealthState::Tailing,
                    parse_errors: if health.parse_errors < invalid_count {
                        invalid_count
                    } else {
                        health.parse_errors
                    },
                    ..health
                },
            )
        },
        MessageModel::InvalidRecord { line, error } => {
            let health = known_health(known, SourceHealthState::Tailing);
            Some(
                HealthModel {
                    parse_errors: (health.parse_errors + 1) as u64,
                    detail: Some("line "@ + decimal_text(line as nat) + ": "@ + error),
                    ..health
                },
            )
        },
        MessageModel::SourceOpened => Some(known_health(known, SourceHealthState::Tailing)),
        MessageModel::SourceRecovered => Some(
            HealthModel {
                state: SourceHealthState::Tailing,
                detail: Some("Reader recovered after a transient error"@),
                ..known_health(known, SourceHealthState::Tailing)
            },
        ),
        MessageModel::SourceReplaced => {
            let health = known_health(known, SourceHealthState::Rotated);
            Some(
                HealthModel {
                    state: SourceHealthState::Rotated,
                    rotations: (health.rotations + 1) as u64,
                    detail: Some("File was replaced or truncated; tail restarted"@),
                    ..health
                },
            )
        },
        MessageModel::SourceError { error } => Some(
            HealthModel {
                state: if exists_now {
                    SourceHealthState::Error
                } else {
                    SourceHealthState::Missing
                },
                parse_errors: 0,
                rotations: 0,
                detail: Some(error),
            },
        ),
    }
}

/// The error that a message tells of, given the place of its file.
pub open spec fn error_of(message: MessageModel, place: Seq<char>) -> Option<Seq<char>> {
    match message {
        MessageModel::InvalidRecord { line, error } => Some(
            place + ":"@ + decimal_text(line as nat) + ": "@ + error,
        ),
        MessageModel::SourceError { error } => Some(place + ": "@ + error),
        _ => None,
    }
}

/// What is known of all sources.
pub struct SourceLog {
    pub health: TextMap<SourceHealth>,
    pub invalid_records: u64,
    pub last_error: Option<String>,
}

/// The views of what is known of sources.
pub open spec fn health_views(health: Map<Seq<char>, SourceHealth>) -> Map<Seq<char>, HealthModel> {
    health.map_values(|health: SourceHealth| health@)
}

/// What is known of a source.
pub open spec fn health_at(health: Map<Seq<char>, HealthModel>, place: Seq<char>) -> Option<
    HealthModel,
> {
    if health.contains_key(place) {
        Some(health[place])
    } else {
        None
    }
}

/// Whether counts of a source can grow.
pub open spec fn can_count(health: Option<HealthModel>) -> bool {
    health matches Some(health) ==> health.parse_errors < u64::MAX && health.rotations < u64::MAX
}

impl SourceHealth {
    /// A source of which nothing but its state is known.
    pub fn plain(state: SourceHealthState) -> (health: Self)
        ensures
            health@ == plain_health(state),
    {
        SourceHealth { state, parse_errors: 0, rotations: 0, detail: None }
    }
}

/// The state that a source starts with when a message comes first.
fn first_state<P>(message: &ReaderMessage<P>) -> (state: SourceHealthState)
    ensures
        state == match message@ {
            MessageModel::InitialLoadStarted { file_size_bytes } => SourceHealthState::Loading,
            MessageModel::SourceReplaced => SourceHealthState::Rotated,
            _ => SourceHealthState::Tailing,
        },
{
    match message {
        ReaderMessage::InitialLoadStarted { path, file_size_bytes } => SourceHealthState::Loading,
        ReaderMessage::SourceReplaced(_) => SourceHealthState::Rotated,
        _ => SourceHealthState::Tailing,
    }
}

/// The text of a line number and an error.
fn line_error(line: u64, error: &str) -> (text: String)
    ensures
        text@ == decimal_text(line as nat) + ": "@ + error@,
{
    let mut text = natural_to_text(line);
    text.append(": ");
    text.append(error);
    text
}

impl SourceLog {
    /// The sources and what is known of them.
    pub open spec fn sources(self) -> Map<Seq<char>, HealthModel> {
        health_views(self.health@)
    }

    /// Nothing is known of any source.
    pub fn new() -> (log: Self)
        ensures
            log.sources() == Map::<Seq<char>, HealthModel>::empty(),
            log.invalid_records == 0,
            log.last_error is None,
    {
        let log = SourceLog { health: TextMap::new(), invalid_records: 0, last_error: None };
        assert(log.sources() =~= Map::<Seq<char>, HealthModel>::empty());
        log
    }

    /// Takes a message over.
    pub fn note(&mut self, message: &ReaderMessage<String>, exists_now: bool)
        requires
            old(self).invalid_records < u64::MAX,
            place_of(*message) matches Some(place) ==> can_count(
                health_at(old(self).sources(), place@),
            ),
        ensures
            match place_of(*message) {
                Some(place) => {
                    &&& final(self).sources() == old(self).sources().insert(
                        place@,
                        health_after(
                            health_at(old(self).sources(), place@),
                            message@,
                            exists_now,
                        )->0,
                    )
                    &&& final(self).invalid_records == old(self).invalid_records + if message@
                        is InvalidRecord {
                        1int
                    } else {
                        0int
                    }
                    &&& option_view(final(self).last_error) == match error_of(message@, place@) {
                        Some(error) => Some(error),
                        None => option_view(old(self).last_error),
                    }
                },
                None => *final(self) == *old(self),
            },
    {
        match message {
            ReaderMessage::Batch(_) => {},
            ReaderMessage::InitialLoadStarted { path, file_size_bytes } => {
                self.change(path, message, exists_now);
            },
            ReaderMessage::InitialLoadCompleted {
                path,
                file_size_bytes,
                event_count,
                invalid_count,
                duration_nanos,
            } => {
                self.change(path, message, exists_now);
            },
            ReaderMessage::InvalidRecord { path, line, error } => {
                self.change(path, message, exists_now);
                self.invalid_records = self.invalid_records + 1;
                let mut text = path.clone();
                text.append(":");
                let rest = line_error(*line, error.as_str());
                text.append(rest.as_str());
                assert(text@ == path@ + ":"@ + decimal_text(*line as nat) + ": "@ + error@);
                self.last_error = Some(text);
            },
            ReaderMessage::SourceOpened(path) => {
                self.change(path, message, exists_now);
            },
            ReaderMessage::SourceRecovered(path) => {
                self.change(path, message, exists_now);
            },
            ReaderMessage::SourceReplaced(path) => {
                self.change(path, message, exists_now);
            },
            ReaderMessage::SourceError { path, error } => {
                self.change(path, message, exists_now);
                let mut text = path.clone();
                text.append(": ");
                text.append(error.as_str());
                self.last_error = Some(text);
            },
        }
    }

    /// Changes what is known of a source.
    fn change(&mut self, place: &String, message: &ReaderMessage<String>, exists_now: bool)
        requires
            place_of(*message) is Some,
            can_count(health_at(old(self).sources(), place@)),
        ensures
            final(self).sources() == old(self).sources().insert(
                place@,
                health_after(health_at(old(self).sources(), place@), message@, exists_now)->0,
            ),
            final(self).invalid_records == old(self).invalid_records,
            final(self).last_error == old(self).last_error,
    {
        let ghost before = self.sources();
        let known = self.health.get(place.as_str());
        let mut health = match known {
            Some(health) => SourceHealth {
                state: health.state,
                parse_errors: health.parse_errors,
                rotations: health.rotations,
                detail: health.detail.clone(),
            },
            None => SourceHealth::plain(first_state(message)),
        };
        assert(health@ == known_health(
            health_at(before, place@),
            match message@ {
                MessageModel::InitialLoadStarted { file_size_bytes } => SourceHealthState::Loading,
                MessageModel::SourceReplaced => SourceHealthState::Rotated,
                _ => SourceHealthState::Tailing,
            },
        ));
        match message {
            ReaderMessage::Batch(_) => {},
            ReaderMessage::InitialLoadStarted { path, file_size_bytes } => {
                health.state = SourceHealthState::Loading;
            },
            ReaderMessage::InitialLoadCompleted {
                path,
                file_size_bytes,
                event_count,
                invalid_count,
                duration_nanos,
            } => {
                health.state = SourceHealthState::Tailing;
                if health.parse_errors < *invalid_count {
                    health.parse_errors = *invalid_count;
                }
            },
            ReaderMessage::InvalidRecord { path, line, error } => {
                health.parse_errors = health.parse_errors + 1;
                let mut detail = owned("line ");
                let rest = line_error(*line, error.as_str());
                detail.append(rest.as_str());
                assert(detail@ == "line "@ + decimal_text(*line as nat) + ": "@ + error@);
                health.detail = Some(detail);
            },
            ReaderMessage::SourceOpened(_) => {},
            ReaderMessage::SourceRecovered(_) => {
                health.state = SourceHealthState::Tailing;
                health.detail = Some(owned("Reader recovered after a transient error"));
            },
            ReaderMessage::SourceReplaced(_) => {
                health.state = SourceHealthState::Rotated;
                health.rotations = health.rotations + 1;
                health.detail = Some(owned("File was replaced or truncated; tail restarted"));
            },
            ReaderMessage::SourceError { path, error } => {
                health = SourceHealth {
                    state: if exists_now {
                        SourceHealthState::Error
                    } else {
                        SourceHealthState::Missing
                    },
                    parse_errors: 0,
                    rotations: 0,
                    detail: Some(error.clone()),
                };
            },
        }
        let ghost after = health@;
        self.health.insert(place.clone(), health);
        assert(self.sources() =~= before.insert(place@, after));
    }

    /// Forgets what is known of the sources.
    pub fn clear(&mut self)
        ensures
            final(self).sources() == Map::<Seq<char>, HealthModel>::empty(),
            final(self).invalid_records == 0,
            final(self).last_error is None,
    {
        self.health.clear();
        self.invalid_records = 0;
        self.last_error = None;
        assert(self.sources() =~= Map::<Seq<char>, HealthModel>::empty());
    }

    /// How many sources ask for attention.
    pub fn problems(&self) -> (count: usize)
        ensures
            count == problems_among(self.sources(), self.health.ordered()),
    {
        let ghost places = self.health.ordered();
        let listed = self.health.keys();
        let total: usize = self.health.len();
        let mut count: usize = 0;
        let mut index: usize = 0;
        assert(places.take(0) == Seq::<Seq<char>>::empty());
        while index < total
            invariant
                index <= total,
                count <= index,
                places == self.health.ordered(),
                total == places.len(),
                count == problems_among(self.sources(), places.take(index as int)),
            decreases total - index,
        {
            assert(places.take(index + 1).drop_last() == places.take(index as int));
            let health = self.health.value_at(index);
            assert(self.sources()[places[index as int]] == health@);
            let calm = match health.state {
                SourceHealthState::Tailing => health.parse_errors == 0 && health.rotations == 0,
                _ => false,
            };
            if !calm {
                count = count + 1;
            }
            index += 1;
        }
        assert(places.take(index as int) == places);
        count
    }

    /// What is told of the sources in short: how many are listed, and how many of
    /// those that are known ask for attention.
    pub fn label(&self, listed: usize) -> (label: String)
        ensures
            ({
                let problems = problems_among(self.sources(), self.health.ordered());
                label@ == "Sources "@ + decimal_text(listed as nat) + if problems == 0 {
                    Seq::empty()
                } else {
                    " · "@ + decimal_text(problems) + "!"@
                }
            }),
    {
        let problems: usize = self.problems();
        let mut label = owned("Sources ");
        let count = natural_to_text(listed as u64);
        label.append(count.as_str());
        let ghost first = label@;
        if problems > 0 {
            label.append(" · ");
            let count = natural_to_text(problems as u64);
            label.append(count.as_str());
            label.append("!");
            assert(label@ == first + (" · "@ + decimal_text(problems as nat) + "!"@));
        } else {
            assert(label@ == first + Seq::<char>::empty());
        }
        label
    }
}

/// Whether a source asks for attention: it had errors, was replaced, or is not
/// followed.
pub open spec fn is_problem(health: HealthModel) -> bool {
    health.parse_errors > 0 || health.rotations > 0 || !(health.state is Tailing)
}

/// How many of some sources ask for attention.
pub open spec fn problems_among(
    health: Map<Seq<char>, HealthModel>,
    places: Seq<Seq<char>>,
) -> nat
    decreases places.len(),
{
    if places.len() == 0 {
        0
    } else {
        problems_among(health, places.drop_last()) + if is_problem(health[places.last()]) {
            1nat
        } else {
            0nat
        }
    }
}

/// What happens to one source changes nothing of another.
pub proof fn lemma_sources_stay_apart(
    health: Map<Seq<char>, HealthModel>,
    place: Seq<char>,
    other: Seq<char>,
    message: MessageModel,
    exists_now: bool,
)
    requires
        place != other,
    ensures
        ({
            let after = health_after(health_at(health, place), message, exists_now);
            after is Some ==> health_at(health.insert(place, after->0), other) == health_at(
                health,
                other,
            )
        }),
{
}

/// What messages do to a source that is known. A record that is no event is one error more and
/// is told of; a file that was replaced is one rotation more; neither count is lost when the
/// source is loaded or recovers.
pub proof fn lemma_messages_are_counted(
    known: HealthModel,
    line: u64,
    error: Seq<char>,
    sizes: (u64, u64, u64),
    invalid_count: u64,
    exists_now: bool,
)
    requires
        known.parse_errors < u64::MAX,
        known.rotations < u64::MAX,
    ensures
        ({
            let invalid = health_after(
                Some(known),
                MessageModel::InvalidRecord { line, error },
                exists_now,
            )->0;
            let replaced = health_after(Some(known), MessageModel::SourceReplaced, exists_now)->0;
            let recovered = health_after(Some(known), MessageModel::SourceRecovered, exists_now)->0;
            let started = health_after(
                Some(known),
                MessageModel::InitialLoadStarted { file_size_bytes: sizes.0 },
                exists_now,
            )->0;
            let loaded = health_after(
                Some(known),
                MessageModel::InitialLoadCompleted {
                    file_size_bytes: sizes.0,
                    event_count: sizes.1,
                    invalid_count,
                    duration_nanos: sizes.2,
                },
                exists_now,
            )->0;
            let opened = health_after(Some(known), MessageModel::SourceOpened, exists_now)->0;
            &&& invalid.parse_errors == known.parse_errors + 1
            &&& invalid.rotations == known.rotations
            &&& invalid.state == known.state
            &&& invalid.detail == Some("line "@ + decimal_text(line as nat) + ": "@ + error)
            &&& replaced.rotations == known.rotations + 1
            &&& replaced.parse_errors == known.parse_errors
            &&& replaced.state is Rotated
            &&& recovered.state is Tailing
            &&& recovered.parse_errors == known.parse_errors
            &&& recovered.rotations == known.rotations
            &&& started.state is Loading
            &&& started.parse_errors == known.parse_errors
            &&& started.rotations == known.rotations
            &&& loaded.state is Tailing
            &&& loaded.parse_errors >= known.parse_errors
            &&& loaded.parse_errors >= invalid_count
            &&& loaded.parse_errors == known.parse_errors || loaded.parse_errors == invalid_count
            &&& loaded.rotations == known.rotations
            &&& loaded.detail == known.detail
            &&& opened == known
        }),
{
}

/// A source that cannot be read is missing where its file is, and else in error; the error is
/// told.
pub proof fn lemma_unreadable_source_is_told(
    known: Option<HealthModel>,
    error: Seq<char>,
    exists_now: bool,
)
    ensures
        ({
            let health = health_after(known, MessageModel::SourceError { error }, exists_now)->0;
            &&& exists_now <==> health.state is Error
            &&& !exists_now <==> health.state is Missing
            &&& health.detail == Some(error)
        }),
{
}

/// A source that is followed and had neither errors nor rotations does not ask for attention;
/// any other does.
pub proof fn lemma_calm_sources_are_followed(health: HealthModel)
    ensures
        !is_problem(health) <==> health.state == SourceHealthState::Tailing && health.parse_errors
            == 0 && health.rotations == 0,
{
}

/// The sources that ask for attention are counted, each once.
pub proof fn lemma_problems_are_counted(
    health: Map<Seq<char>, HealthModel>,
    places: Seq<Seq<char>>,
)
    ensures
        problems_among(health, places) == places.filter(
            |place: Seq<char>|
                !(health[place].state == SourceHealthState::Tailing && health[place].parse_errors
                    == 0 && health[place].rotations == 0),
        ).len(),
    decreases places.len(),
{
    reveal(Seq::filter);
    if places.len() > 0 {
        lemma_problems_are_counted(health, places.drop_last());
    }
}

}
