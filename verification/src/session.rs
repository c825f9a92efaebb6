//! Summaries of application sessions, and how two sessions differ.
use vstd::prelude::*;

use crate::event::{correlation_of, status_of, status_text, LogEvent};
use crate::facet::{FacetSelection, FilterState};
use crate::json::option_view;
use crate::level::Level;
use crate::natural::{lemma_two_to_monotone, two_to};
use crate::number::{
    distance, lemma_apart_means_one_or_more, lemma_quotient_is_exact, lemma_sum_is_exact,
    quotient_of, sum_of, Double,
};
use crate::ordered::{text_less, TextMap, TextSet};
use crate::sorting::{comes_before, covers, ranks_below, stable_order, Rank};
use crate::store::{text_view, EventStore};
use crate::text::{owned, same, views};
use crate::time::{elapsed, Timestamp};

verus! {

/// What the events of one name in a session have in common.
#[verifier::ext_equal]
pub struct EventTally {
    pub count: nat,
    pub warnings: nat,
    pub errors: nat,
    pub total: Double,
    pub timed: nat,
    pub longest: Option<Double>,
    pub status: Option<(Timestamp, Seq<char>)>,
}

/// The tally of no events.
pub open spec fn empty_tally() -> EventTally {
    EventTally {
        count: 0,
        warnings: 0,
        errors: 0,
        total: Double { bits: 0 },
        timed: 0,
        longest: None,
        status: None,
    }
}

/// One for a warning.
pub open spec fn warning_weight(level: Level) -> nat {
    if level is Warn {
        1
    } else {
        0
    }
}

/// One for an error or a fatal error.
pub open spec fn error_weight(level: Level) -> nat {
    if level is Error || level is Fatal {
        1
    } else {
        0
    }
}

/// The larger of two durations; a duration that is no number counts for nothing.
pub open spec fn longer(current: Option<Double>, duration: Double) -> Double {
    match current {
        None => duration,
        Some(longest) => if longest.nan() || longest.less(duration) {
            duration
        } else {
            longest
        },
    }
}

/// The last status after an event: the event's, where it has one and is no older
/// than the one before.
pub open spec fn latest_status(
    status: Option<(Timestamp, Seq<char>)>,
    event: LogEvent,
) -> Option<(Timestamp, Seq<char>)> {
    let text = status_of(event.status);
    let newer = match status {
        Some(known) => !event.timestamp.before(known.0),
        None => true,
    };
    if text != "-"@ && newer {
        Some((event.timestamp, text))
    } else {
        status
    }
}

/// A tally after one more event.
pub open spec fn tallied(tally: EventTally, event: LogEvent) -> EventTally {
    EventTally {
        count: tally.count + 1,
        warnings: tally.warnings + warning_weight(event.level),
        errors: tally.errors + error_weight(event.level),
        total: match event.duration_ms {
            Some(duration) => sum_of(tally.total, duration),
            None => tally.total,
        },
        timed: match event.duration_ms {
            Some(_) => tally.timed + 1,
            None => tally.timed,
        },
        longest: match event.duration_ms {
            Some(duration) => Some(longer(tally.longest, duration)),
            None => tally.longest,
        },
        status: latest_status(tally.status, event),
    }
}

/// The view of a status with its time.
pub open spec fn status_view(status: Option<(Timestamp, String)>) -> Option<
    (Timestamp, Seq<char>),
> {
    match status {
        Some(known) => Some((known.0, known.1@)),
        None => None,
    }
}

/// The events of one name in a session.
#[derive(Debug, Clone)]
pub struct SessionEventSummary {
    pub count: usize,
    pub warning_count: usize,
    pub error_count: usize,
    pub duration_total_ms: Double,
    pub duration_count: usize,
    pub max_duration_ms: Option<Double>,
    pub last_status: Option<(Timestamp, String)>,
}

impl View for SessionEventSummary {
    type V = EventTally;

    open spec fn view(&self) -> EventTally {
        EventTally {
            count: self.count as nat,
            warnings: self.warning_count as nat,
            errors: self.error_count as nat,
            total: self.duration_total_ms,
            timed: self.duration_count as nat,
            longest: self.max_duration_ms,
            status: status_view(self.last_status),
        }
    }
}

/// Whether no part of a tally is larger than its count.
pub open spec fn tally_fits(tally: EventTally) -> bool {
    tally.warnings <= tally.count && tally.errors <= tally.count && tally.timed <= tally.count
}

/// The average duration of a tally.
pub open spec fn average_of(tally: EventTally) -> Option<Double> {
    if tally.timed > 0 {
        Some(quotient_of(tally.total, tally.timed as u64))
    } else {
        None
    }
}

/// Takes over the status of an event where it is the last one.
fn update_status(status: &mut Option<(Timestamp, String)>, event: &LogEvent)
    ensures
        status_view(*final(status)) == latest_status(status_view(*old(status)), *event),
{
    let text = status_text(event.status.as_ref());
    if same(text.as_str(), "-") {
        return;
    }
    let newer = match status {
        Some(known) => !event.timestamp.is_before(known.0),
        None => true,
    };
    if newer {
        *status = Some((event.timestamp, text));
    }
}

impl Default for SessionEventSummary {
    fn default() -> (summary: Self)
        ensures
            summary@ == empty_tally(),
    {
        SessionEventSummary {
            count: 0,
            warning_count: 0,
            error_count: 0,
            duration_total_ms: Double { bits: 0 },
            duration_count: 0,
            max_duration_ms: None,
            last_status: None,
        }
    }
}

impl SessionEventSummary {
    /// Counts an event.
    pub fn observe(&mut self, event: &LogEvent)
        requires
            tally_fits(old(self)@),
            old(self)@.count < usize::MAX,
        ensures
            final(self)@ == tallied(old(self)@, *event),
            tally_fits(final(self)@),
    {
        self.count = self.count + 1;
        match event.level {
            Level::Warn => {
                self.warning_count = self.warning_count + 1;
            },
            Level::Error | Level::Fatal => {
                self.error_count = self.error_count + 1;
            },
            Level::Trace | Level::Debug | Level::Info => {},
        }
        if let Some(duration) = event.duration_ms {
            self.duration_total_ms = self.duration_total_ms.plus(duration);
            self.duration_count = self.duration_count + 1;
            self.max_duration_ms = match self.max_duration_ms {
                None => Some(duration),
                Some(longest) => if longest.is_nan() || longest.is_less(duration) {
                    Some(duration)
                } else {
                    Some(longest)
                },
            };
        }
        update_status(&mut self.last_status, event);
    }

    /// The average duration of the events that have one.
    pub fn average_duration_ms(&self) -> (average: Option<Double>)
        ensures
            average == average_of(self@),
    {
        if self.duration_count > 0 {
            Some(self.duration_total_ms.over(self.duration_count as u64))
        } else {
            None
        }
    }

    /// The last status.
    pub fn status(&self) -> (status: Option<&str>)
        ensures
            text_view(status) == match self@.status {
                Some(known) => Some(known.1),
                None => None,
            },
    {
        match &self.last_status {
            Some(known) => Some(known.1.as_str()),
            None => None,
        }
    }
}

/// What the events of one session have in common.
#[verifier::ext_equal]
pub struct SessionModel {
    pub id: Seq<char>,
    pub first: Timestamp,
    pub last: Timestamp,
    pub count: nat,
    pub warnings: nat,
    pub errors: nat,
    pub providers: Set<Seq<char>>,
    pub correlations: Set<Seq<char>>,
    pub events: Map<Seq<char>, EventTally>,
    pub status: Option<(Timestamp, Seq<char>)>,
}

/// The session of an event before any event is counted.
pub open spec fn fresh_session(event: LogEvent) -> SessionModel {
    SessionModel {
        id: event.app_session_id@,
        first: event.timestamp,
        last: event.timestamp,
        count: 0,
        warnings: 0,
        errors: 0,
        providers: Set::empty(),
        correlations: Set::empty(),
        events: Map::empty(),
        status: None,
    }
}

/// The tally of the events of a name.
pub open spec fn tally_of(events: Map<Seq<char>, EventTally>, name: Seq<char>) -> EventTally {
    if events.contains_key(name) {
        events[name]
    } else {
        empty_tally()
    }
}

/// A session after one more event.
pub open spec fn session_observed(session: SessionModel, event: LogEvent) -> SessionModel {
    let correlation = correlation_of(event);
    SessionModel {
        id: session.id,
        first: if event.timestamp.before(session.first) {
            event.timestamp
        } else {
            session.first
        },
        last: if session.last.before(event.timestamp) {
            event.timestamp
        } else {
            session.last
        },
        count: session.count + 1,
        warnings: session.warnings + warning_weight(event.level),
        errors: session.errors + error_weight(event.level),
        providers: match event.provider {
            Some(provider) => if provider@.len() > 0 {
                session.providers.insert(provider@)
            } else {
                session.providers
            },
            None => session.providers,
        },
        correlations: if correlation != event.app_session_id@ && correlation.len() > 0 {
            session.correlations.insert(correlation)
        } else {
            session.correlations
        },
        events: session.events.insert(
            event.event@,
            tallied(tally_of(session.events, event.event@), event),
        ),
        status: latest_status(session.status, event),
    }
}

/// Whether no part of a session is larger than its count.
pub open spec fn session_fits(session: SessionModel) -> bool {
    &&& session.warnings <= session.count
    &&& session.errors <= session.count
    &&& forall|name: Seq<char>| #[trigger]
        session.events.contains_key(name) ==> tally_fits(session.events[name])
            && session.events[name].count <= session.count
}

/// The events of one session.
#[derive(Debug, Clone)]
pub struct SessionSummary {
    pub id: String,
    pub first_timestamp: Timestamp,
    pub last_timestamp: Timestamp,
    pub event_count: usize,
    pub warning_count: usize,
    pub error_count: usize,
    pub providers: TextSet,
    pub correlations: TextSet,
    pub events: TextMap<SessionEventSummary>,
    pub last_status: Option<(Timestamp, String)>,
}

/// The tallies of the summaries of events.
pub open spec fn tallies(events: Map<Seq<char>, SessionEventSummary>) -> Map<
    Seq<char>,
    EventTally,
> {
    events.map_values(|summary: SessionEventSummary| summary@)
}

impl View for SessionSummary {
    type V = SessionModel;

    open spec fn view(&self) -> SessionModel {
        SessionModel {
            id: self.id@,
            first: self.first_timestamp,
            last: self.last_timestamp,
            count: self.event_count as nat,
            warnings: self.warning_count as nat,
            errors: self.error_count as nat,
            providers: self.providers@,
            correlations: self.correlations@,
            events: tallies(self.events@),
            status: status_view(self.last_status),
        }
    }
}

impl SessionSummary {
    /// The summary of a session with one event.
    pub fn new(event: &LogEvent) -> (summary: Self)
        ensures
            summary@ == session_observed(fresh_session(*event), *event),
            session_fits(summary@),
    {
        let mut summary = SessionSummary {
            id: event.app_session_id.clone(),
            first_timestamp: event.timestamp,
            last_timestamp: event.timestamp,
            event_count: 0,
            warning_count: 0,
            error_count: 0,
            providers: TextSet::new(),
            correlations: TextSet::new(),
            events: TextMap::new(),
            last_status: None,
        };
        assert(summary@ == fresh_session(*event));
        summary.observe(event);
        summary
    }

    /// Counts an event.
    pub fn observe(&mut self, event: &LogEvent)
        requires
            session_fits(old(self)@),
            old(self)@.count < usize::MAX,
        ensures
            final(self)@ == session_observed(old(self)@, *event),
            session_fits(final(self)@),
    {
        if event.timestamp.is_before(self.first_timestamp) {
            self.first_timestamp = event.timestamp;
        }
        if self.last_timestamp.is_before(event.timestamp) {
            self.last_timestamp = event.timestamp;
        }
        self.event_count = self.event_count + 1;
        match event.level {
            Level::Warn => {
                self.warning_count = self.warning_count + 1;
            },
            Level::Error | Level::Fatal => {
                self.error_count = self.error_count + 1;
            },
            Level::Trace | Level::Debug | Level::Info => {},
        }
        if let Some(provider) = &event.provider {
            if !provider.as_str().is_empty() {
                self.providers.insert(provider.clone());
            }
        }
        let correlation = event.correlation_id();
        if !same(correlation, event.app_session_id.as_str()) && !correlation.is_empty() {
            self.correlations.insert(owned(correlation));
        }
        update_status(&mut self.last_status, event);
        self.observe_name(event);
        assert(self@.events == session_observed(old(self)@, *event).events);
        assert(self@ == session_observed(old(self)@, *event));
    }

    /// Counts an event among those of its name.
    fn observe_name(&mut self, event: &LogEvent)
        requires
            forall|name: Seq<char>| #[trigger]
                old(self)@.events.contains_key(name) ==> tally_fits(old(self)@.events[name])
                    && old(self)@.events[name].count < usize::MAX,
        ensures
            final(self)@ == (SessionModel {
                events: old(self)@.events.insert(
                    event.event@,
                    tallied(tally_of(old(self)@.events, event.event@), *event),
                ),
                ..old(self)@
            }),
            tally_fits(final(self)@.events[event.event@]),
    {
        let ghost before = self.events@;
        let ghost name = event.event@;
        let mut summary = SessionEventSummary::default();
        match self.events.position(event.event.as_str()) {
            Some(index) => {
                assert(old(self)@.events.contains_key(name));
                self.events.swap_value(index, &mut summary);
                assert(summary == before[name]);
                summary.observe(event);
                let ghost after = summary@;
                self.events.swap_value(index, &mut summary);
                assert(tallies(self.events@) =~= tallies(before).insert(name, after));
            },
            None => {
                assert(!old(self)@.events.contains_key(name));
                summary.observe(event);
                self.events.insert(event.event.clone(), summary);
                assert(tallies(self.events@) =~= tallies(before).insert(name, summary@));
            },
        }
    }

    /// The time from the first event to the last.
    pub fn elapsed_ms(&self) -> (elapsed: i64)
        ensures
            elapsed == span_of(self@),
    {
        let elapsed: i64 = self.last_timestamp.milliseconds_since(self.first_timestamp);
        if elapsed < 0 {
            0
        } else {
            elapsed
        }
    }

    /// The last status.
    pub fn status(&self) -> (status: Option<&str>)
        ensures
            text_view(status) == match self@.status {
                Some(known) => Some(known.1),
                None => None,
            },
    {
        match &self.last_status {
            Some(known) => Some(known.1.as_str()),
            None => None,
        }
    }
}

/// The milliseconds from the first event of a session to the last.
pub open spec fn span_of(session: SessionModel) -> int {
    let span = elapsed(
        session.first.seconds(),
        session.first.nanos(),
        session.last.seconds(),
        session.last.nanos(),
    );
    if span < 0 {
        0
    } else {
        span
    }
}

/// Sessions after one more event.
pub open spec fn observed(
    sessions: Map<Seq<char>, SessionModel>,
    event: LogEvent,
) -> Map<Seq<char>, SessionModel> {
    let id = event.app_session_id@;
    let session = if sessions.contains_key(id) {
        sessions[id]
    } else {
        fresh_session(event)
    };
    sessions.insert(id, session_observed(session, event))
}

/// Sessions after more events.
pub open spec fn observed_all(
    sessions: Map<Seq<char>, SessionModel>,
    events: Seq<LogEvent>,
) -> Map<Seq<char>, SessionModel>
    decreases events.len(),
{
    if events.len() == 0 {
        sessions
    } else {
        observed(observed_all(sessions, events.drop_last()), events.last())
    }
}

/// Whether sessions are kept under their identifiers and can take more events.
pub open spec fn sessions_fit(sessions: Map<Seq<char>, SessionModel>, more: nat) -> bool {
    forall|id: Seq<char>| #[trigger]
        sessions.contains_key(id) ==> sessions[id].id == id && session_fits(sessions[id])
            && sessions[id].count + more <= usize::MAX
}

/// The views of the summaries of sessions.
pub open spec fn session_views(summaries: Map<Seq<char>, SessionSummary>) -> Map<
    Seq<char>,
    SessionModel,
> {
    summaries.map_values(|summary: SessionSummary| summary@)
}

/// Counts an event among the sessions.
fn observe_event(summaries: &mut TextMap<SessionSummary>, event: &LogEvent, Ghost(more): Ghost<nat>)
    requires
        sessions_fit(session_views(old(summaries)@), more + 1),
        more < usize::MAX,
    ensures
        session_views(final(summaries)@) == observed(session_views(old(summaries)@), *event),
        sessions_fit(session_views(final(summaries)@), more),
{
    let ghost before = session_views(summaries@);
    let ghost id = event.app_session_id@;
    match summaries.position(event.app_session_id.as_str()) {
        Some(index) => {
            assert(before.contains_key(id));
            let mut summary = SessionSummary::new(event);
            summaries.swap_value(index, &mut summary);
            assert(summary@ == before[id]);
            summary.observe(event);
            let ghost after = summary@;
            summaries.swap_value(index, &mut summary);
            assert(session_views(summaries@) =~= before.insert(id, after));
        },
        None => {
            assert(!before.contains_key(id));
            let summary = SessionSummary::new(event);
            summaries.insert(event.app_session_id.clone(), summary);
            assert(session_views(summaries@) =~= before.insert(id, summary@));
        },
    }
}

/// The sessions of the events, and the two that are chosen to be compared.
#[derive(Debug)]
pub struct SessionExplorerState {
    pub open: bool,
    pub summaries: TextMap<SessionSummary>,
    pub compare_a: Option<String>,
    pub compare_b: Option<String>,
}

/// What is left of a choice where only some sessions remain.
pub open spec fn retained(
    choice: Option<Seq<char>>,
    sessions: Map<Seq<char>, SessionModel>,
) -> Option<Seq<char>> {
    match choice {
        Some(id) => if sessions.contains_key(id) {
            Some(id)
        } else {
            None
        },
        None => None,
    }
}

impl Default for SessionExplorerState {
    fn default() -> (state: Self)
        ensures
            !state.open,
            state.sessions() == Map::<Seq<char>, SessionModel>::empty(),
            state.compare_a is None,
            state.compare_b is None,
    {
        let state = SessionExplorerState {
            open: false,
            summaries: TextMap::new(),
            compare_a: None,
            compare_b: None,
        };
        assert(state.sessions() =~= Map::<Seq<char>, SessionModel>::empty());
        state
    }
}

impl SessionExplorerState {
    /// The sessions by their identifiers.
    pub open spec fn sessions(self) -> Map<Seq<char>, SessionModel> {
        session_views(self.summaries@)
    }

    /// Whether the sessions can count some events more.
    pub fn has_room(&self, more: usize) -> (result: bool)
        requires
            sessions_fit(self.sessions(), 0),
        ensures
            result == sessions_fit(self.sessions(), more as nat),
    {
        let names = self.summaries.keys();
        let ghost order = self.summaries.ordered();
        let count: usize = self.summaries.len();
        let mut index: usize = 0;
        while index < count
            invariant
                index <= count,
                count == order.len(),
                order == self.summaries.ordered(),
                order.to_set() == self.summaries@.dom(),
                sessions_fit(self.sessions(), 0),
                forall|i: int|
                    0 <= i < index ==> self.sessions()[#[trigger] order[i]].count + more
                        <= usize::MAX,
            decreases count - index,
        {
            let summary = self.summaries.value_at(index);
            assert(order.to_set().contains(order[index as int]));
            assert(self.sessions()[order[index as int]] == summary@);
            if summary.event_count > usize::MAX - more {
                assert(self.sessions().contains_key(order[index as int]));
                return false;
            }
            index += 1;
        }
        assert forall|id: Seq<char>| #[trigger] self.sessions().contains_key(
            id,
        ) implies self.sessions()[id].count + more <= usize::MAX by {
            assert(order.to_set().contains(id));
            let i = choose|i: int| 0 <= i < order.len() && order[i] == id;
            assert(order[i] == id);
        }
        true
    }

    /// Counts events.
    pub fn observe_many(&mut self, events: &Vec<LogEvent>)
        requires
            sessions_fit(old(self).sessions(), events@.len()),
        ensures
            final(self).sessions() == observed_all(old(self).sessions(), events@),
            sessions_fit(final(self).sessions(), 0),
            final(self).open == old(self).open,
            final(self).compare_a == old(self).compare_a,
            final(self).compare_b == old(self).compare_b,
    {
        let ghost before = self.sessions();
        let mut index: usize = 0;
        assert(events@.take(0) == Seq::<LogEvent>::empty());
        while index < events.len()
            invariant
                index <= events.len(),
                self.sessions() == observed_all(before, events@.take(index as int)),
                sessions_fit(self.sessions(), (events@.len() - index) as nat),
                self.open == old(self).open,
                self.compare_a == old(self).compare_a,
                self.compare_b == old(self).compare_b,
            decreases events.len() - index,
        {
            observe_event(
                &mut self.summaries,
                &events[index],
                Ghost((events@.len() - index - 1) as nat),
            );
            assert(events@.take(index + 1).drop_last() == events@.take(index as int));
            index += 1;
        }
        assert(events@.take(index as int) == events@);
    }

    /// Counts the events of a store anew. A choice whose session is gone is
    /// dropped.
    pub fn rebuild(&mut self, store: &EventStore)
        ensures
            ({
                let sessions = observed_all(Map::empty(), store@.events);
                &&& final(self).sessions() == sessions
                &&& sessions_fit(sessions, 0)
                &&& final(self).open == old(self).open
                &&& option_view(final(self).compare_a) == retained(
                    option_view(old(self).compare_a),
                    sessions,
                )
                &&& option_view(final(self).compare_b) == retained(
                    option_view(old(self).compare_b),
                    sessions,
                )
            }),
    {
        self.summaries.clear();
        let count: usize = store.len();
        let ghost events = store@.events;
        let mut index: usize = 0;
        assert(events.take(0) == Seq::<LogEvent>::empty());
        assert(self.sessions() =~= Map::<Seq<char>, SessionModel>::empty());
        while index < count
            invariant
                index <= count,
                events == store@.events,
                count == events.len(),
                self.sessions() == observed_all(Map::empty(), events.take(index as int)),
                sessions_fit(self.sessions(), (count - index) as nat),
                self.open == old(self).open,
                self.compare_a == old(self).compare_a,
                self.compare_b == old(self).compare_b,
            decreases count - index,
        {
            if let Some(event) = store.get(index) {
                observe_event(&mut self.summaries, event, Ghost((count - index - 1) as nat));
            }
            assert(events.take(index + 1).drop_last() == events.take(index as int));
            index += 1;
        }
        assert(events.take(index as int) == events);
        self.retain_valid_selection();
    }

    /// Forgets the sessions and the choices.
    pub fn reset(&mut self)
        ensures
            final(self).sessions() == Map::<Seq<char>, SessionModel>::empty(),
            final(self).compare_a is None,
            final(self).compare_b is None,
            final(self).open == old(self).open,
    {
        self.summaries.clear();
        self.compare_a = None;
        self.compare_b = None;
        assert(self.sessions() =~= Map::<Seq<char>, SessionModel>::empty());
    }

    /// Drops the choices whose sessions are gone.
    pub fn retain_valid_selection(&mut self)
        ensures
            final(self).sessions() == old(self).sessions(),
            final(self).open == old(self).open,
            option_view(final(self).compare_a) == retained(
                option_view(old(self).compare_a),
                old(self).sessions(),
            ),
            option_view(final(self).compare_b) == retained(
                option_view(old(self).compare_b),
                old(self).sessions(),
            ),
    {
        let drop_first = match &self.compare_a {
            Some(id) => self.summaries.position(id.as_str()).is_none(),
            None => false,
        };
        if drop_first {
            self.compare_a = None;
        }
        let drop_second = match &self.compare_b {
            Some(id) => self.summaries.position(id.as_str()).is_none(),
            None => false,
        };
        if drop_second {
            self.compare_b = None;
        }
    }
}

/// Whether one session stands above another: the one that ended later, and of two
/// that ended together the one whose identifier is smaller.
pub open spec fn stands_above(first: SessionModel, second: SessionModel) -> bool {
    second.last.before(first.last) || (!first.last.before(second.last) && text_less(
        first.id,
        second.id,
    ))
}

/// A number that orders instants from the last to the first.
fn instant_rank(instant: Timestamp) -> (rank: i128)
    ensures
        rank == -(instant.seconds() * 0x1_0000_0000 + instant.nanos()),
{
    let (seconds, nanos) = instant.parts();
    -((seconds as i128) * 0x1_0000_0000 + nanos as i128)
}

/// The order of the numbers of two instants is the order of the instants.
proof fn lemma_instant_rank(left: Timestamp, right: Timestamp)
    requires
        0 <= left.nanos() < 0x1_0000_0000,
        0 <= right.nanos() < 0x1_0000_0000,
    ensures
        left.seconds() * 0x1_0000_0000 + left.nanos() < right.seconds() * 0x1_0000_0000
            + right.nanos() <==> left.before(right),
{
}

impl SessionExplorerState {
    /// The summaries, the session that ended last first.
    pub fn sorted_summaries(&self) -> (sorted: Vec<&SessionSummary>)
        requires
            sessions_fit(self.sessions(), 0),
        ensures
            sorted@.len() == self.sessions().dom().len(),
            forall|i: int|
                0 <= i < sorted@.len() ==> self.sessions().contains_key(
                    (#[trigger] sorted@[i]).id@,
                ) && sorted@[i]@ == self.sessions()[sorted@[i].id@],
            forall|id: Seq<char>| #[trigger]
                self.sessions().contains_key(id) ==> exists|i: int|
                    0 <= i < sorted@.len() && (#[trigger] sorted@[i]).id@ == id,
            forall|i: int, j: int|
                0 <= i < j < sorted@.len() ==> stands_above(
                    (#[trigger] sorted@[i])@,
                    (#[trigger] sorted@[j])@,
                ),
    {
        let ghost names = self.summaries.ordered();
        let ghost sessions = self.sessions();
        let listed = self.summaries.keys();
        let count: usize = self.summaries.len();
        assert(sessions.dom() =~= self.summaries@.dom());
        let mut keys: Vec<Rank> = Vec::new();
        let mut index: usize = 0;
        while index < count
            invariant
                index <= count,
                count == names.len(),
                names == self.summaries.ordered(),
                sessions == self.sessions(),
                keys@.len() == index,
                forall|i: int|
                    0 <= i < index ==> (#[trigger] keys@[i]).first == -(
                    sessions[names[i]].last.seconds() * 0x1_0000_0000
                        + sessions[names[i]].last.nanos()) && keys@[i].second == 0
                        && sessions.contains_key(names[i]) && 0 <= sessions[names[i]].last.nanos()
                        < 0x1_0000_0000,
            decreases count - index,
        {
            let summary = self.summaries.value_at(index);
            assert(sessions[names[index as int]] == summary@);
            let parts = summary.last_timestamp.parts();
            keys.push(Rank { first: instant_rank(summary.last_timestamp), second: 0 });
            index += 1;
        }
        let order = stable_order(&keys);
        let mut sorted: Vec<&SessionSummary> = Vec::new();
        let mut place: usize = 0;
        while place < order.len()
            invariant
                place <= order.len(),
                order@.len() == count,
                count == names.len(),
                names == self.summaries.ordered(),
                sessions == self.sessions(),
                sessions_fit(sessions, 0),
                covers(order@, 0, count as int),
                sorted@.len() == place,
                forall|i: int|
                    0 <= i < place ==> (#[trigger] sorted@[i])@ == sessions[names[order@[i] as int]]
                        && sorted@[i].id@ == names[order@[i] as int] && sessions.contains_key(
                        names[order@[i] as int],
                    ),
            decreases order.len() - place,
        {
            let source: usize = order[place];
            let summary = self.summaries.value_at(source);
            assert(sessions[names[source as int]] == summary@);
            assert(sessions.contains_key(names[source as int]));
            sorted.push(summary);
            place += 1;
        }
        proof {
            assert forall|id: Seq<char>| #[trigger]
                self.sessions().contains_key(id) implies exists|i: int|
                0 <= i < sorted@.len() && (#[trigger] sorted@[i]).id@ == id by {
                assert(names.to_set().contains(id));
                let k = choose|k: int| 0 <= k < names.len() && names[k] == id;
                assert(order@.contains(k as usize));
                let i = choose|i: int| 0 <= i < order@.len() && order@[i] == k as usize;
                assert(sorted@[i].id@ == id);
            }
            assert forall|i: int, j: int| 0 <= i < j < sorted@.len() implies stands_above(
                (#[trigger] sorted@[i])@,
                (#[trigger] sorted@[j])@,
            ) by {
                let first = order@[i] as int;
                let second = order@[j] as int;
                assert(comes_before(keys@, first, second));
                assert(keys@[first].second == 0);
                assert(keys@[second].second == 0);
                lemma_instant_rank(sessions[names[first]].last, sessions[names[second]].last);
                lemma_instant_rank(sessions[names[second]].last, sessions[names[first]].last);
            }
        }
        sorted
    }

    /// When each session started.
    pub fn session_start_times(&self) -> (starts: TextMap<Timestamp>)
        ensures
            starts@ == self.sessions().map_values(|session: SessionModel| session.first),
    {
        let ghost names = self.summaries.ordered();
        let listed = self.summaries.keys();
        let count: usize = self.summaries.len();
        let mut starts: TextMap<Timestamp> = TextMap::new();
        let mut index: usize = 0;
        while index < count
            invariant
                index <= count,
                count == names.len(),
                names == self.summaries.ordered(),
                forall|i: int|
                    0 <= i < index ==> starts@.contains_key(#[trigger] names[i])
                        && starts@[names[i]] == self.summaries@[names[i]].first_timestamp,
                forall|id: Seq<char>| #[trigger]
                    starts@.contains_key(id) ==> self.summaries@.contains_key(id) && starts@[id]
                        == self.summaries@[id].first_timestamp,
            decreases count - index,
        {
            let id = self.summaries.key_at(index);
            let summary = self.summaries.value_at(index);
            starts.insert(id.clone(), summary.first_timestamp);
            index += 1;
        }
        proof {
            let wanted = self.sessions().map_values(|session: SessionModel| session.first);
            assert forall|id: Seq<char>| wanted.contains_key(id) implies starts@.contains_key(
                id,
            ) by {
                assert(names.to_set().contains(id));
                let k = choose|k: int| 0 <= k < names.len() && names[k] == id;
                assert(starts@.contains_key(names[k]));
            }
            assert(starts@ =~= wanted);
        }
        starts
    }
}

/// How the events of one name differ between two sessions.
#[derive(Debug, Clone, PartialEq)]
pub struct SessionComparisonRow {
    pub event: String,
    pub count_a: usize,
    pub count_b: usize,
    pub warnings_a: usize,
    pub warnings_b: usize,
    pub errors_a: usize,
    pub errors_b: usize,
    pub average_duration_a: Option<Double>,
    pub average_duration_b: Option<Double>,
    pub max_duration_a: Option<Double>,
    pub max_duration_b: Option<Double>,
    pub status_a: Option<String>,
    pub status_b: Option<String>,
}

/// Whether one of two durations is missing, or the two are a millisecond or more
/// apart.
pub open spec fn durations_differ(left: Option<Double>, right: Option<Double>) -> bool {
    match (left, right) {
        (Some(left), Some(right)) => left.apart(right),
        (None, None) => false,
        _ => true,
    }
}

/// Whether one of two durations is missing, or the two are a millisecond or more
/// apart.
pub fn duration_changed(left: Option<Double>, right: Option<Double>) -> (changed: bool)
    ensures
        changed == durations_differ(left, right),
{
    match (left, right) {
        (Some(left), Some(right)) => left.is_apart(right),
        (None, None) => false,
        _ => true,
    }
}

/// Whether a row shows a difference.
pub open spec fn row_differs(row: SessionComparisonRow) -> bool {
    ||| row.count_a != row.count_b
    ||| row.warnings_a != row.warnings_b
    ||| row.errors_a != row.errors_b
    ||| option_view(row.status_a) != option_view(row.status_b)
    ||| durations_differ(row.average_duration_a, row.average_duration_b)
    ||| durations_differ(row.max_duration_a, row.max_duration_b)
}

/// How far two counts are apart.
pub open spec fn gap(left: usize, right: usize) -> int {
    if left < right {
        right - left
    } else {
        left - right
    }
}

/// Whether only one of the sessions has the events.
pub open spec fn one_sided(row: SessionComparisonRow) -> bool {
    row.count_a == 0 || row.count_b == 0
}

/// Whether one row matters more than another: where only one session has the
/// events, then by the errors, then by the events.
pub open spec fn matters_more(first: SessionComparisonRow, second: SessionComparisonRow) -> bool {
    if one_sided(first) != one_sided(second) {
        one_sided(first)
    } else if gap(first.errors_a, first.errors_b) != gap(second.errors_a, second.errors_b) {
        gap(first.errors_a, first.errors_b) > gap(second.errors_a, second.errors_b)
    } else {
        gap(first.count_a, first.count_b) > gap(second.count_a, second.count_b)
    }
}

/// Whether one row stands above another: the rows that show a difference first,
/// then those that matter more, then by their names.
pub open spec fn row_above(first: SessionComparisonRow, second: SessionComparisonRow) -> bool {
    if row_differs(first) != row_differs(second) {
        row_differs(first)
    } else if matters_more(first, second) || matters_more(second, first) {
        matters_more(first, second)
    } else {
        text_less(first.event@, second.event@)
    }
}

/// Whether two optional texts are the same.
fn same_options(left: &Option<String>, right: &Option<String>) -> (result: bool)
    ensures
        result == (option_view(*left) == option_view(*right)),
{
    match (left, right) {
        (Some(left), Some(right)) => same(left.as_str(), right.as_str()),
        (None, None) => true,
        _ => false,
    }
}

/// How far two counts are apart.
fn count_gap(left: usize, right: usize) -> (result: usize)
    ensures
        result == gap(left, right),
{
    if left < right {
        right - left
    } else {
        left - right
    }
}

impl SessionComparisonRow {
    /// Whether the row shows a difference.
    pub fn differs(&self) -> (result: bool)
        ensures
            result == row_differs(*self),
    {
        self.count_a != self.count_b || self.warnings_a != self.warnings_b || self.errors_a
            != self.errors_b || !same_options(&self.status_a, &self.status_b) || duration_changed(
            self.average_duration_a,
            self.average_duration_b,
        ) || duration_changed(self.max_duration_a, self.max_duration_b)
    }

    /// What the row matters by: whether only one session has the events, and how
    /// far the errors and the events are apart.
    pub fn significance(&self) -> (result: (bool, usize, usize))
        ensures
            result.0 == one_sided(*self),
            result.1 == gap(self.errors_a, self.errors_b),
            result.2 == gap(self.count_a, self.count_b),
    {
        (
            self.count_a == 0 || self.count_b == 0,
            count_gap(self.errors_a, self.errors_b),
            count_gap(self.count_a, self.count_b),
        )
    }

    /// A rank that is the smaller the further above the row stands.
    fn rank(&self) -> (rank: Rank)
        ensures
            rank == rank_of(*self),
    {
        let (only_one, errors, events) = self.significance();
        let mut first: i128 = -(errors as i128);
        if only_one {
            first = first - 0x2_0000_0000_0000_0000;
        }
        if self.differs() {
            first = first - 0x4_0000_0000_0000_0000;
        }
        Rank { first, second: -(events as i128) }
    }
}

/// A rank that is the smaller the further above a row stands.
spec fn rank_of(row: SessionComparisonRow) -> Rank {
    let sided: int = if one_sided(row) {
        0x2_0000_0000_0000_0000
    } else {
        0
    };
    let different: int = if row_differs(row) {
        0x4_0000_0000_0000_0000
    } else {
        0
    };
    Rank {
        first: (-gap(row.errors_a, row.errors_b) - sided - different) as i128,
        second: (-gap(row.count_a, row.count_b)) as i128,
    }
}

/// Whether a row holds the tallies of the events of its name in two sessions.
pub open spec fn row_tells(
    left: SessionModel,
    right: SessionModel,
    row: SessionComparisonRow,
) -> bool {
    let first = tally_of(left.events, row.event@);
    let second = tally_of(right.events, row.event@);
    &&& row.count_a == first.count
    &&& row.count_b == second.count
    &&& row.warnings_a == first.warnings
    &&& row.warnings_b == second.warnings
    &&& row.errors_a == first.errors
    &&& row.errors_b == second.errors
    &&& row.average_duration_a == average_of(first)
    &&& row.average_duration_b == average_of(second)
    &&& row.max_duration_a == first.longest
    &&& row.max_duration_b == second.longest
    &&& option_view(row.status_a) == status_part(first.status)
    &&& option_view(row.status_b) == status_part(second.status)
}

/// The text of a status with its time.
pub open spec fn status_part(status: Option<(Timestamp, Seq<char>)>) -> Option<Seq<char>> {
    match status {
        Some(known) => Some(known.1),
        None => None,
    }
}

/// The figures of the events of a name in one session.
struct Figures {
    count: usize,
    warnings: usize,
    errors: usize,
    average: Option<Double>,
    longest: Option<Double>,
    status: Option<String>,
}

/// Whether figures are those of a tally.
spec fn figures_tell(figures: Figures, tally: EventTally) -> bool {
    &&& figures.count == tally.count
    &&& figures.warnings == tally.warnings
    &&& figures.errors == tally.errors
    &&& figures.average == average_of(tally)
    &&& figures.longest == tally.longest
    &&& option_view(figures.status) == status_part(tally.status)
}

impl SessionSummary {
    /// The figures of the events of a name.
    fn figures(&self, name: &str) -> (figures: Figures)
        ensures
            figures_tell(figures, tally_of(self@.events, name@)),
    {
        match self.events.get(name) {
            Some(summary) => {
                assert(self@.events.contains_key(name@));
                assert(self@.events[name@] == summary@);
                Figures {
                    count: summary.count,
                    warnings: summary.warning_count,
                    errors: summary.error_count,
                    average: summary.average_duration_ms(),
                    longest: summary.max_duration_ms,
                    status: match summary.status() {
                        Some(text) => Some(owned(text)),
                        None => None,
                    },
                }
            },
            None => {
                assert(!self@.events.contains_key(name@));
                Figures {
                    count: 0,
                    warnings: 0,
                    errors: 0,
                    average: None,
                    longest: None,
                    status: None,
                }
            },
        }
    }
}

/// The row of the events of a name.
fn comparison_row(left: &SessionSummary, right: &SessionSummary, name: &str) -> (row:
    SessionComparisonRow)
    ensures
        row.event@ == name@,
        row_tells(left@, right@, row),
{
    let first = left.figures(name);
    let second = right.figures(name);
    SessionComparisonRow {
        event: owned(name),
        count_a: first.count,
        count_b: second.count,
        warnings_a: first.warnings,
        warnings_b: second.warnings,
        errors_a: first.errors,
        errors_b: second.errors,
        average_duration_a: first.average,
        average_duration_b: second.average,
        max_duration_a: first.longest,
        max_duration_b: second.longest,
        status_a: first.status,
        status_b: second.status,
    }
}

/// Rows of the same name that tell of the same sessions have the same rank.
proof fn lemma_rank_is_told(
    left: SessionModel,
    right: SessionModel,
    first: SessionComparisonRow,
    second: SessionComparisonRow,
)
    requires
        first.event@ == second.event@,
        row_tells(left, right, first),
        row_tells(left, right, second),
    ensures
        rank_of(first) == rank_of(second),
{
}

/// The order of the ranks of two rows is the order of the rows.
proof fn lemma_rank_orders(first: SessionComparisonRow, second: SessionComparisonRow)
    requires
        ranks_below(rank_of(first), rank_of(second)) || (rank_of(first) == rank_of(second)
            && text_less(first.event@, second.event@)),
    ensures
        row_above(first, second),
{
}

/// Adds the names of the events of a session to a set.
fn add_names(names: &mut TextSet, events: &TextMap<SessionEventSummary>)
    ensures
        final(names)@ == old(names)@.union(events@.dom()),
{
    let listed = events.keys();
    let ghost order = events.ordered();
    let ghost before = names@;
    let mut index: usize = 0;
    while index < listed.len()
        invariant
            index <= listed.len(),
            views(listed@) == order,
            order.to_set() == events@.dom(),
            before.subset_of(names@),
            forall|i: int| 0 <= i < index ==> names@.contains(#[trigger] order[i]),
            forall|name: Seq<char>| #[trigger]
                names@.contains(name) ==> before.contains(name) || events@.contains_key(name),
        decreases listed.len() - index,
    {
        assert(order[index as int] == listed@[index as int]@);
        assert(order.to_set().contains(order[index as int]));
        names.insert(listed[index].clone());
        index += 1;
    }
    proof {
        assert forall|name: Seq<char>| events@.contains_key(name) implies names@.contains(name) by {
            assert(order.to_set().contains(name));
            let k = choose|k: int| 0 <= k < order.len() && order[k] == name;
            assert(names@.contains(order[k]));
        }
        assert(names@ =~= before.union(events@.dom()));
    }
}

/// The names of the events of two sessions.
pub open spec fn event_names(left: SessionModel, right: SessionModel) -> Set<Seq<char>> {
    left.events.dom().union(right.events.dom())
}

/// Whether rows tell how two sessions differ: one row for each name of an event of
/// either, in their order.
pub open spec fn is_comparison(
    left: SessionModel,
    right: SessionModel,
    rows: Seq<SessionComparisonRow>,
) -> bool {
    &&& forall|i: int|
        0 <= i < rows.len() ==> row_tells(left, right, #[trigger] rows[i]) && event_names(
            left,
            right,
        ).contains(rows[i].event@)
    &&& forall|name: Seq<char>| #[trigger]
        event_names(left, right).contains(name) ==> exists|i: int|
            0 <= i < rows.len() && (#[trigger] rows[i]).event@ == name
    &&& forall|i: int, j: int|
        0 <= i < j < rows.len() ==> row_above(#[trigger] rows[i], #[trigger] rows[j])
}

/// How two sessions differ.
pub fn compare_sessions(left: &SessionSummary, right: &SessionSummary) -> (rows: Vec<
    SessionComparisonRow,
>)
    ensures
        is_comparison(left@, right@, rows@),
{
    let mut set = TextSet::new();
    add_names(&mut set, &left.events);
    add_names(&mut set, &right.events);
    assert(set@ =~= event_names(left@, right@));
    let names = set.items();
    let ghost order = set.ordered();
    let count: usize = names.len();
    let mut keys: Vec<Rank> = Vec::new();
    let ghost mut plain: Seq<SessionComparisonRow> = Seq::empty();
    let mut index: usize = 0;
    while index < count
        invariant
            index <= count,
            count == names@.len(),
            views(names@) == order,
            keys@.len() == index,
            plain.len() == index,
            forall|i: int|
                0 <= i < index ==> row_tells(left@, right@, #[trigger] plain[i])
                    && plain[i].event@ == order[i] && keys@[i] == rank_of(plain[i]),
        decreases count - index,
    {
        assert(order[index as int] == names@[index as int]@);
        let row = comparison_row(left, right, names[index].as_str());
        keys.push(row.rank());
        proof {
            plain = plain.push(row);
        }
        index += 1;
    }
    let places = stable_order(&keys);
    let mut rows: Vec<SessionComparisonRow> = Vec::new();
    let mut place: usize = 0;
    while place < places.len()
        invariant
            place <= places.len(),
            covers(places@, 0, count as int),
            count == names@.len(),
            views(names@) == order,
            rows@.len() == place,
            forall|i: int|
                0 <= i < place ==> row_tells(left@, right@, #[trigger] rows@[i])
                    && rows@[i].event@ == order[places@[i] as int],
        decreases places.len() - place,
    {
        let source: usize = places[place];
        assert(order[source as int] == names@[source as int]@);
        rows.push(comparison_row(left, right, names[source].as_str()));
        place += 1;
    }
    proof {
        assert forall|i: int| 0 <= i < rows@.len() implies row_tells(
            left@,
            right@,
            #[trigger] rows@[i],
        ) && event_names(left@, right@).contains(rows@[i].event@) by {
            assert(order.to_set().contains(order[places@[i] as int]));
        }
        assert forall|name: Seq<char>| #[trigger]
            event_names(left@, right@).contains(name) implies exists|i: int|
            0 <= i < rows@.len() && (#[trigger] rows@[i]).event@ == name by {
            assert(order.to_set().contains(name));
            let k = choose|k: int| 0 <= k < order.len() && order[k] == name;
            assert(places@.contains(k as usize));
            let i = choose|i: int| 0 <= i < places@.len() && places@[i] == k as usize;
            assert(rows@[i].event@ == name);
        }
        assert forall|i: int, j: int| 0 <= i < j < rows@.len() implies row_above(
            #[trigger] rows@[i],
            #[trigger] rows@[j],
        ) by {
            let first = places@[i] as int;
            let second = places@[j] as int;
            assert(comes_before(keys@, first, second));
            lemma_rank_is_told(left@, right@, rows@[i], plain[first]);
            lemma_rank_is_told(left@, right@, rows@[j], plain[second]);
            lemma_rank_orders(rows@[i], rows@[j]);
        }
    }
    rows
}

/// The choice after a session was asked for in one of the two places: the same
/// session again takes it away, and the session of the other place changes
/// nothing.
pub open spec fn toggled_choice(
    current: Option<Seq<char>>,
    requested: Seq<char>,
    other: Option<Seq<char>>,
) -> Option<Seq<char>> {
    if current == Some(requested) {
        None
    } else if other == Some(requested) {
        current
    } else {
        Some(requested)
    }
}

/// The choice after a session was asked for in one of the two places.
pub fn toggle_session_choice(current: Option<String>, requested: &str, other: Option<&str>) -> (
choice: Option<String>)
    ensures
        option_view(choice) == toggled_choice(option_view(current), requested@, text_view(other)),
{
    if let Some(id) = &current {
        if same(id.as_str(), requested) {
            return None;
        }
    }
    if let Some(id) = other {
        if same(id, requested) {
            return current;
        }
    }
    Some(owned(requested))
}

/// Two different choices stay different.
pub proof fn lemma_choices_stay_different(
    current: Option<Seq<char>>,
    requested: Seq<char>,
    other: Option<Seq<char>>,
)
    requires
        current is Some && other is Some ==> current != other,
    ensures
        ({
            let choice = toggled_choice(current, requested, other);
            choice is Some && other is Some ==> choice != other
        }),
{
}

/// Asking for a session twice that is not chosen elsewhere leaves no choice.
pub proof fn lemma_choosing_twice_clears(
    current: Option<Seq<char>>,
    requested: Seq<char>,
    other: Option<Seq<char>>,
)
    requires
        current != Some(requested),
        other != Some(requested),
    ensures
        toggled_choice(toggled_choice(current, requested, other), requested, other) is None,
{
}

/// Makes a filter show one session alone.
pub fn apply_session_filter(filter: &mut FilterState, session_id: String)
    ensures
        final(filter).text@ == Seq::<char>::empty(),
        final(filter).minimum_level is None,
        final(filter).correlation is None,
        final(filter).facets@.dom() == Set::<Seq<char>>::empty().insert("app_session_id"@),
        final(filter).facets@["app_session_id"@].included@ == Set::<Seq<char>>::empty().insert(
            session_id@,
        ),
        final(filter).facets@["app_session_id"@].excluded@ == Set::<Seq<char>>::empty(),
{
    filter.clear();
    let mut selection = FacetSelection::default();
    selection.include_only(session_id);
    filter.facets.insert(owned("app_session_id"), selection);
    assert(filter.facets@.dom() =~= Set::<Seq<char>>::empty().insert("app_session_id"@));
}

/// Counting events in two parts is counting them all.
pub proof fn lemma_observed_in_parts(
    sessions: Map<Seq<char>, SessionModel>,
    first: Seq<LogEvent>,
    second: Seq<LogEvent>,
)
    ensures
        observed_all(observed_all(sessions, first), second) == observed_all(
            sessions,
            first + second,
        ),
    decreases second.len(),
{
    if second.len() == 0 {
        assert(first + second == first);
    } else {
        assert((first + second).drop_last() == first + second.drop_last());
        lemma_observed_in_parts(sessions, first, second.drop_last());
    }
}

/// The events of a session.
pub open spec fn events_of(events: Seq<LogEvent>, id: Seq<char>) -> Seq<LogEvent> {
    events.filter(|event: LogEvent| event.app_session_id@ == id)
}

/// How many events are warnings.
pub open spec fn warnings_in(events: Seq<LogEvent>) -> nat
    decreases events.len(),
{
    if events.len() == 0 {
        0
    } else {
        warnings_in(events.drop_last()) + warning_weight(events.last().level)
    }
}

/// How many events are errors.
pub open spec fn errors_in(events: Seq<LogEvent>) -> nat
    decreases events.len(),
{
    if events.len() == 0 {
        0
    } else {
        errors_in(events.drop_last()) + error_weight(events.last().level)
    }
}

/// Each session that events tell of, and no other, is summarised: it counts its
/// events, its warnings and its errors, and none of its events lies outside its
/// time.
pub proof fn lemma_sessions_count_their_events(events: Seq<LogEvent>, id: Seq<char>)
    ensures
        ({
            let sessions = observed_all(Map::empty(), events);
            let own = events_of(events, id);
            &&& sessions.contains_key(id) <==> own.len() > 0
            &&& own.len() > 0 ==> {
                &&& sessions[id].id == id
                &&& sessions[id].count == own.len()
                &&& sessions[id].warnings == warnings_in(own)
                &&& sessions[id].errors == errors_in(own)
                &&& forall|i: int|
                    0 <= i < own.len() ==> !(#[trigger] own[i]).timestamp.before(sessions[id].first)
                        && !sessions[id].last.before(own[i].timestamp)
            }
        }),
    decreases events.len(),
{
    let test = |event: LogEvent| event.app_session_id@ == id;
    reveal(Seq::filter);
    reveal_with_fuel(warnings_in, 2);
    reveal_with_fuel(errors_in, 2);
    if events.len() > 0 {
        let before = events.drop_last();
        lemma_sessions_count_their_events(before, id);
        let own = events_of(events, id);
        if test(events.last()) {
            assert(own == events_of(before, id).push(events.last()));
            assert(own.drop_last() == events_of(before, id));
            let sessions = observed_all(Map::empty(), events);
            let known = observed_all(Map::empty(), before);
            assert(sessions == observed(known, events.last()));
            assert forall|i: int| 0 <= i < own.len() implies !(
            #[trigger] own[i]).timestamp.before(sessions[id].first) && !sessions[id].last.before(
                own[i].timestamp,
            ) by {
                if i < own.len() - 1 {
                    assert(own[i] == events_of(before, id)[i]);
                }
            }
        } else {
            assert(own == events_of(before, id));
        }
    }
}

/// The summary of a session: of its first event, with the others counted in order.
pub open spec fn summarized(events: Seq<LogEvent>) -> SessionModel
    recommends
        events.len() > 0,
    decreases events.len(),
{
    if events.len() <= 1 {
        session_observed(fresh_session(events[0]), events[0])
    } else {
        session_observed(summarized(events.drop_last()), events.last())
    }
}

/// Whether an event has a status.
pub open spec fn has_status(event: LogEvent) -> bool {
    status_of(event.status) != "-"@
}

/// Whether events lie at pairwise different times.
pub open spec fn distinct_times(events: Seq<LogEvent>) -> bool {
    forall|i: int, j: int|
        0 <= i < events.len() && 0 <= j < events.len() && i != j ==> (
        #[trigger] events[i]).timestamp.before((#[trigger] events[j]).timestamp)
            || events[j].timestamp.before(events[i].timestamp)
}

/// Whether an event names a provider.
pub open spec fn names_provider(event: LogEvent, provider: Seq<char>) -> bool {
    provider.len() > 0 && option_view(event.provider) == Some(provider)
}

/// Whether an event has a correlation that is not that of its session.
pub open spec fn names_correlation(event: LogEvent, correlation: Seq<char>) -> bool {
    correlation.len() > 0 && correlation == correlation_of(event) && correlation
        != event.app_session_id@
}

/// Whether a session is what its events make it, whatever their order: it counts them,
/// reaches from the earliest to the latest, holds their providers and correlations, and
/// has the status of the latest event with one.
pub open spec fn sums_up(session: SessionModel, events: Seq<LogEvent>) -> bool {
    &&& session.count == events.len()
    &&& session.warnings == warnings_in(events)
    &&& session.errors == errors_in(events)
    &&& exists|i: int| 0 <= i < events.len() && (#[trigger] events[i]).timestamp == session.first
    &&& exists|i: int| 0 <= i < events.len() && (#[trigger] events[i]).timestamp == session.last
    &&& forall|i: int|
        0 <= i < events.len() ==> !(#[trigger] events[i]).timestamp.before(session.first)
            && !session.last.before(events[i].timestamp)
    &&& forall|provider: Seq<char>| #[trigger]
        session.providers.contains(provider) <==> exists|i: int|
            0 <= i < events.len() && names_provider(#[trigger] events[i], provider)
    &&& forall|correlation: Seq<char>| #[trigger]
        session.correlations.contains(correlation) <==> exists|i: int|
            0 <= i < events.len() && names_correlation(#[trigger] events[i], correlation)
    &&& match session.status {
        Some(known) => {
            &&& exists|i: int|
                0 <= i < events.len() && has_status(#[trigger] events[i]) && known == (
                    events[i].timestamp,
                    status_of(events[i].status),
                )
            &&& forall|i: int|
                0 <= i < events.len() && has_status(#[trigger] events[i]) ==> !known.0.before(
                    events[i].timestamp,
                )
        },
        None => forall|i: int| 0 <= i < events.len() ==> !has_status(#[trigger] events[i]),
    }
}

/// The parts of a summary after one more event.
proof fn lemma_sums_up_one_more(before: SessionModel, events: Seq<LogEvent>, event: LogEvent)
    requires
        events.len() > 0 ==> sums_up(before, events),
        events.len() == 0 ==> before == fresh_session(event),
    ensures
        sums_up(session_observed(before, event), events.push(event)),
{
    let all = events.push(event);
    let after = session_observed(before, event);
    let last = events.len() as int;
    reveal_with_fuel(warnings_in, 2);
    reveal_with_fuel(errors_in, 2);
    assert(all.drop_last() == events);
    assert(all[last] == event);
    assert forall|i: int| 0 <= i < last implies #[trigger] all[i] == events[i] by {}
    if events.len() > 0 {
        let first = choose|i: int|
            0 <= i < events.len() && (#[trigger] events[i]).timestamp == before.first;
        assert(all[first].timestamp == before.first);
        let latest = choose|i: int|
            0 <= i < events.len() && (#[trigger] events[i]).timestamp == before.last;
        assert(all[latest].timestamp == before.last);
    }
    assert(exists|i: int| 0 <= i < all.len() && (#[trigger] all[i]).timestamp == after.first) by {
        assert(all[last].timestamp == event.timestamp);
    }
    assert(exists|i: int| 0 <= i < all.len() && (#[trigger] all[i]).timestamp == after.last) by {
        assert(all[last].timestamp == event.timestamp);
    }
    assert forall|i: int| 0 <= i < all.len() implies !(#[trigger] all[i]).timestamp.before(
        after.first,
    ) && !after.last.before(all[i].timestamp) by {
        if i < last {
            assert(all[i] == events[i]);
        }
    }
    assert forall|provider: Seq<char>| #[trigger]
        after.providers.contains(provider) <==> exists|i: int|
            0 <= i < all.len() && names_provider(#[trigger] all[i], provider) by {
        if after.providers.contains(provider) {
            if before.providers.contains(provider) {
                let i = choose|i: int|
                    0 <= i < events.len() && names_provider(#[trigger] events[i], provider);
                assert(names_provider(all[i], provider));
            } else {
                assert(names_provider(all[last], provider));
            }
        }
        if exists|i: int| 0 <= i < all.len() && names_provider(#[trigger] all[i], provider) {
            let i = choose|i: int|
                0 <= i < all.len() && names_provider(#[trigger] all[i], provider);
            if i < last {
                assert(names_provider(events[i], provider));
                assert(before.providers.contains(provider));
            }
        }
    }
    assert forall|correlation: Seq<char>| #[trigger]
        after.correlations.contains(correlation) <==> exists|i: int|
            0 <= i < all.len() && names_correlation(#[trigger] all[i], correlation) by {
        if after.correlations.contains(correlation) {
            if before.correlations.contains(correlation) {
                let i = choose|i: int|
                    0 <= i < events.len() && names_correlation(#[trigger] events[i], correlation);
                assert(names_correlation(all[i], correlation));
            } else {
                assert(names_correlation(all[last], correlation));
            }
        }
        if exists|i: int| 0 <= i < all.len() && names_correlation(#[trigger] all[i], correlation) {
            let i = choose|i: int|
                0 <= i < all.len() && names_correlation(#[trigger] all[i], correlation);
            if i < last {
                assert(names_correlation(events[i], correlation));
                assert(before.correlations.contains(correlation));
            }
        }
    }
    if let Some(known) = after.status {
        if known == (event.timestamp, status_of(event.status)) && has_status(event) {
            assert(has_status(all[last]));
        } else {
            let i = choose|i: int|
                0 <= i < events.len() && has_status(#[trigger] events[i]) && before.status->0 == (
                    events[i].timestamp,
                    status_of(events[i].status),
                );
            assert(has_status(all[i]));
        }
        assert forall|i: int|
            0 <= i < all.len() && has_status(#[trigger] all[i]) implies !known.0.before(
            all[i].timestamp,
        ) by {
            if i < last {
                assert(has_status(events[i]));
            }
        }
    } else {
        assert forall|i: int| 0 <= i < all.len() implies !has_status(#[trigger] all[i]) by {
            if i < last {
                assert(!has_status(events[i]));
            }
        }
    }
}

/// A session is what its events make it.
pub proof fn lemma_session_sums_up_its_events(events: Seq<LogEvent>)
    requires
        events.len() > 0,
    ensures
        sums_up(summarized(events), events),
        summarized(events).id == events[0].app_session_id@,
    decreases events.len(),
{
    if events.len() == 1 {
        assert(events == Seq::<LogEvent>::empty().push(events[0]));
        lemma_sums_up_one_more(fresh_session(events[0]), Seq::empty(), events[0]);
    } else {
        lemma_session_sums_up_its_events(events.drop_last());
        assert(events == events.drop_last().push(events.last()));
        lemma_sums_up_one_more(summarized(events.drop_last()), events.drop_last(), events.last());
    }
}

/// Counts do not depend on where an event stands.
proof fn lemma_counts_without(events: Seq<LogEvent>, place: int)
    requires
        0 <= place < events.len(),
    ensures
        warnings_in(events) == warnings_in(events.remove(place)) + warning_weight(
            events[place].level,
        ),
        errors_in(events) == errors_in(events.remove(place)) + error_weight(events[place].level),
    decreases events.len(),
{
    let rest = events.remove(place);
    if place == events.len() - 1 {
        assert(rest == events.drop_last());
    } else {
        lemma_counts_without(events.drop_last(), place);
        assert(rest.drop_last() == events.drop_last().remove(place));
        assert(rest.last() == events.last());
    }
}

/// The same events in another order have as many warnings and errors.
proof fn lemma_counts_in_any_order(first: Seq<LogEvent>, second: Seq<LogEvent>)
    requires
        first.to_multiset() == second.to_multiset(),
    ensures
        first.len() == second.len(),
        warnings_in(first) == warnings_in(second),
        errors_in(first) == errors_in(second),
    decreases first.len(),
{
    first.to_multiset_ensures();
    second.to_multiset_ensures();
    if first.len() > 0 {
        let event = first.last();
        assert(first.contains(event));
        assert(second.to_multiset().count(event) > 0);
        let place = second.index_of(event);
        assert(second[place] == event);
        lemma_counts_without(second, place);
        let shorter = first.drop_last();
        assert(first.remove(first.len() - 1) == shorter);
        assert(shorter.to_multiset() == first.to_multiset().remove(event));
        assert(second.remove(place).to_multiset() == second.to_multiset().remove(event));
        lemma_counts_in_any_order(shorter, second.remove(place));
    }
}

/// The summary of a session does not depend on the order in which its events come: the
/// same events, at different times, give the same counts, providers and correlations,
/// the same first and last instant and so the same time between them, and the same
/// status.
pub proof fn lemma_order_of_events_does_not_matter(first: Seq<LogEvent>, second: Seq<LogEvent>)
    requires
        first.len() > 0,
        first.to_multiset() == second.to_multiset(),
        distinct_times(first),
    ensures
        ({
            let left = summarized(first);
            let right = summarized(second);
            &&& left.count == right.count
            &&& left.warnings == right.warnings
            &&& left.errors == right.errors
            &&& left.providers == right.providers
            &&& left.correlations == right.correlations
            &&& left.first == right.first
            &&& left.last == right.last
            &&& span_of(left) == span_of(right)
            &&& left.status == right.status
        }),
{
    lemma_counts_in_any_order(first, second);
    lemma_session_sums_up_its_events(first);
    lemma_session_sums_up_its_events(second);
    lemma_among_reordered(first, second);
    lemma_among_reordered(second, first);
    let left = summarized(first);
    let right = summarized(second);
    lemma_same_names(first, second, left, right);
    lemma_same_instants(first, second, left, right);
    lemma_same_status(first, second, left, right);
}

/// Whether events are among others.
spec fn are_among(events: Seq<LogEvent>, others: Seq<LogEvent>) -> bool {
    forall|i: int| 0 <= i < events.len() ==> others.contains(#[trigger] events[i])
}

proof fn lemma_among_reordered(events: Seq<LogEvent>, others: Seq<LogEvent>)
    requires
        events.to_multiset() == others.to_multiset(),
    ensures
        are_among(events, others),
{
    events.to_multiset_ensures();
    others.to_multiset_ensures();
    assert forall|i: int| 0 <= i < events.len() implies others.contains(#[trigger] events[i]) by {
        assert(events.contains(events[i]));
        assert(others.to_multiset().count(events[i]) > 0);
    }
}

proof fn lemma_same_names(
    first: Seq<LogEvent>,
    second: Seq<LogEvent>,
    left: SessionModel,
    right: SessionModel,
)
    requires
        sums_up(left, first),
        sums_up(right, second),
        are_among(second, first),
        are_among(first, second),
    ensures
        left.providers == right.providers,
        left.correlations == right.correlations,
{
    assert forall|provider: Seq<char>| left.providers.contains(
        provider,
    ) == right.providers.contains(provider) by {
        if left.providers.contains(provider) {
            let i = choose|i: int|
                0 <= i < first.len() && names_provider(#[trigger] first[i], provider);
            let j = choose|j: int| 0 <= j < second.len() && second[j] == first[i];
            assert(names_provider(second[j], provider));
        }
        if right.providers.contains(provider) {
            let i = choose|i: int|
                0 <= i < second.len() && names_provider(#[trigger] second[i], provider);
            let j = choose|j: int| 0 <= j < first.len() && first[j] == second[i];
            assert(names_provider(first[j], provider));
        }
    }
    assert(left.providers =~= right.providers);
    assert forall|correlation: Seq<char>| left.correlations.contains(
        correlation,
    ) == right.correlations.contains(correlation) by {
        if left.correlations.contains(correlation) {
            let i = choose|i: int|
                0 <= i < first.len() && names_correlation(#[trigger] first[i], correlation);
            let j = choose|j: int| 0 <= j < second.len() && second[j] == first[i];
            assert(names_correlation(second[j], correlation));
        }
        if right.correlations.contains(correlation) {
            let i = choose|i: int|
                0 <= i < second.len() && names_correlation(#[trigger] second[i], correlation);
            let j = choose|j: int| 0 <= j < first.len() && first[j] == second[i];
            assert(names_correlation(first[j], correlation));
        }
    }
    assert(left.correlations =~= right.correlations);
}

proof fn lemma_same_instants(
    first: Seq<LogEvent>,
    second: Seq<LogEvent>,
    left: SessionModel,
    right: SessionModel,
)
    requires
        distinct_times(first),
        sums_up(left, first),
        sums_up(right, second),
        are_among(second, first),
        are_among(first, second),
    ensures
        left.first == right.first,
        left.last == right.last,
{
    let a = choose|i: int| 0 <= i < first.len() && (#[trigger] first[i]).timestamp == left.first;
    let b = choose|i: int| 0 <= i < second.len() && (#[trigger] second[i]).timestamp == right.first;
    let c = choose|j: int| 0 <= j < first.len() && first[j] == second[b];
    let d = choose|j: int| 0 <= j < second.len() && second[j] == first[a];
    assert(!first[c].timestamp.before(left.first));
    assert(!second[d].timestamp.before(right.first));
    assert(a == c);
    let a = choose|i: int| 0 <= i < first.len() && (#[trigger] first[i]).timestamp == left.last;
    let b = choose|i: int| 0 <= i < second.len() && (#[trigger] second[i]).timestamp == right.last;
    let c = choose|j: int| 0 <= j < first.len() && first[j] == second[b];
    let d = choose|j: int| 0 <= j < second.len() && second[j] == first[a];
    assert(!left.last.before(first[c].timestamp));
    assert(!right.last.before(second[d].timestamp));
    assert(a == c);
}

proof fn lemma_same_status(
    first: Seq<LogEvent>,
    second: Seq<LogEvent>,
    left: SessionModel,
    right: SessionModel,
)
    requires
        distinct_times(first),
        sums_up(left, first),
        sums_up(right, second),
        are_among(second, first),
        are_among(first, second),
    ensures
        left.status == right.status,
{
    if left.status is Some {
        let a = choose|i: int|
            0 <= i < first.len() && has_status(#[trigger] first[i]) && left.status->0 == (
                first[i].timestamp,
                status_of(first[i].status),
            );
        let d = choose|j: int| 0 <= j < second.len() && second[j] == first[a];
        assert(has_status(second[d]));
        assert(right.status is Some);
        let b = choose|i: int|
            0 <= i < second.len() && has_status(#[trigger] second[i]) && right.status->0 == (
                second[i].timestamp,
                status_of(second[i].status),
            );
        let c = choose|j: int| 0 <= j < first.len() && first[j] == second[b];
        assert(has_status(first[c]));
        assert(a == c);
    } else if right.status is Some {
        let b = choose|i: int|
            0 <= i < second.len() && has_status(#[trigger] second[i]) && right.status->0 == (
                second[i].timestamp,
                status_of(second[i].status),
            );
        let c = choose|j: int| 0 <= j < first.len() && first[j] == second[b];
        assert(has_status(first[c]));
    }
}

/// Whether two durations are known not to differ: both are missing, or both are there and
/// less than a millisecond apart.
pub open spec fn alike(left: Option<Double>, right: Option<Double>) -> bool {
    match (left, right) {
        (Some(left), Some(right)) => distance(left.value(), right.value()) < two_to(1074),
        (None, None) => true,
        _ => false,
    }
}

/// Whether a duration, if it is there, is a finite number.
pub open spec fn is_ordinary(duration: Option<Double>) -> bool {
    duration matches Some(duration) ==> duration.finite()
}

/// Whether the durations of a row, where they are there, are finite numbers.
pub open spec fn has_ordinary_durations(row: SessionComparisonRow) -> bool {
    &&& is_ordinary(row.average_duration_a)
    &&& is_ordinary(row.average_duration_b)
    &&& is_ordinary(row.max_duration_a)
    &&& is_ordinary(row.max_duration_b)
}

/// A row shows no difference only where both sessions have as many of the events, of the
/// warnings and of the errors, the same last status, and durations that are less than a
/// millisecond apart. Where all of these are the same, it shows none.
pub proof fn lemma_no_difference_means_alike(row: SessionComparisonRow)
    requires
        has_ordinary_durations(row),
    ensures
        !row_differs(row) ==> {
            &&& row.count_a == row.count_b
            &&& row.warnings_a == row.warnings_b
            &&& row.errors_a == row.errors_b
            &&& option_view(row.status_a) == option_view(row.status_b)
            &&& alike(row.average_duration_a, row.average_duration_b)
            &&& alike(row.max_duration_a, row.max_duration_b)
        },
        row.count_a == row.count_b && row.warnings_a == row.warnings_b && row.errors_a
            == row.errors_b && option_view(row.status_a) == option_view(row.status_b)
            && row.average_duration_a == row.average_duration_b && row.max_duration_a
            == row.max_duration_b ==> !row_differs(row),
{
    lemma_two_to_monotone(1021, 1074);
    if let (Some(left), Some(right)) = (row.average_duration_a, row.average_duration_b) {
        lemma_apart_means_one_or_more(left, right);
    }
    if let (Some(left), Some(right)) = (row.max_duration_a, row.max_duration_b) {
        lemma_apart_means_one_or_more(left, right);
    }
}

/// Durations differ where only one is there or they are a millisecond or more apart, and not
/// where they are at most half a millisecond apart.
pub proof fn lemma_durations_differ_by_a_millisecond(left: Option<Double>, right: Option<Double>)
    requires
        is_ordinary(left),
        is_ordinary(right),
    ensures
        left is Some != right is Some ==> durations_differ(left, right),
        left is None && right is None ==> !durations_differ(left, right),
        left is Some && right is Some && distance(left->0.value(), right->0.value()) >= two_to(1074)
            ==> durations_differ(left, right),
        left is Some && right is Some && 2 * distance(left->0.value(), right->0.value()) <= two_to(
            1074,
        ) ==> !durations_differ(left, right),
{
    if let (Some(left), Some(right)) = (left, right) {
        lemma_apart_means_one_or_more(left, right);
        lemma_two_to_monotone(1021, 1073);
        assert(two_to(1074) == 2 * two_to(1073));
    }
}

/// How two sessions are laid side by side: a row tells the figures of the events of its name
/// in either. A row with a difference stands above one without; of two with one, that of
/// which a session has no events at all stands above, then that whose errors, and then that
/// whose events differ by more, and else the one whose name comes first.
pub proof fn lemma_differences_come_first(
    left: SessionModel,
    right: SessionModel,
    rows: Seq<SessionComparisonRow>,
    upper: int,
    lower: int,
)
    requires
        is_comparison(left, right, rows),
        0 <= upper < lower < rows.len(),
        has_ordinary_durations(rows[upper]),
        has_ordinary_durations(rows[lower]),
    ensures
        ({
            let (first, second) = (rows[upper], rows[lower]);
            let first_lacks = first.count_a == 0 || first.count_b == 0;
            let second_lacks = second.count_a == 0 || second.count_b == 0;
            let first_errors = distance(first.errors_a as int, first.errors_b as int);
            let second_errors = distance(second.errors_a as int, second.errors_b as int);
            let first_events = distance(first.count_a as int, first.count_b as int);
            let second_events = distance(second.count_a as int, second.count_b as int);
            let second_changed = second.count_a != second.count_b || second.warnings_a
                != second.warnings_b || second.errors_a != second.errors_b || option_view(
                second.status_a,
            ) != option_view(second.status_b) || !alike(
                second.average_duration_a,
                second.average_duration_b,
            ) || !alike(second.max_duration_a, second.max_duration_b);
            let first_same = first.count_a == first.count_b && first.warnings_a
                == first.warnings_b && first.errors_a == first.errors_b && option_view(
                first.status_a,
            ) == option_view(first.status_b) && first.average_duration_a
                == first.average_duration_b && first.max_duration_a == first.max_duration_b;
            &&& !(first_same && second_changed)
            &&& row_differs(first) == row_differs(second) ==> {
                &&& second_lacks ==> first_lacks
                &&& first_lacks == second_lacks ==> first_errors >= second_errors
                &&& first_lacks == second_lacks && first_errors == second_errors ==> first_events
                    >= second_events
                &&& first_lacks == second_lacks && first_errors == second_errors && first_events
                    == second_events ==> text_less(first.event@, second.event@)
            }
        }),
{
    lemma_no_difference_means_alike(rows[upper]);
    lemma_no_difference_means_alike(rows[lower]);
    assert(row_above(rows[upper], rows[lower]));
}

/// A session that is kept among others is the summary of its own events.
pub proof fn lemma_session_is_of_its_events(events: Seq<LogEvent>, id: Seq<char>)
    requires
        events_of(events, id).len() > 0,
    ensures
        observed_all(Map::empty(), events).contains_key(id),
        observed_all(Map::empty(), events)[id] == summarized(events_of(events, id)),
    decreases events.len(),
{
    reveal(Seq::filter);
    let before = events.drop_last();
    let last = events.last();
    let own = events_of(events, id);
    lemma_sessions_count_their_events(before, id);
    let known = observed_all(Map::empty(), before);
    if last.app_session_id@ == id {
        assert(own == events_of(before, id).push(last));
        assert(own.drop_last() == events_of(before, id));
        if events_of(before, id).len() > 0 {
            lemma_session_is_of_its_events(before, id);
        } else {
            assert(own.len() == 1);
            assert(own[0] == last);
            assert(!known.contains_key(id));
        }
    } else {
        assert(own == events_of(before, id));
        lemma_session_is_of_its_events(before, id);
    }
}

/// Counting by a weight of one is counting those that pass a test.
proof fn lemma_counted_levels(events: Seq<LogEvent>)
    ensures
        warnings_in(events) == events.filter(|event: LogEvent| event.level is Warn).len(),
        errors_in(events) == events.filter(
            |event: LogEvent| event.level is Error || event.level is Fatal,
        ).len(),
    decreases events.len(),
{
    reveal(Seq::filter);
    if events.len() > 0 {
        lemma_counted_levels(events.drop_last());
    }
}

/// The warnings of a session are its events of that level, and its errors those that are
/// errors or fatal.
pub proof fn lemma_session_counts_levels(events: Seq<LogEvent>)
    requires
        events.len() > 0,
    ensures
        summarized(events).count == events.len(),
        summarized(events).warnings == events.filter(
            |event: LogEvent| event.level is Warn,
        ).len(),
        summarized(events).errors == events.filter(
            |event: LogEvent| event.level is Error || event.level is Fatal,
        ).len(),
{
    lemma_session_sums_up_its_events(events);
    lemma_counted_levels(events);
}

/// The events of a name.
pub open spec fn named(events: Seq<LogEvent>, name: Seq<char>) -> Seq<LogEvent> {
    events.filter(|event: LogEvent| event.event@ == name)
}

/// A tally after some events.
spec fn tally_after(events: Seq<LogEvent>) -> EventTally
    decreases events.len(),
{
    if events.len() == 0 {
        empty_tally()
    } else {
        tallied(tally_after(events.drop_last()), events.last())
    }
}

proof fn lemma_tally_of_name(events: Seq<LogEvent>, name: Seq<char>)
    requires
        events.len() > 0,
    ensures
        tally_of(summarized(events).events, name) == tally_after(named(events, name)),
        summarized(events).events.contains_key(name) <==> named(events, name).len() > 0,
    decreases events.len(),
{
    reveal(Seq::filter);
    let before = events.drop_last();
    let last = events.last();
    let own = named(events, name);
    if last.event@ == name {
        assert(own == named(before, name).push(last));
        assert(own.drop_last() == named(before, name));
    } else {
        assert(own == named(before, name));
    }
    if events.len() > 1 {
        lemma_tally_of_name(before, name);
    } else {
        assert(before.len() == 0);
        assert(named(before, name).len() == 0);
    }
}

proof fn lemma_tally_counts(events: Seq<LogEvent>)
    ensures
        ({
            let tally = tally_after(events);
            &&& tally.count == events.len()
            &&& tally.warnings == events.filter(|event: LogEvent| event.level is Warn).len()
            &&& tally.errors == events.filter(
                |event: LogEvent| event.level is Error || event.level is Fatal,
            ).len()
            &&& tally.timed == events.filter(|event: LogEvent| event.duration_ms is Some).len()
            &&& tally.longest is Some <==> tally.timed > 0
        }),
    decreases events.len(),
{
    reveal(Seq::filter);
    if events.len() > 0 {
        lemma_tally_counts(events.drop_last());
    }
}

/// The events of a name in a session are counted: all of them, the warnings, the errors and
/// fatal errors, and those that took some time, of which there is an average where there is
/// one at all.
pub proof fn lemma_tallies_count_events(events: Seq<LogEvent>, name: Seq<char>)
    requires
        events.len() > 0,
    ensures
        ({
            let own = named(events, name);
            let tally = tally_of(summarized(events).events, name);
            &&& summarized(events).events.contains_key(name) <==> own.len() > 0
            &&& tally.count == own.len()
            &&& tally.warnings == own.filter(|event: LogEvent| event.level is Warn).len()
            &&& tally.errors == own.filter(
                |event: LogEvent| event.level is Error || event.level is Fatal,
            ).len()
            &&& tally.timed == own.filter(|event: LogEvent| event.duration_ms is Some).len()
            &&& average_of(tally) is Some <==> tally.timed > 0
            &&& tally.longest is Some <==> tally.timed > 0
        }),
{
    lemma_tally_of_name(events, name);
    lemma_tally_counts(named(events, name));
}

proof fn lemma_longest_after(events: Seq<LogEvent>)
    requires
        forall|i: int|
            0 <= i < events.len() ==> ((#[trigger] events[i]).duration_ms matches Some(duration)
                ==> !duration.nan()),
    ensures
        match tally_after(events).longest {
            Some(longest) => {
                &&& !longest.nan()
                &&& exists|i: int|
                    0 <= i < events.len() && (#[trigger] events[i]).duration_ms == Some(longest)
                &&& forall|i: int|
                    0 <= i < events.len() ==> ((#[trigger] events[i]).duration_ms matches Some(
                        duration,
                    ) ==> duration.value() <= longest.value())
            },
            None => forall|i: int|
                0 <= i < events.len() ==> (#[trigger] events[i]).duration_ms is None,
        },
    decreases events.len(),
{
    if events.len() > 0 {
        let before = events.drop_last();
        let last = events.last();
        assert forall|i: int| 0 <= i < before.len() implies ((
        #[trigger] before[i]).duration_ms matches Some(duration) ==> !duration.nan()) by {
            assert(before[i] == events[i]);
        }
        lemma_longest_after(before);
        assert(last == events[events.len() - 1]);
        let known = tally_after(before).longest;
        match tally_after(events).longest {
            Some(longest) => {
                if last.duration_ms is Some && Some(longest) == last.duration_ms {
                    assert(events[events.len() - 1].duration_ms == Some(longest));
                } else {
                    assert(known == Some(longest));
                    let place = choose|i: int|
                        0 <= i < before.len() && (#[trigger] before[i]).duration_ms == Some(longest);
                    assert(events[place].duration_ms == Some(longest));
                }
                assert forall|i: int| 0 <= i < events.len() implies ((
                #[trigger] events[i]).duration_ms matches Some(duration) ==> duration.value()
                    <= longest.value()) by {
                    if i < before.len() {
                        assert(before[i] == events[i]);
                    }
                }
            },
            None => {
                assert forall|i: int| 0 <= i < events.len() implies (
                #[trigger] events[i]).duration_ms is None by {
                    if i < before.len() {
                        assert(before[i] == events[i]);
                    }
                }
            },
        }
    }
}

/// The longest duration of the events of a name is that of one of them, and none took
/// longer.
pub proof fn lemma_longest_is_the_longest(events: Seq<LogEvent>, name: Seq<char>)
    requires
        events.len() > 0,
        forall|i: int|
            0 <= i < named(events, name).len() ==> ((
            #[trigger] named(events, name)[i]).duration_ms matches Some(duration)
                ==> !duration.nan()),
    ensures
        ({
            let own = named(events, name);
            match tally_of(summarized(events).events, name).longest {
                Some(longest) => {
                    &&& exists|i: int|
                        0 <= i < own.len() && (#[trigger] own[i]).duration_ms == Some(longest)
                    &&& forall|i: int|
                        0 <= i < own.len() ==> ((#[trigger] own[i]).duration_ms matches Some(
                            duration,
                        ) ==> duration.value() <= longest.value())
                },
                None => forall|i: int|
                    0 <= i < own.len() ==> (#[trigger] own[i]).duration_ms is None,
            }
        }),
{
    lemma_tally_of_name(events, name);
    lemma_longest_after(named(events, name));
}

/// The sum of the milliseconds that events took, where each of them took a whole number of
/// them.
pub open spec fn total_millis(events: Seq<LogEvent>, millis: spec_fn(LogEvent) -> nat) -> nat
    decreases events.len(),
{
    if events.len() == 0 {
        0
    } else {
        total_millis(events.drop_last(), millis) + (if events.last().duration_ms is Some {
            millis(events.last())
        } else {
            0
        })
    }
}

/// Whether an event, if it took some time, took a whole number of milliseconds.
pub open spec fn takes_whole_millis(event: LogEvent, millis: spec_fn(LogEvent) -> nat) -> bool {
    event.duration_ms matches Some(duration) ==> duration.finite() && duration.value() == millis(
        event,
    ) * two_to(1074)
}

proof fn lemma_total_after(events: Seq<LogEvent>, millis: spec_fn(LogEvent) -> nat)
    requires
        forall|i: int| 0 <= i < events.len() ==> takes_whole_millis(#[trigger] events[i], millis),
        total_millis(events, millis) < 0x20_0000_0000_0000,
    ensures
        tally_after(events).total.finite(),
        tally_after(events).total.value() == total_millis(events, millis) * two_to(1074),
    decreases events.len(),
{
    if events.len() == 0 {
        assert(0 * two_to(1074) == 0) by (nonlinear_arith);
        assert(tally_after(events).total.value() == 0);
    } else {
        let before = events.drop_last();
        assert forall|i: int| 0 <= i < before.len() implies takes_whole_millis(
            #[trigger] before[i],
            millis,
        ) by {
            assert(takes_whole_millis(events[i], millis));
        }
        lemma_total_after(before, millis);
        assert(takes_whole_millis(events[events.len() - 1], millis));
        if let Some(duration) = events.last().duration_ms {
            lemma_sum_is_exact(
                tally_after(before).total,
                duration,
                total_millis(before, millis) as int,
                millis(events.last()) as int,
            );
        }
    }
}

/// The average duration of the events of a name is what they took together, shared out among
/// those that took some time: exactly so where all of this is in whole milliseconds.
pub proof fn lemma_average_shares_out_the_total(
    events: Seq<LogEvent>,
    name: Seq<char>,
    millis: spec_fn(LogEvent) -> nat,
    average: nat,
)
    requires
        events.len() > 0,
        forall|i: int|
            0 <= i < named(events, name).len() ==> takes_whole_millis(
                #[trigger] named(events, name)[i],
                millis,
            ),
        ({
            let own = named(events, name);
            let timed = own.filter(|event: LogEvent| event.duration_ms is Some).len();
            &&& 0 < timed < 0x20_0000_0000_0000
            &&& total_millis(own, millis) == average * timed
            &&& total_millis(own, millis) < 0x20_0000_0000_0000
        }),
    ensures
        average_of(tally_of(summarized(events).events, name)) matches Some(duration)
            && duration.finite() && duration.value() == average * two_to(1074),
{
    let own = named(events, name);
    let tally = tally_of(summarized(events).events, name);
    let timed = own.filter(|event: LogEvent| event.duration_ms is Some).len();
    lemma_tally_of_name(events, name);
    lemma_tally_counts(own);
    lemma_total_after(own, millis);
    assert(average <= average * timed) by (nonlinear_arith)
        requires
            timed > 0,
    ;
    lemma_quotient_is_exact(tally.total, timed as u64, average);
}

/// What asking for a session does to a choice: it becomes the choice, unless it is the
/// choice already, which is then taken away, or is chosen in the other place, where it stays.
pub proof fn lemma_asking_chooses(
    current: Option<Seq<char>>,
    requested: Seq<char>,
    other: Option<Seq<char>>,
)
    ensures
        current == Some(requested) <==> toggled_choice(current, requested, other) is None && (
        current is Some || other != Some(requested)),
        toggled_choice(current, requested, other) == Some(requested) <==> current != Some(requested)
            && other != Some(requested),
        other == Some(requested) && current != other ==> toggled_choice(current, requested, other)
            == current,
{
}

/// Sessions are listed from the one that ended last to the one that ended first; those that
/// ended together stand in the order of their identifiers.
pub proof fn lemma_latest_session_stands_first(first: SessionModel, second: SessionModel)
    ensures
        second.last.before(first.last) ==> stands_above(first, second),
        first.last.before(second.last) ==> !stands_above(first, second),
        !first.last.before(second.last) && !second.last.before(first.last) ==> (stands_above(
            first,
            second,
        ) <==> text_less(first.id, second.id)),
{
}

/// A choice of a session is kept while the session is there.
pub proof fn lemma_choices_of_known_sessions_stay(
    choice: Seq<char>,
    sessions: Map<Seq<char>, SessionModel>,
)
    ensures
        sessions.contains_key(choice) ==> retained(Some(choice), sessions) == Some(choice),
        !sessions.contains_key(choice) ==> retained(Some(choice), sessions) is None,
        retained(None, sessions) is None,
{
}

/// A status is that of the latest event that has one: an earlier event does not change it, and
/// an event without a status does not either.
pub proof fn lemma_status_is_of_latest(
    known: (Timestamp, Seq<char>),
    event: LogEvent,
)
    ensures
        event.status is None ==> latest_status(Some(known), event) == Some(known),
        event.timestamp.before(known.0) ==> latest_status(Some(known), event) == Some(known),
        !event.timestamp.before(known.0) && status_of(event.status) != "-"@ ==> latest_status(
            Some(known),
            event,
        ) == Some((event.timestamp, status_of(event.status))),
        status_of(event.status) != "-"@ ==> latest_status(None, event) == Some(
            (event.timestamp, status_of(event.status)),
        ),
{
}

/// The time of a session is that from its first event to its last one.
pub proof fn lemma_span_is_from_first_to_last(session: SessionModel)
    ensures
        span_of(session) >= 0,
        elapsed(
            session.first.seconds(),
            session.first.nanos(),
            session.last.seconds(),
            session.last.nanos(),
        ) >= 0 ==> span_of(session) == elapsed(
            session.first.seconds(),
            session.first.nanos(),
            session.last.seconds(),
            session.last.nanos(),
        ),
{
}

}
