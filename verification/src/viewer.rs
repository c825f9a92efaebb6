//! What the viewer shows of the events, and how that changes.
use vstd::prelude::*;

use crate::event::LogEvent;
use crate::facet::{facets_allow, FacetSelection, FilterState};
use crate::follow::{
    advance_scroll_request, can_refresh_filtered_rows_immediately, displayed, id_view,
    ingestion_refresh_decision, latest_view_is_current, latest_visible_id, newest_id,
    order_visible_rows, request_after, should_pause_pruning, should_resume_follow_at_latest_edge,
    visible_tail_changed, LatestAt, LATEST_SETTLE_FRAMES,
};
use crate::grouping::{group_rows, is_error_event, is_grouped, is_held, TableRows};
use crate::json::{decimal_text, option_view, push_decimal};
use crate::layout::{displayed_facets, shown_facets};
use crate::level::Level;
use crate::ordered::{TextMap, TextSet};
use crate::search::document_of;
use crate::session::{observed_all, retained, sessions_fit, SessionExplorerState, SessionModel};
use crate::store::{
    conditions_accept, extended, has_room, is_facet_names, is_filter_result, limit_of, lists_rows,
    pruned, search_accepts, EventStore, FilterResults, SearchSnapshot, StoreModel,
};
use crate::text::{has_prefix, has_suffix, is_blank, same, trimmed, views};
use crate::time::Timestamp;

verus! {

/// The largest limit of the number of events.
pub const MAX_CONFIGURABLE_EVENTS: usize = 5_000_000;

/// Whether all rows are searched or only the new ones.
#[derive(Clone, Copy, PartialEq, Eq, Structural, Debug)]
pub enum SearchMode {
    Full,
    Incremental,
}

/// A search for the rows whose texts contain the words of a query.
#[derive(Debug)]
pub struct SearchRequest {
    pub generation: u64,
    pub query: String,
    pub snapshot: SearchSnapshot,
    pub mode: SearchMode,
    pub start_index: usize,
    pub event_count: usize,
    pub discarded_events: u64,
}

/// What a search found.
#[derive(Debug)]
pub struct SearchResponse {
    pub generation: u64,
    pub query: String,
    pub matches: Vec<usize>,
    pub mode: SearchMode,
    pub start_index: usize,
    pub event_count: usize,
    pub discarded_events: u64,
}

/// What is known of the rows whose texts contain the words of the filter, and of
/// the search for them. Times are in nanoseconds.
pub struct SearchState {
    pub generation: u64,
    pub due_at: Option<u64>,
    pub in_flight: bool,
    pub matches: Vec<usize>,
    pub query: String,
    pub event_count: usize,
    pub discarded_events: u64,
}

/// What is known of a search.
#[verifier::ext_equal]
pub struct SearchModel {
    pub generation: u64,
    pub due_at: Option<u64>,
    pub in_flight: bool,
    pub matches: Seq<usize>,
    pub query: Seq<char>,
    pub event_count: usize,
    pub discarded_events: u64,
}

impl View for SearchState {
    type V = SearchModel;

    open spec fn view(&self) -> SearchModel {
        SearchModel {
            generation: self.generation,
            due_at: self.due_at,
            in_flight: self.in_flight,
            matches: self.matches@,
            query: self.query@,
            event_count: self.event_count,
            discarded_events: self.discarded_events,
        }
    }
}

/// The generation after another one.
pub open spec fn next_generation(generation: u64) -> u64 {
    if generation == u64::MAX {
        0
    } else {
        (generation + 1) as u64
    }
}

/// A search that is due after a delay. What was searched for before no longer
/// counts.
pub open spec fn scheduled(search: SearchModel, now: u64, delay: u64) -> SearchModel {
    SearchModel {
        generation: next_generation(search.generation),
        due_at: Some((now + delay) as u64),
        in_flight: false,
        ..search
    }
}

/// A search of which nothing is known.
pub open spec fn forgotten(search: SearchModel) -> SearchModel {
    SearchModel {
        generation: next_generation(search.generation),
        due_at: None,
        in_flight: false,
        matches: Seq::empty(),
        query: Seq::empty(),
        event_count: 0,
        discarded_events: 0,
    }
}

/// Whether what was found is about the text of the filter and the events that are
/// still there.
pub open spec fn cache_fits(search: SearchModel, text: Seq<char>, discarded: nat) -> bool {
    search.query == text && search.discarded_events == discarded
}

/// Whether what was found is about all events.
pub open spec fn cache_is_current(
    search: SearchModel,
    text: Seq<char>,
    store: StoreModel,
) -> bool {
    cache_fits(search, text, store.discarded) && search.event_count == store.events.len()
}

impl SearchState {
    /// A search of which nothing is known.
    pub fn new() -> (search: Self)
        ensures
            search@ == (SearchModel {
                generation: 0,
                due_at: None,
                in_flight: false,
                matches: Seq::empty(),
                query: Seq::empty(),
                event_count: 0,
                discarded_events: 0,
            }),
    {
        SearchState {
            generation: 0,
            due_at: None,
            in_flight: false,
            matches: Vec::new(),
            query: String::new(),
            event_count: 0,
            discarded_events: 0,
        }
    }

    /// Makes what was searched for before no longer count.
    fn advance(&mut self)
        ensures
            final(self)@ == (SearchModel {
                generation: next_generation(old(self)@.generation),
                ..old(self)@
            }),
    {
        self.generation = if self.generation == u64::MAX {
            0
        } else {
            self.generation + 1
        };
    }

    /// Has a search made after a delay.
    pub fn schedule(&mut self, now: u64, delay: u64)
        requires
            now + delay <= u64::MAX,
        ensures
            final(self)@ == scheduled(old(self)@, now, delay),
    {
        self.advance();
        self.due_at = Some(now + delay);
        self.in_flight = false;
    }

    /// Forgets what was found.
    pub fn forget(&mut self)
        ensures
            final(self)@ == forgotten(old(self)@),
    {
        self.advance();
        self.due_at = None;
        self.in_flight = false;
        self.matches = Vec::new();
        self.query = String::new();
        self.event_count = 0;
        self.discarded_events = 0;
    }

    /// Whether what was found is about the text of the filter and the events that
    /// are still there.
    pub fn fits(&self, text: &str, discarded: u64) -> (result: bool)
        ensures
            result == cache_fits(self@, text@, discarded as nat),
    {
        same(self.query.as_str(), text) && self.discarded_events == discarded
    }

    /// Whether what was found is about all events.
    pub fn is_current(&self, text: &str, store: &EventStore) -> (result: bool)
        ensures
            result == cache_is_current(self@, text@, store@),
    {
        self.fits(text, store.discarded_events()) && self.event_count == store.len()
    }
}

/// How the table stands, and what was asked of it.
#[derive(Clone, Copy, PartialEq, Eq, Structural, Debug)]
pub struct TableState {
    pub latest_at: LatestAt,
    pub stick_to_bottom: bool,
    pub group_errors: bool,
    pub paused: bool,
    pub filters_dirty: bool,
    pub tail_was_at_bottom: bool,
    pub scroll_to_bottom_requested: bool,
    pub scroll_settle_frames: u8,
    pub scroll_to_selected_requested: bool,
    pub selected_row: Option<usize>,
}

/// How the table stands once the newest event is asked for.
pub open spec fn latest_requested(table: TableState) -> TableState {
    TableState {
        scroll_to_bottom_requested: true,
        scroll_settle_frames: LATEST_SETTLE_FRAMES,
        ..table
    }
}

/// The events, the filter, and what is shown of them.
pub struct LogView {
    pub store: EventStore,
    pub filter: FilterState,
    pub facet_order: Vec<String>,
    pub hidden_facets: TextSet,
    pub visible_rows: Vec<usize>,
    pub facet_counts: TextMap<Vec<(String, u64)>>,
    pub table_rows: TableRows,
    pub table: TableState,
    pub search: SearchState,
    pub sessions: SessionExplorerState,
    pub last_discarded_events: u64,
    pub max_events: usize,
}

/// The rows that a search found, where the filter has a text.
pub open spec fn text_rows(text: Seq<char>, matches: Seq<usize>) -> Option<Seq<usize>> {
    if trimmed(text).len() > 0 {
        Some(matches)
    } else {
        None
    }
}

/// Whether table rows show some rows: each of them, or where equivalent events
/// are one row, the newest of each group.
pub open spec fn is_table(
    events: Seq<LogEvent>,
    rows: Seq<usize>,
    table: TableState,
    shown: TableRows,
) -> bool {
    if table.group_errors {
        is_grouped(events, rows.filter(is_held(events.len())), table.latest_at, shown)
    } else {
        shown.rows@ == rows && shown.groups@.len() == 0
    }
}

/// The row that stays selected: one that is shown, where equivalent events are
/// one row.
pub open spec fn kept_selection(table: TableState, shown: Seq<usize>) -> Option<usize> {
    match table.selected_row {
        Some(row) => if table.group_errors && !shown.contains(row) {
            None
        } else {
            Some(row)
        },
        None => None,
    }
}

/// Whether two views have the same events, filter, facets, sessions and search.
pub open spec fn same_contents(first: LogView, second: LogView) -> bool {
    &&& first.store == second.store
    &&& first.filter == second.filter
    &&& first.facet_order == second.facet_order
    &&& first.hidden_facets == second.hidden_facets
    &&& first.search == second.search
    &&& first.sessions == second.sessions
    &&& first.last_discarded_events == second.last_discarded_events
    &&& first.max_events == second.max_events
}

/// Whether a view shows the rows and the values of facets that its filter asks for
/// at an instant, given the names of the facets of its events.
pub open spec fn shows_results(
    before: LogView,
    now: Timestamp,
    names: Seq<Seq<char>>,
    results: FilterResults,
    after: LogView,
) -> bool {
    &&& is_facet_names(names, before.store@.events)
    &&& is_filter_result(
        before.store@,
        before.filter,
        now,
        shown_facets(views(before.facet_order@), names, before.hidden_facets@),
        text_rows(before.filter.text@, before.search@.matches),
        results,
    )
    &&& after.visible_rows@ == displayed(results.rows@, before.table.latest_at)
    &&& after.facet_counts@ == results.facet_counts@
}

/// Whether a view shows what its filter asks for at an instant, after it was
/// brought up to date.
pub open spec fn is_refreshed(before: LogView, now: Timestamp, after: LogView) -> bool {
    &&& same_contents(before, after)
    &&& exists|names: Seq<Seq<char>>, results: FilterResults| #[trigger]
        shows_results(before, now, names, results, after)
    &&& is_table(before.store@.events, after.visible_rows@, before.table, after.table_rows)
    &&& after.table == (TableState {
        filters_dirty: false,
        selected_row: kept_selection(before.table, after.table_rows.rows@),
        ..before.table
    })
}

/// Whether a list holds a row.
fn lists_row(rows: &Vec<usize>, row: usize) -> (result: bool)
    ensures
        result == rows@.contains(row),
{
    let mut index: usize = 0;
    while index < rows.len()
        invariant
            index <= rows.len(),
            forall|i: int| 0 <= i < index ==> #[trigger] rows@[i] != row,
        decreases rows.len() - index,
    {
        if rows[index] == row {
            return true;
        }
        index += 1;
    }
    false
}

/// A copy of rows.
fn copied(rows: &Vec<usize>) -> (result: Vec<usize>)
    ensures
        result@ == rows@,
{
    let mut result: Vec<usize> = Vec::new();
    let mut index: usize = 0;
    while index < rows.len()
        invariant
            index <= rows.len(),
            result@ == rows@.take(index as int),
        decreases rows.len() - index,
    {
        result.push(rows[index]);
        index += 1;
    }
    assert(rows@.take(index as int) == rows@);
    result
}

impl LogView {
    /// Whether the parts of the view are well formed.
    pub open spec fn wf(self) -> bool {
        self.store.wf()
    }

    /// Whether the filter has a text.
    pub open spec fn has_text(self) -> bool {
        trimmed(self.filter.text@).len() > 0
    }

    /// A view without events.
    pub fn new(
        max_events: usize,
        filter: FilterState,
        facet_order: Vec<String>,
        hidden_facets: TextSet,
        latest_at: LatestAt,
        stick_to_bottom: bool,
        group_errors: bool,
    ) -> (view: Self)
        ensures
            view.wf(),
            view.store@.events.len() == 0,
            view.store@.discarded == 0,
            view.store@.max_events == limit_of(max_events as nat),
            !view.store@.paused,
            view.filter == filter,
            view.facet_order == facet_order,
            view.hidden_facets == hidden_facets,
            view.visible_rows@.len() == 0,
            view.table_rows.rows@.len() == 0,
            view.table == (TableState {
                latest_at,
                stick_to_bottom,
                group_errors,
                paused: false,
                filters_dirty: true,
                tail_was_at_bottom: true,
                scroll_to_bottom_requested: true,
                scroll_settle_frames: LATEST_SETTLE_FRAMES,
                scroll_to_selected_requested: false,
                selected_row: None,
            }),
            view.facet_counts@ == Map::<Seq<char>, Vec<(String, u64)>>::empty(),
            view.table_rows.groups@.len() == 0,
            view.search@ == (SearchModel {
                generation: 0,
                due_at: None,
                in_flight: false,
                matches: Seq::empty(),
                query: Seq::empty(),
                event_count: 0,
                discarded_events: 0,
            }),
            view.sessions.sessions() == Map::<Seq<char>, SessionModel>::empty(),
            !view.sessions.open,
            view.sessions.compare_a is None,
            view.sessions.compare_b is None,
            view.last_discarded_events == 0,
            view.max_events == max_events,
    {
        LogView {
            store: EventStore::new(max_events),
            filter,
            facet_order,
            hidden_facets,
            visible_rows: Vec::new(),
            facet_counts: TextMap::new(),
            table_rows: TableRows { rows: Vec::new(), groups: Vec::new() },
            table: TableState {
                latest_at,
                stick_to_bottom,
                group_errors,
                paused: false,
                filters_dirty: true,
                tail_was_at_bottom: true,
                scroll_to_bottom_requested: true,
                scroll_settle_frames: LATEST_SETTLE_FRAMES,
                scroll_to_selected_requested: false,
                selected_row: None,
            },
            search: SearchState::new(),
            sessions: SessionExplorerState::default(),
            last_discarded_events: 0,
            max_events,
        }
    }

    /// Asks for the newest event.
    pub fn request_scroll_to_latest(&mut self)
        ensures
            final(self).table == latest_requested(old(self).table),
            same_contents(*old(self), *final(self)),
            final(self).visible_rows == old(self).visible_rows,
            final(self).facet_counts == old(self).facet_counts,
            final(self).table_rows == old(self).table_rows,
    {
        self.table.scroll_to_bottom_requested = true;
        self.table.scroll_settle_frames = LATEST_SETTLE_FRAMES;
    }

    /// Whether what the search found is about all events.
    pub fn cached_search_is_current(&self) -> (result: bool)
        ensures
            result == cache_is_current(self.search@, self.filter.text@, self.store@),
    {
        self.search.is_current(self.filter.text.as_str(), &self.store)
    }

    /// Finds the rows of the table again.
    pub fn rebuild_table_rows(&mut self)
        ensures
            is_table(
                old(self).store@.events,
                old(self).visible_rows@,
                old(self).table,
                final(self).table_rows,
            ),
            final(self).table == (TableState {
                selected_row: kept_selection(old(self).table, final(self).table_rows.rows@),
                ..old(self).table
            }),
            same_contents(*old(self), *final(self)),
            final(self).visible_rows == old(self).visible_rows,
            final(self).facet_counts == old(self).facet_counts,
    {
        if !self.table.group_errors {
            self.table_rows = TableRows { rows: copied(&self.visible_rows), groups: Vec::new() };
            return;
        }
        self.table_rows = group_rows(&self.store, &self.visible_rows, self.table.latest_at);
        if let Some(selected) = self.table.selected_row {
            if !lists_row(&self.table_rows.rows, selected) {
                self.table.selected_row = None;
            }
        }
    }

    /// Brings what is shown up to date.
    pub fn refresh_filters(&mut self, now: Timestamp)
        requires
            old(self).wf(),
        ensures
            is_refreshed(*old(self), now, *final(self)),
            final(self).wf(),
    {
        let names = self.store.facet_names();
        let ghost listed = views(names@);
        let facets = displayed_facets(&self.facet_order, names, &self.hidden_facets);
        let has_text = !is_blank(self.filter.text.as_str());
        let results = if has_text {
            self.store.query_with_facets_at(&self.filter, &facets, Some(&self.search.matches), now)
        } else {
            self.store.query_with_facets_at(&self.filter, &facets, None, now)
        };
        let ghost found = results;
        let FilterResults { rows, facet_counts } = results;
        let mut rows = rows;
        order_visible_rows(&mut rows, self.table.latest_at);
        self.visible_rows = rows;
        self.rebuild_table_rows();
        self.facet_counts = facet_counts;
        self.table.filters_dirty = false;
        assert(shows_results(*old(self), now, listed, found, *self));
    }

    /// Takes a change of the filter over into the table. The rows are found again
    /// at once where they can be, and a reader at the newest event stays there.
    pub fn filter_changed(&mut self, now: Timestamp)
        requires
            old(self).wf(),
        ensures
            final(self).wf(),
            ({
                let at_once = old(self).has_text() ==> cache_is_current(
                    old(self).search@,
                    old(self).filter.text@,
                    old(self).store@,
                );
                let marked = TableState { filters_dirty: true, ..old(self).table };
                exists|middle: LogView|
                    {
                        &&& if at_once {
                            is_refreshed(LogView { table: marked, ..*old(self) }, now, middle)
                        } else {
                            middle == (LogView { table: marked, ..*old(self) })
                        }
                        &&& #[trigger] is_followed(middle, old(self).table.tail_was_at_bottom, *final(self))
                    }
            }),
    {
        let was_at_latest = self.table.tail_was_at_bottom;
        self.table.filters_dirty = true;
        let has_text = !is_blank(self.filter.text.as_str());
        let current = self.cached_search_is_current();
        if can_refresh_filtered_rows_immediately(has_text, current) {
            self.refresh_filters(now);
        }
        let ghost middle = *self;
        if was_at_latest {
            self.request_scroll_to_latest();
        }
        assert(is_followed(middle, was_at_latest, *self));
    }

    /// Takes a change of the text of the filter over: it is searched for after a
    /// while, and the newest event is asked for.
    pub fn query_text_changed(&mut self, now: u64, delay: u64)
        requires
            now + delay <= u64::MAX,
        ensures
            final(self).search@ == scheduled(old(self).search@, now, delay),
            final(self).table == latest_requested(
                TableState { filters_dirty: true, tail_was_at_bottom: true, ..old(self).table },
            ),
            same_contents(LogView { search: final(self).search, ..*old(self) }, *final(self)),
            final(self).visible_rows == old(self).visible_rows,
            final(self).facet_counts == old(self).facet_counts,
            final(self).table_rows == old(self).table_rows,
    {
        self.search.schedule(now, delay);
        self.table.filters_dirty = true;
        self.table.tail_was_at_bottom = true;
        self.request_scroll_to_latest();
    }
}

/// Whether a view is another one with the newest event asked for, where that is
/// wanted.
pub open spec fn is_followed(before: LogView, wanted: bool, after: LogView) -> bool {
    after == (LogView {
        table: if wanted {
            latest_requested(before.table)
        } else {
            before.table
        },
        ..before
    })
}

/// Whether two views show the same, in the same way.
pub open spec fn same_display(first: LogView, second: LogView) -> bool {
    &&& first.visible_rows == second.visible_rows
    &&& first.facet_counts == second.facet_counts
    &&& first.table_rows == second.table_rows
}

/// Whether sessions are those of the events of a store, counted anew.
pub open spec fn is_recounted(
    before: SessionExplorerState,
    events: Seq<LogEvent>,
    after: SessionExplorerState,
) -> bool {
    let sessions = observed_all(Map::empty(), events);
    &&& after.sessions() == sessions
    &&& sessions_fit(sessions, 0)
    &&& after.open == before.open
    &&& option_view(after.compare_a) == retained(option_view(before.compare_a), sessions)
    &&& option_view(after.compare_b) == retained(option_view(before.compare_b), sessions)
}

/// A view whose new events were taken in: whether its rows are found again at
/// once, and whether the newest event is asked for.
pub open spec fn is_taken_in(
    before: LogView,
    previous_latest: Option<u64>,
    received_events: bool,
    now: Timestamp,
    after: LogView,
) -> bool {
    let dirty = received_events && !before.table.paused;
    let marked = LogView {
        table: TableState {
            filters_dirty: dirty || before.table.filters_dirty,
            ..before.table
        },
        ..before
    };
    let at_once = dirty && before.table.tail_was_at_bottom && (before.has_text()
        ==> cache_is_current(before.search@, before.filter.text@, before.store@));
    if at_once {
        exists|middle: LogView|
            {
                &&& is_refreshed(marked, now, middle)
                &&& #[trigger] follows_tail(previous_latest, middle, after)
            }
    } else {
        after == marked
    }
}

/// Whether a view is another one with the newest event asked for, where the table
/// follows it and it is another one than before.
pub open spec fn follows_tail(
    previous_latest: Option<u64>,
    before: LogView,
    after: LogView,
) -> bool {
    is_followed(
        before,
        before.table.stick_to_bottom && tail_differs(previous_latest, before),
        after,
    )
}

/// Whether the newest event that a view shows is another one than before.
pub open spec fn tail_differs(previous_latest: Option<u64>, view: LogView) -> bool {
    id_view(previous_latest) != newest_id(
        view.store@.discarded,
        view.store@.events.len(),
        view.visible_rows@,
        view.table.latest_at,
    )
}

impl LogView {
    /// Begins to take new events in: the newest event that is shown, before old
    /// events are discarded.
    pub fn begin_drain(&mut self) -> (previous_latest: Option<u64>)
        requires
            old(self).wf(),
        ensures
            final(self).wf(),
            !tail_differs(previous_latest, *old(self)),
            final(self).store@ == pruned(
                StoreModel {
                    paused: old(self).table.paused || !old(self).table.tail_was_at_bottom,
                    ..old(self).store@
                },
            ),
            same_contents(LogView { store: final(self).store, ..*old(self) }, *final(self)),
            same_display(*old(self), *final(self)),
            final(self).table == old(self).table,
    {
        let previous_latest = latest_visible_id(
            &self.store,
            &self.visible_rows,
            self.table.latest_at,
        );
        self.store.set_pruning_paused(
            should_pause_pruning(self.table.paused, self.table.tail_was_at_bottom),
        );
        previous_latest
    }

    /// Takes events in.
    pub fn receive_batch(&mut self, events: Vec<LogEvent>)
        requires
            old(self).wf(),
            has_room(old(self).store@, events@.len()),
            old(self).store@.events.len() + events@.len() <= usize::MAX,
            sessions_fit(old(self).sessions.sessions(), events@.len()),
        ensures
            final(self).wf(),
            final(self).store@ == extended(old(self).store@, events@),
            final(self).sessions.sessions() == observed_all(
                old(self).sessions.sessions(),
                events@,
            ),
            sessions_fit(final(self).sessions.sessions(), 0),
            final(self).sessions.open == old(self).sessions.open,
            final(self).sessions.compare_a == old(self).sessions.compare_a,
            final(self).sessions.compare_b == old(self).sessions.compare_b,
            same_contents(
                LogView {
                    store: final(self).store,
                    sessions: final(self).sessions,
                    ..*old(self)
                },
                *final(self),
            ),
            same_display(*old(self), *final(self)),
            final(self).table == old(self).table,
    {
        self.sessions.observe_many(&events);
        self.store.extend(events);
    }

    /// Takes notice of events that were discarded: the sessions are counted anew,
    /// nothing stays selected, and a text is searched for again.
    pub fn note_discarded_events(&mut self, nanos: u64) -> (changed: bool)
        ensures
            changed == (old(self).store@.discarded != old(self).last_discarded_events),
            !changed ==> *final(self) == *old(self),
            changed ==> {
                &&& final(self).last_discarded_events == old(self).store@.discarded
                &&& is_recounted(
                    old(self).sessions,
                    old(self).store@.events,
                    final(self).sessions,
                )
                &&& final(self).table == (TableState { selected_row: None, ..old(self).table })
                &&& final(self).search@ == if old(self).has_text() && !old(self).table.paused {
                    scheduled(old(self).search@, nanos, 0)
                } else {
                    old(self).search@
                }
                &&& same_contents(
                    LogView {
                        search: final(self).search,
                        sessions: final(self).sessions,
                        last_discarded_events: final(self).last_discarded_events,
                        ..*old(self)
                    },
                    *final(self),
                )
                &&& same_display(*old(self), *final(self))
            },
    {
        if self.store.discarded_events() == self.last_discarded_events {
            return false;
        }
        self.last_discarded_events = self.store.discarded_events();
        self.sessions.rebuild(&self.store);
        self.table.selected_row = None;
        if !is_blank(self.filter.text.as_str()) && !self.table.paused {
            self.search.schedule(nanos, 0);
        }
        true
    }

    /// Ends to take new events in. While the table is paused nothing changes; while
    /// its reader is away from the newest event the rows stay as they are, and are
    /// found again later.
    pub fn finish_drain(
        &mut self,
        previous_latest: Option<u64>,
        received_events: bool,
        now: Timestamp,
    )
        requires
            old(self).wf(),
        ensures
            final(self).wf(),
            is_taken_in(*old(self), previous_latest, received_events, now, *final(self)),
    {
        let decision = ingestion_refresh_decision(
            received_events,
            self.table.paused,
            self.table.tail_was_at_bottom,
        );
        if decision.mark_filters_dirty {
            self.table.filters_dirty = true;
        }
        let ghost marked = *self;
        if decision.refresh_anchored_view {
            let has_text = !is_blank(self.filter.text.as_str());
            let current = self.cached_search_is_current();
            if can_refresh_filtered_rows_immediately(has_text, current) {
                self.refresh_filters(now);
                let ghost middle = *self;
                let changed = visible_tail_changed(
                    previous_latest,
                    &self.store,
                    &self.visible_rows,
                    self.table.latest_at,
                );
                assert(changed == tail_differs(previous_latest, middle));
                if changed && self.table.stick_to_bottom {
                    self.request_scroll_to_latest();
                }
                assert(follows_tail(previous_latest, middle, *self));
            }
        }
    }
}

/// A paused view is frozen: whatever events are taken in, it shows the same, and the
/// newest event is not asked for.
pub proof fn lemma_paused_view_is_frozen(
    before: LogView,
    previous_latest: Option<u64>,
    received_events: bool,
    now: Timestamp,
    after: LogView,
)
    requires
        before.table.paused,
        is_taken_in(before, previous_latest, received_events, now, after),
    ensures
        same_display(before, after),
        after.table == before.table,
{
}

/// Away from the newest event the rows stay as they are while events are taken in;
/// they are found again once the reader is back.
pub proof fn lemma_older_rows_stay(
    before: LogView,
    previous_latest: Option<u64>,
    received_events: bool,
    now: Timestamp,
    after: LogView,
)
    requires
        !before.table.tail_was_at_bottom,
        is_taken_in(before, previous_latest, received_events, now, after),
    ensures
        same_display(before, after),
        after.table.scroll_to_bottom_requested == before.table.scroll_to_bottom_requested,
        received_events && !before.table.paused ==> after.table.filters_dirty,
{
}

/// Whether a search is to be made now.
pub open spec fn is_due(search: SearchModel, paused: bool, nanos: u64) -> bool {
    search.due_at matches Some(due) && nanos >= due && !paused
}

/// Whether what was found is right for the first events, so that only the others
/// have to be searched.
pub open spec fn can_extend(search: SearchModel, text: Seq<char>, store: StoreModel) -> bool {
    cache_fits(search, text, store.discarded) && search.event_count <= store.events.len()
}

/// Whether a request asks for what a view needs.
pub open spec fn asks_for(view: LogView, request: SearchRequest) -> bool {
    let extend = can_extend(view.search@, view.filter.text@, view.store@);
    &&& request.generation == view.search@.generation
    &&& request.query@ == view.filter.text@
    &&& request.mode == if extend {
        SearchMode::Incremental
    } else {
        SearchMode::Full
    }
    &&& request.start_index == if extend {
        view.search@.event_count as int
    } else {
        0
    }
    &&& request.event_count == view.store@.events.len()
    &&& request.discarded_events == view.store@.discarded
    &&& request.snapshot.start() == request.start_index
    &&& request.snapshot.documents() == view.store@.events.skip(
        request.start_index as int,
    ).map_values(|event: LogEvent| document_of(event))
}

/// Whether the search that is due was begun: a request, where rows have to be
/// searched.
pub open spec fn is_started(
    before: LogView,
    nanos: u64,
    request: Option<SearchRequest>,
    after: LogView,
) -> bool {
    let search = before.search@;
    let store = before.store@;
    let idle = SearchModel { due_at: None, ..search };
    if !is_due(search, before.table.paused, nanos) {
        request is None && after == before
    } else {
        &&& same_contents(
            LogView { search: after.search, ..before },
            after,
        )
        &&& same_display(before, after)
        &&& if !before.has_text() {
            &&& request is None
            &&& after.search@ == (SearchModel {
                matches: Seq::empty(),
                query: Seq::empty(),
                event_count: store.events.len() as usize,
                discarded_events: store.discarded as u64,
                ..idle
            })
            &&& after.table == (TableState {
                filters_dirty: true,
                ..before.table
            })
        } else if can_extend(search, before.filter.text@, store)
            && search.event_count == store.events.len() {
            &&& request is None
            &&& after.search@ == idle
            &&& after.table == (TableState {
                filters_dirty: true,
                ..before.table
            })
        } else {
            &&& request matches Some(request) && asks_for(before, request)
            &&& after.search@ == (SearchModel { in_flight: true, ..idle })
            &&& after.table == before.table
        }
    }
}

impl LogView {
    /// Begins the search that is due: a request, where rows have to be searched.
    pub fn start_scheduled_search(&mut self, nanos: u64) -> (request: Option<SearchRequest>)
        requires
            old(self).wf(),
        ensures
            final(self).wf(),
            is_started(*old(self), nanos, request, *final(self)),
    {
        match self.search.due_at {
            None => {
                return None;
            },
            Some(due) => {
                if nanos < due || self.table.paused {
                    return None;
                }
            },
        }
        self.search.due_at = None;
        let event_count: usize = self.store.len();
        if is_blank(self.filter.text.as_str()) {
            self.search.matches = Vec::new();
            self.search.query = String::new();
            self.search.event_count = event_count;
            self.search.discarded_events = self.store.discarded_events();
            self.table.filters_dirty = true;
            return None;
        }
        let extend = self.search.fits(self.filter.text.as_str(), self.store.discarded_events())
            && self.search.event_count <= event_count;
        let (mode, start_index): (SearchMode, usize) = if extend {
            (SearchMode::Incremental, self.search.event_count)
        } else {
            (SearchMode::Full, 0)
        };
        if extend && start_index == event_count {
            self.table.filters_dirty = true;
            return None;
        }
        let request = SearchRequest {
            generation: self.search.generation,
            query: self.filter.text.clone(),
            snapshot: self.store.search_snapshot(start_index),
            mode,
            start_index,
            event_count,
            discarded_events: self.store.discarded_events(),
        };
        self.search.in_flight = true;
        Some(request)
    }

    /// Takes back a search that could not be begun.
    pub fn search_unavailable(&mut self)
        ensures
            final(self).search@ == (SearchModel { in_flight: false, ..old(self).search@ }),
            same_contents(LogView { search: final(self).search, ..*old(self) }, *final(self)),
            same_display(*old(self), *final(self)),
            final(self).table == old(self).table,
    {
        self.search.in_flight = false;
    }
}

/// Whether what a search found can be used.
pub open spec fn is_usable(view: LogView, response: SearchResponse) -> bool {
    let search = view.search@;
    let text = view.filter.text@;
    &&& response.query@ == text
    &&& response.discarded_events == view.store@.discarded
    &&& response.mode is Incremental ==> cache_fits(search, text, view.store@.discarded)
        && search.event_count == response.start_index
}

/// What is known once what a search found is taken over.
pub open spec fn answered(search: SearchModel, response: SearchResponse) -> SearchModel {
    SearchModel {
        in_flight: false,
        matches: match response.mode {
            SearchMode::Full => response.matches@,
            SearchMode::Incremental => search.matches + response.matches@,
        },
        query: response.query@,
        event_count: response.event_count,
        discarded_events: response.discarded_events,
        ..search
    }
}

/// A view that took over what a search found. Where its reader is at the newest
/// event and all events were searched, the rows are found again at once; where
/// not all were, the others are searched for.
pub open spec fn is_answered(
    before: LogView,
    response: SearchResponse,
    nanos: u64,
    now: Timestamp,
    known: SearchState,
    after: LogView,
) -> bool {
    let marked = LogView {
        search: known,
        table: TableState { filters_dirty: true, ..before.table },
        ..before
    };
    &&& known@ == answered(before.search@, response)
    &&& exists|middle: LogView|
        {
            &&& if before.table.tail_was_at_bottom && cache_is_current(
                known@,
                before.filter.text@,
                before.store@,
            ) {
                exists|fresh: LogView|
                    {
                        &&& is_refreshed(marked, now, fresh)
                        &&& #[trigger] follows_change(before, fresh, middle)
                    }
            } else {
                middle == marked
            }
            &&& #[trigger] searches_on(middle, response, nanos, after)
        }
}

/// Whether a view is another one with the newest event asked for, where the table
/// follows it and it is another one than that of an earlier view.
pub open spec fn follows_change(earlier: LogView, before: LogView, after: LogView) -> bool {
    is_followed(
        before,
        before.table.stick_to_bottom && tails_differ(earlier, before),
        after,
    )
}

/// Whether a view is another one with a search scheduled, where not all events
/// were searched.
pub open spec fn searches_on(
    before: LogView,
    response: SearchResponse,
    nanos: u64,
    after: LogView,
) -> bool {
    is_continued(before, response.event_count < before.store@.events.len(), nanos, after)
}

/// Whether the newest events that two views of the same events show differ.
pub open spec fn tails_differ(first: LogView, second: LogView) -> bool {
    newest_id(
        first.store@.discarded,
        first.store@.events.len(),
        first.visible_rows@,
        first.table.latest_at,
    ) != newest_id(
        second.store@.discarded,
        second.store@.events.len(),
        second.visible_rows@,
        second.table.latest_at,
    )
}

/// Whether a view is another one with a search scheduled, where that is wanted.
pub open spec fn is_continued(
    before: LogView,
    wanted: bool,
    nanos: u64,
    after: LogView,
) -> bool {
    &&& after.search@ == if wanted {
        scheduled(before.search@, nanos, 0)
    } else {
        before.search@
    }
    &&& same_contents(LogView { search: after.search, ..before }, after)
    &&& same_display(before, after)
    &&& after.table == before.table
}

impl LogView {
    /// Takes over what a search found. What was searched for an earlier text, or
    /// for events that are gone, is not used; it is searched for again.
    pub fn receive_search(&mut self, response: SearchResponse, nanos: u64, now: Timestamp)
        requires
            old(self).wf(),
        ensures
            final(self).wf(),
            if response.generation != old(self).search@.generation {
                *final(self) == *old(self)
            } else if !is_usable(*old(self), response) {
                is_continued(
                    *old(self),
                    true,
                    nanos,
                    *final(self),
                )
            } else {
                exists|known: SearchState| #[trigger]
                    is_answered(*old(self), response, nanos, now, known, *final(self))
            },
    {
        if response.generation != self.search.generation {
            return;
        }
        if !same(response.query.as_str(), self.filter.text.as_str()) || response.discarded_events
            != self.store.discarded_events() {
            self.search.schedule(nanos, 0);
            return;
        }
        let ghost given = response;
        let SearchResponse {
            generation,
            query,
            matches,
            mode,
            start_index,
            event_count,
            discarded_events,
        } = response;
        match mode {
            SearchMode::Full => {
                self.search.matches = matches;
            },
            SearchMode::Incremental => {
                if !(self.search.fits(self.filter.text.as_str(), self.store.discarded_events())
                    && self.search.event_count == start_index) {
                    self.search.schedule(nanos, 0);
                    return;
                }
                let mut matches = matches;
                self.search.matches.append(&mut matches);
            },
        }
        self.search.in_flight = false;
        self.search.query = query;
        self.search.event_count = event_count;
        self.search.discarded_events = discarded_events;
        self.table.filters_dirty = true;
        let ghost known = self.search;
        let ghost marked = *self;
        assert(known@ == answered(old(self).search@, given));
        if self.table.tail_was_at_bottom && self.cached_search_is_current() {
            let previous_latest = latest_visible_id(
                &self.store,
                &self.visible_rows,
                self.table.latest_at,
            );
            self.refresh_filters(now);
            let ghost fresh = *self;
            let changed = visible_tail_changed(
                previous_latest,
                &self.store,
                &self.visible_rows,
                self.table.latest_at,
            );
            assert(changed == tails_differ(*old(self), fresh));
            if changed && self.table.stick_to_bottom {
                self.request_scroll_to_latest();
            }
            assert(follows_change(*old(self), fresh, *self));
        }
        let ghost middle = *self;
        if event_count < self.store.len() {
            self.search.schedule(nanos, 0);
        }
        assert(searches_on(middle, given, nanos, *self));
        assert(is_answered(*old(self), given, nanos, now, known, *self));
    }
}

/// Rows that were found among the first events, and those that were found among
/// the others, are those that are found among all of them.
pub proof fn lemma_incremental_search(
    first: Seq<usize>,
    second: Seq<usize>,
    start: nat,
    count: nat,
    test: spec_fn(int) -> bool,
)
    requires
        start <= count,
        lists_rows(first, start, test),
        forall|i: int, j: int| 0 <= i < j < second.len() ==> second[i] < second[j],
        forall|i: int|
            0 <= i < second.len() ==> start <= second[i] < count && test(
                #[trigger] second[i] as int,
            ),
        forall|row: int|
            start <= row < count && #[trigger] test(row) ==> second.contains(row as usize),
    ensures
        lists_rows(first + second, count, test),
{
    let both = first + second;
    assert forall|i: int| 0 <= i < both.len() implies both[i] < count && test(
        #[trigger] both[i] as int,
    ) by {
        if i < first.len() {
            assert(both[i] == first[i]);
        } else {
            assert(both[i] == second[i - first.len()]);
        }
    }
    assert forall|i: int, j: int| 0 <= i < j < both.len() implies both[i] < both[j] by {
        if j < first.len() {
            assert(both[i] == first[i] && both[j] == first[j]);
        } else if i < first.len() {
            assert(test(first[i] as int));
            assert(test(second[j - first.len()] as int));
        } else {
            assert(both[i] == second[i - first.len()] && both[j] == second[j - first.len()]);
        }
    }
    assert forall|row: int| 0 <= row < count && #[trigger] test(row) implies both.contains(
        row as usize,
    ) by {
        if row < start {
            let k = choose|k: int| 0 <= k < first.len() && first[k] == row as usize;
            assert(both[k] == row as usize);
        } else {
            let k = choose|k: int| 0 <= k < second.len() && second[k] == row as usize;
            assert(both[first.len() + k] == row as usize);
        }
    }
}

/// What is known of a search before a frame: without a text nothing is searched
/// for, and a text of which nothing is known is.
pub open spec fn settled_search(view: LogView, nanos: u64) -> SearchModel {
    let search = view.search@;
    let waiting = search.due_at is Some || search.in_flight;
    if !view.has_text() {
        SearchModel {
            generation: if waiting {
                next_generation(search.generation)
            } else {
                search.generation
            },
            due_at: None,
            in_flight: false,
            ..search
        }
    } else if !waiting && !cache_is_current(search, view.filter.text@, view.store@) {
        scheduled(search, nanos, 0)
    } else {
        search
    }
}

/// Whether the search and what is shown were brought up to date before a frame,
/// unless the table is paused or its reader is away from the newest event.
pub open spec fn is_settled(before: LogView, nanos: u64, now: Timestamp, after: LogView) -> bool {
    if before.table.paused || !before.table.tail_was_at_bottom {
        after == before
    } else {
        let ready = before.has_text() ==> cache_is_current(
            before.search@,
            before.filter.text@,
            before.store@,
        );
        &&& after.search@ == settled_search(before, nanos)
        &&& if before.table.filters_dirty && ready {
            is_refreshed(
                LogView { search: after.search, ..before },
                now,
                after,
            )
        } else {
            &&& same_contents(
                LogView { search: after.search, ..before },
                after,
            )
            &&& same_display(before, after)
            &&& after.table == before.table
        }
    }
}

impl LogView {
    /// Brings the search and what is shown up to date before a frame, unless the
    /// table is paused or its reader is away from the newest event.
    fn settle_search(&mut self, nanos: u64, now: Timestamp)
        requires
            old(self).wf(),
        ensures
            final(self).wf(),
            is_settled(*old(self), nanos, now, *final(self)),
    {
        if self.table.paused || !self.table.tail_was_at_bottom {
            return;
        }
        let waiting = self.search.due_at.is_some() || self.search.in_flight;
        if is_blank(self.filter.text.as_str()) {
            self.search.due_at = None;
            if waiting {
                self.search.advance();
                self.search.in_flight = false;
            }
            if self.table.filters_dirty {
                self.refresh_filters(now);
            }
        } else if self.cached_search_is_current() {
            if self.table.filters_dirty {
                self.refresh_filters(now);
            }
        } else if !waiting {
            self.search.schedule(nanos, 0);
        }
    }

    /// Brings the search and what is shown up to date before a frame, and begins the
    /// search that is due then. Nothing changes while the table is paused or its
    /// reader is away from the newest event.
    pub fn advance_search(&mut self, nanos: u64, now: Timestamp) -> (request: Option<
        SearchRequest,
    >)
        requires
            old(self).wf(),
        ensures
            final(self).wf(),
            if old(self).table.paused || !old(self).table.tail_was_at_bottom {
                request is None && *final(self) == *old(self)
            } else {
                exists|settled: LogView| #[trigger]
                    is_settled(*old(self), nanos, now, settled) && is_started(
                        settled,
                        nanos,
                        request,
                        *final(self),
                    )
            },
    {
        if self.table.paused || !self.table.tail_was_at_bottom {
            return None;
        }
        self.settle_search(nanos, now);
        let ghost settled = *self;
        assert(is_settled(*old(self), nanos, now, settled));
        self.start_scheduled_search(nanos)
    }

    /// Changes the limit of the number of events. Where that discards events, the
    /// sessions are counted anew, and the newest event is asked for.
    pub fn apply_event_limit(&mut self, max_events: usize, nanos: u64)
        requires
            old(self).wf(),
        ensures
            final(self).wf(),
            ({
                let limit: usize = if max_events < 1 {
                    1
                } else if max_events > MAX_CONFIGURABLE_EVENTS {
                    MAX_CONFIGURABLE_EVENTS
                } else {
                    max_events
                };
                let store = pruned(
                    StoreModel { max_events: limit_of(limit as nat), ..old(self).store@ },
                );
                &&& final(self).max_events == limit
                &&& final(self).store@ == store
                &&& final(self).filter == old(self).filter
                &&& final(self).facet_order == old(self).facet_order
                &&& final(self).hidden_facets == old(self).hidden_facets
                &&& same_display(*old(self), *final(self))
                &&& if store.discarded == old(self).store@.discarded {
                    &&& final(self).search == old(self).search
                    &&& final(self).sessions == old(self).sessions
                    &&& final(self).last_discarded_events == old(self).last_discarded_events
                    &&& final(self).table == old(self).table
                } else {
                    &&& is_recounted(old(self).sessions, store.events, final(self).sessions)
                    &&& final(self).last_discarded_events == store.discarded
                    &&& final(self).search@ == if old(self).has_text()
                        && !old(self).table.paused {
                        scheduled(forgotten(old(self).search@), nanos, 0)
                    } else {
                        forgotten(old(self).search@)
                    }
                    &&& final(self).table == latest_requested(
                        TableState {
                            selected_row: None,
                            filters_dirty: true,
                            tail_was_at_bottom: true,
                            ..old(self).table
                        },
                    )
                }
            }),
    {
        self.max_events = if max_events < 1 {
            1
        } else if max_events > MAX_CONFIGURABLE_EVENTS {
            MAX_CONFIGURABLE_EVENTS
        } else {
            max_events
        };
        let previous_discarded: u64 = self.store.discarded_events();
        self.store.set_max_events(self.max_events);
        if self.store.discarded_events() == previous_discarded {
            return;
        }
        self.sessions.rebuild(&self.store);
        self.last_discarded_events = self.store.discarded_events();
        self.search.forget();
        if !is_blank(self.filter.text.as_str()) && !self.table.paused {
            self.search.schedule(nanos, 0);
        }
        self.table.selected_row = None;
        self.table.filters_dirty = true;
        self.table.tail_was_at_bottom = true;
        self.request_scroll_to_latest();
    }

    /// Forgets all events, so that other logs can be read.
    pub fn reset_log(&mut self)
        ensures
            final(self).wf(),
            final(self).store@.events.len() == 0,
            final(self).store@.discarded == 0,
            final(self).store@.max_events == limit_of(old(self).max_events as nat),
            !final(self).store@.paused,
            final(self).sessions.sessions() == Map::<Seq<char>, SessionModel>::empty(),
            final(self).sessions.compare_a is None,
            final(self).sessions.compare_b is None,
            final(self).sessions.open == old(self).sessions.open,
            final(self).last_discarded_events == 0,
            final(self).search@ == forgotten(old(self).search@),
            final(self).table == latest_requested(
                TableState {
                    selected_row: None,
                    filters_dirty: true,
                    tail_was_at_bottom: true,
                    ..old(self).table
                },
            ),
            final(self).filter == old(self).filter,
            final(self).facet_order == old(self).facet_order,
            final(self).hidden_facets == old(self).hidden_facets,
            final(self).max_events == old(self).max_events,
            same_display(*old(self), *final(self)),
    {
        self.store = EventStore::new(self.max_events);
        self.sessions.reset();
        self.last_discarded_events = 0;
        self.search.forget();
        self.table.selected_row = None;
        self.table.filters_dirty = true;
        self.table.tail_was_at_bottom = true;
        self.request_scroll_to_latest();
    }
}

/// Where a row stands in a list.
pub open spec fn row_place(rows: Seq<usize>, row: usize) -> int
    decreases rows.len(),
{
    if rows.len() == 0 || rows[0] == row {
        0
    } else {
        1 + row_place(rows.drop_first(), row)
    }
}

proof fn lemma_row_place(rows: Seq<usize>, row: usize, place: int)
    requires
        0 <= place <= rows.len(),
        forall|i: int| 0 <= i < place ==> #[trigger] rows[i] != row,
        place < rows.len() ==> rows[place] == row,
    ensures
        row_place(rows, row) == place,
    decreases rows.len(),
{
    if place > 0 {
        assert(rows[0] != row);
        let rest = rows.drop_first();
        assert forall|i: int| 0 <= i < place - 1 implies #[trigger] rest[i] != row by {
            assert(rows[i + 1] != row);
        }
        lemma_row_place(rest, row, place - 1);
    }
}

/// Where a row stands in a list, where it does.
pub fn position_of_row(rows: &Vec<usize>, row: usize) -> (place: Option<usize>)
    ensures
        match place {
            Some(place) => place == row_place(rows@, row) && place < rows@.len() && rows@.contains(
                row,
            ),
            None => row_place(rows@, row) == rows@.len() && !rows@.contains(row),
        },
{
    let mut index: usize = 0;
    while index < rows.len()
        invariant
            index <= rows.len(),
            forall|i: int| 0 <= i < index ==> #[trigger] rows@[i] != row,
        decreases rows.len() - index,
    {
        if rows[index] == row {
            proof {
                lemma_row_place(rows@, row, index as int);
            }
            return Some(index);
        }
        index += 1;
    }
    proof {
        lemma_row_place(rows@, row, index as int);
    }
    None
}

/// The place that lies some steps from another in a ring. Without a place to
/// start from, the first step forward leads to the first place, and the first
/// step backward to the last.
pub open spec fn ring_place(count: int, current: Option<int>, forward: bool, steps: int) -> int {
    if forward {
        (match current {
            Some(place) => place,
            None => -1,
        } + steps) % count
    } else {
        (match current {
            Some(place) => place,
            None => 0,
        } - steps) % count
    }
}

/// The number of an optional place.
pub open spec fn place_view(place: Option<usize>) -> Option<int> {
    match place {
        Some(place) => Some(place as int),
        None => None,
    }
}

/// The place that lies some steps from another in a ring.
pub fn ring_step(count: usize, current: Option<usize>, forward: bool, steps: usize) -> (place:
    usize)
    requires
        current matches Some(place) ==> place < count,
        1 <= steps <= count,
    ensures
        place < count,
        place == ring_place(count as int, place_view(current), forward, steps as int),
{
    let start: i128 = match current {
        Some(place) => place as i128,
        None => if forward {
            -1
        } else {
            0
        },
    };
    let size: i128 = count as i128;
    let moved: i128 = if forward {
        start + steps as i128
    } else {
        start - steps as i128
    };
    if moved < 0 {
        proof {
            vstd::arithmetic::div_mod::lemma_mod_add_multiples_vanish(moved as int, count as int);
            vstd::arithmetic::div_mod::lemma_small_mod((moved + size) as nat, count as nat);
        }
        (moved + size) as usize
    } else if moved >= size {
        proof {
            vstd::arithmetic::div_mod::lemma_mod_sub_multiples_vanish(moved as int, count as int);
            vstd::arithmetic::div_mod::lemma_small_mod((moved - size) as nat, count as nat);
        }
        (moved - size) as usize
    } else {
        proof {
            vstd::arithmetic::div_mod::lemma_small_mod(moved as nat, count as nat);
        }
        moved as usize
    }
}

/// The test for events that are looked for: all of them, or errors.
pub open spec fn is_sought(event: LogEvent, only_errors: bool) -> bool {
    only_errors ==> event.level is Error || event.level is Fatal
}

/// Whether the row some steps from the selected one is one that is looked for.
pub open spec fn step_finds(
    view: LogView,
    current: Option<int>,
    forward: bool,
    only_errors: bool,
    steps: int,
) -> bool {
    let rows = view.table_rows.rows@;
    let row = rows[ring_place(rows.len() as int, current, forward, steps)];
    row < view.store@.events.len() && is_sought(view.store@.events[row as int], only_errors)
}

/// The place of the selected row.
pub open spec fn selected_place(view: LogView) -> Option<int> {
    match view.table.selected_row {
        Some(row) => if view.table_rows.rows@.contains(row) {
            Some(row_place(view.table_rows.rows@, row))
        } else {
            None
        },
        None => None,
    }
}

/// Whether a view has a row selected, and asks for it.
pub open spec fn is_selected(before: LogView, row: usize, after: LogView) -> bool {
    after == (LogView {
        table: TableState {
            selected_row: Some(row),
            scroll_to_selected_requested: true,
            scroll_to_bottom_requested: false,
            ..before.table
        },
        ..before
    })
}

impl LogView {
    /// Selects a row, and asks for it.
    fn select(&mut self, row: usize)
        ensures
            is_selected(*old(self), row, *final(self)),
    {
        self.table.selected_row = Some(row);
        self.table.scroll_to_selected_requested = true;
        self.table.scroll_to_bottom_requested = false;
    }

    /// Selects the next row that is looked for, forward or backward from the
    /// selected one, and around the ends.
    pub fn navigate_matching(&mut self, forward: bool, only_errors: bool)
        ensures
            ({
                let count = old(self).table_rows.rows@.len() as int;
                let current = selected_place(*old(self));
                ||| {
                    &&& *final(self) == *old(self)
                    &&& forall|steps: int|
                        1 <= steps <= count ==> !#[trigger] step_finds(
                            *old(self),
                            current,
                            forward,
                            only_errors,
                            steps,
                        )
                }
                ||| exists|steps: int|
                    {
                        &&& 1 <= steps <= count
                        &&& #[trigger] step_finds(
                            *old(self),
                            current,
                            forward,
                            only_errors,
                            steps,
                        )
                        &&& forall|fewer: int|
                            1 <= fewer < steps ==> !#[trigger] step_finds(
                                *old(self),
                                current,
                                forward,
                                only_errors,
                                fewer,
                            )
                        &&& is_selected(
                            *old(self),
                            old(self).table_rows.rows@[ring_place(
                                count,
                                current,
                                forward,
                                steps,
                            )],
                            *final(self),
                        )
                    }
            }),
    {
        let count: usize = self.table_rows.rows.len();
        let current = match self.table.selected_row {
            Some(row) => position_of_row(&self.table_rows.rows, row),
            None => None,
        };
        assert(place_view(current) == selected_place(*self));
        let mut steps: usize = 0;
        while steps < count
            invariant
                steps <= count,
                *self == *old(self),
                count == self.table_rows.rows@.len(),
                current matches Some(place) ==> place < count,
                place_view(current) == selected_place(*self),
                forall|fewer: int|
                    1 <= fewer <= steps ==> !#[trigger] step_finds(
                        *self,
                        selected_place(*self),
                        forward,
                        only_errors,
                        fewer,
                    ),
            decreases count - steps,
        {
            let place: usize = ring_step(count, current, forward, steps + 1);
            let row: usize = self.table_rows.rows[place];
            let found = match self.store.get(row) {
                Some(event) => !only_errors || is_error_event(event),
                None => false,
            };
            assert(found == step_finds(
                *self,
                selected_place(*self),
                forward,
                only_errors,
                steps + 1,
            ));
            if found {
                self.select(row);
                return;
            }
            steps += 1;
        }
    }

    /// Selects an event by its row, and asks for it. Where the table does not show
    /// it, the filter is cleared; where it is hidden among equivalent events, those
    /// are shown one by one.
    pub fn select_event(&mut self, row: usize, now: Timestamp)
        requires
            old(self).wf(),
        ensures
            final(self).wf(),
            final(self).store == old(self).store,
            final(self).table.selected_row == Some(row),
            final(self).table.scroll_to_selected_requested,
            !final(self).table.scroll_to_bottom_requested,
            old(self).table_rows.rows@.contains(row) ==> is_selected(
                *old(self),
                row,
                *final(self),
            ),
            !old(self).table_rows.rows@.contains(row) ==> exists|cleared: FilterState, fresh:
                LogView| #[trigger]
                is_uncovered(*old(self), cleared, now, fresh, row, *final(self)),
    {
        if !lists_row(&self.table_rows.rows, row) {
            self.filter.clear();
            let ghost cleared = self.filter;
            self.refresh_filters(now);
            let ghost fresh = *self;
            if self.table.group_errors && !lists_row(&self.table_rows.rows, row) {
                self.table.group_errors = false;
                self.rebuild_table_rows();
            }
            self.select(row);
            assert(is_uncovered(*old(self), cleared, now, fresh, row, *self));
        } else {
            self.select(row);
        }
    }
}

/// Whether a view selects a row that was not shown: without a filter, and where
/// that is not enough, with the equivalent events shown one by one.
pub open spec fn is_uncovered(
    before: LogView,
    cleared: FilterState,
    now: Timestamp,
    fresh: LogView,
    row: usize,
    after: LogView,
) -> bool {
    let single = fresh.table.group_errors && !fresh.table_rows.rows@.contains(row);
    &&& cleared.facets@ == Map::<Seq<char>, FacetSelection>::empty()
    &&& cleared.text@ == Seq::<char>::empty()
    &&& cleared.minimum_level is None
    &&& cleared.correlation is None
    &&& is_refreshed(LogView { filter: cleared, ..before }, now, fresh)
    &&& same_contents(fresh, after)
    &&& after.visible_rows == fresh.visible_rows
    &&& after.facet_counts == fresh.facet_counts
    &&& after.table == (TableState {
        group_errors: fresh.table.group_errors && !single,
        selected_row: Some(row),
        scroll_to_selected_requested: true,
        scroll_to_bottom_requested: false,
        ..fresh.table
    })
    &&& if single {
        is_table(fresh.store@.events, fresh.visible_rows@, after.table, after.table_rows)
    } else {
        after.table_rows == fresh.table_rows
    }
}

/// Going on forward as many times as there are places leads back to the start.
pub proof fn lemma_ring_returns(count: int, place: int, forward: bool)
    requires
        0 <= place < count,
    ensures
        ring_place(count, Some(place), forward, count) == place,
{
    if forward {
        vstd::arithmetic::div_mod::lemma_mod_add_multiples_vanish(place, count);
    } else {
        vstd::arithmetic::div_mod::lemma_mod_sub_multiples_vanish(place, count);
    }
    vstd::arithmetic::div_mod::lemma_small_mod(place as nat, count as nat);
}

/// What became of the table in a frame.
#[derive(Clone, Copy, PartialEq, Eq, Structural, Debug)]
pub struct FrameReport {
    /// Whether a request for the newest event came to its end.
    pub request_ended: bool,
    /// Whether the reader came back to the end of a table that is not up to date.
    pub follow_resumed: bool,
}

/// Whether a view shows what its filter asks for.
pub open spec fn is_current(view: LogView) -> bool {
    !view.table.filters_dirty && (view.has_text() ==> cache_is_current(
        view.search@,
        view.filter.text@,
        view.store@,
    ))
}

/// What becomes of the table in a frame.
pub open spec fn report_of(view: LogView, scrolled: bool, at_edge: bool) -> FrameReport {
    let request = request_after(
        view.table.scroll_to_bottom_requested,
        !scrolled && at_edge,
        scrolled,
        is_current(view),
        view.table.scroll_settle_frames,
    );
    FrameReport {
        request_ended: view.table.scroll_to_bottom_requested && !request.0,
        follow_resumed: view.table.stick_to_bottom && !view.table.tail_was_at_bottom && !scrolled
            && at_edge && !is_current(view),
    }
}

/// How the table stands after a frame.
pub open spec fn table_after_frame(
    view: LogView,
    scrolled: bool,
    at_edge: bool,
    selected: Option<usize>,
) -> TableState {
    let request = request_after(
        view.table.scroll_to_bottom_requested,
        !scrolled && at_edge,
        scrolled,
        is_current(view),
        view.table.scroll_settle_frames,
    );
    let after = TableState {
        tail_was_at_bottom: !scrolled && at_edge,
        scroll_to_bottom_requested: request.0,
        scroll_settle_frames: request.1,
        scroll_to_selected_requested: false,
        selected_row: selected,
        ..view.table
    };
    if report_of(view, scrolled, at_edge).follow_resumed {
        latest_requested(after)
    } else {
        after
    }
}

/// Scrolling by hand suspends following: the newest event is not asked for any more,
/// and the reader counts as away from it, so that old events are kept.
pub proof fn lemma_scrolling_suspends_following(
    view: LogView,
    at_edge: bool,
    selected: Option<usize>,
)
    ensures
        ({
            let after = table_after_frame(view, true, at_edge, selected);
            !after.tail_was_at_bottom && !after.scroll_to_bottom_requested
        }),
{
}

/// Following goes on once the edge with the newest event is reached again: where the
/// view is behind, the newest event is asked for.
pub proof fn lemma_edge_resumes_following(view: LogView, selected: Option<usize>)
    requires
        view.table.stick_to_bottom,
        !view.table.tail_was_at_bottom,
        !is_current(view),
    ensures
        ({
            let after = table_after_frame(view, false, true, selected);
            after.tail_was_at_bottom && after.scroll_to_bottom_requested
        }),
{
}

impl LogView {
    /// Takes over what happened to the table in a frame: whether it was scrolled by
    /// hand, whether it is at the newest event, and which row is selected. Away
    /// from the newest event, old events are kept.
    pub fn finish_frame(&mut self, scrolled: bool, at_edge: bool, selected: Option<usize>) -> (
    report: FrameReport)
        requires
            old(self).wf(),
        ensures
            final(self).wf(),
            report == report_of(*old(self), scrolled, at_edge),
            final(self).table == table_after_frame(*old(self), scrolled, at_edge, selected),
            final(self).store@ == if !scrolled && at_edge {
                old(self).store@
            } else {
                StoreModel { paused: true, ..old(self).store@ }
            },
            same_contents(LogView { store: final(self).store, ..*old(self) }, *final(self)),
            same_display(*old(self), *final(self)),
    {
        let was_at_latest = self.table.tail_was_at_bottom;
        let requested = self.table.scroll_to_bottom_requested;
        let has_text = !is_blank(self.filter.text.as_str());
        let current = latest_view_is_current(
            self.table.filters_dirty,
            has_text,
            self.cached_search_is_current(),
        );
        let at_latest = !scrolled && at_edge;
        self.table.tail_was_at_bottom = at_latest;
        if !at_latest {
            self.store.set_pruning_paused(true);
        }
        let (next, frames) = advance_scroll_request(
            requested,
            at_latest,
            scrolled,
            current,
            self.table.scroll_settle_frames,
        );
        self.table.scroll_to_bottom_requested = next;
        self.table.scroll_settle_frames = frames;
        self.table.selected_row = selected;
        self.table.scroll_to_selected_requested = false;
        let resumed = should_resume_follow_at_latest_edge(
            self.table.stick_to_bottom,
            was_at_latest,
            at_latest,
            current,
        );
        if resumed {
            self.request_scroll_to_latest();
        }
        FrameReport { request_ended: requested && !next, follow_resumed: resumed }
    }

    /// Goes to the newest event.
    pub fn jump_to_latest(&mut self)
        ensures
            final(self).table == latest_requested(
                TableState { tail_was_at_bottom: true, ..old(self).table },
            ),
            same_contents(*old(self), *final(self)),
            same_display(*old(self), *final(self)),
    {
        self.table.tail_was_at_bottom = true;
        self.request_scroll_to_latest();
    }

    /// Has the newest event followed, or no longer.
    pub fn set_following(&mut self, follow: bool)
        ensures
            final(self).table == if follow {
                latest_requested(
                    TableState {
                        stick_to_bottom: true,
                        tail_was_at_bottom: true,
                        ..old(self).table
                    },
                )
            } else {
                TableState {
                    stick_to_bottom: false,
                    scroll_to_bottom_requested: false,
                    scroll_settle_frames: 0,
                    ..old(self).table
                }
            },
            same_contents(*old(self), *final(self)),
            same_display(*old(self), *final(self)),
    {
        self.table.stick_to_bottom = follow;
        if follow {
            self.jump_to_latest();
        } else {
            self.table.scroll_to_bottom_requested = false;
            self.table.scroll_settle_frames = 0;
        }
    }

    /// Pauses the table, or has it go on; then what is shown is brought up to date.
    pub fn toggle_pause(&mut self)
        ensures
            final(self).table == (TableState {
                paused: !old(self).table.paused,
                filters_dirty: old(self).table.filters_dirty || old(self).table.paused,
                ..old(self).table
            }),
            same_contents(*old(self), *final(self)),
            same_display(*old(self), *final(self)),
    {
        self.table.paused = !self.table.paused;
        if !self.table.paused {
            self.table.filters_dirty = true;
        }
    }

    /// Shows equivalent events as one row, or no longer. A reader at the newest
    /// event stays there.
    pub fn toggle_grouping(&mut self)
        ensures
            ({
                let changed = TableState {
                    group_errors: !old(self).table.group_errors,
                    ..old(self).table
                };
                let kept = TableState {
                    selected_row: kept_selection(changed, final(self).table_rows.rows@),
                    ..changed
                };
                &&& is_table(
                    old(self).store@.events,
                    old(self).visible_rows@,
                    changed,
                    final(self).table_rows,
                )
                &&& final(self).table == if old(self).table.tail_was_at_bottom {
                    latest_requested(kept)
                } else {
                    kept
                }
                &&& same_contents(*old(self), *final(self))
                &&& final(self).visible_rows == old(self).visible_rows
                &&& final(self).facet_counts == old(self).facet_counts
            }),
    {
        self.table.group_errors = !self.table.group_errors;
        self.rebuild_table_rows();
        if self.table.tail_was_at_bottom {
            self.request_scroll_to_latest();
        }
    }

    /// Selects the first row of an error, where there is one.
    pub fn select_first_error(&mut self)
        ensures
            ({
                let rows = old(self).table_rows.rows@;
                ||| {
                    &&& *final(self) == *old(self)
                    &&& forall|i: int|
                        0 <= i < rows.len() ==> !is_error_row(*old(self), #[trigger] rows[i])
                }
                ||| exists|place: int|
                    {
                        &&& 0 <= place < rows.len()
                        &&& is_error_row(*old(self), #[trigger] rows[place])
                        &&& forall|i: int|
                            0 <= i < place ==> !is_error_row(*old(self), #[trigger] rows[i])
                        &&& is_selected(*old(self), rows[place], *final(self))
                    }
            }),
    {
        let mut index: usize = 0;
        while index < self.table_rows.rows.len()
            invariant
                index <= self.table_rows.rows@.len(),
                *self == *old(self),
                forall|i: int|
                    0 <= i < index ==> !is_error_row(*self, #[trigger] self.table_rows.rows@[i]),
            decreases self.table_rows.rows@.len() - index,
        {
            let row: usize = self.table_rows.rows[index];
            let found = match self.store.get(row) {
                Some(event) => is_error_event(event),
                None => false,
            };
            assert(found == is_error_row(*self, self.table_rows.rows@[index as int]));
            if found {
                self.select(row);
                return;
            }
            index += 1;
        }
    }

    /// Shows a facet, or hides it.
    pub fn set_facet_visible(&mut self, facet: String, visible: bool)
        ensures
            final(self).hidden_facets@ == if visible {
                old(self).hidden_facets@.remove(facet@)
            } else {
                old(self).hidden_facets@.insert(facet@)
            },
            final(self).table == (TableState { filters_dirty: true, ..old(self).table }),
            same_contents(
                LogView { hidden_facets: final(self).hidden_facets, ..*old(self) },
                *final(self),
            ),
            same_display(*old(self), *final(self)),
    {
        if visible {
            self.hidden_facets.remove(facet.as_str());
        } else {
            self.hidden_facets.insert(facet);
        }
        self.table.filters_dirty = true;
    }

    /// Moves a facet up or down by one place.
    pub fn move_facet(&mut self, index: usize, up: bool)
        ensures
            ({
                let before = views(old(self).facet_order@);
                let other = if up {
                    index - 1
                } else {
                    index + 1
                };
                views(final(self).facet_order@) == if 0 <= other < before.len() && index
                    < before.len() {
                    before.update(index as int, before[other]).update(other, before[index as int])
                } else {
                    before
                }
            }),
            same_contents(
                LogView { facet_order: final(self).facet_order, ..*old(self) },
                *final(self),
            ),
            same_display(*old(self), *final(self)),
            final(self).table == old(self).table,
    {
        let count: usize = self.facet_order.len();
        let ghost before = views(self.facet_order@);
        if index >= count || (up && index == 0) || (!up && index + 1 == count) {
            return;
        }
        let other: usize = if up {
            index - 1
        } else {
            index + 1
        };
        let first = self.facet_order[index].clone();
        let second = self.facet_order[other].clone();
        self.facet_order.set(index, second);
        self.facet_order.set(other, first);
        assert(views(self.facet_order@) == before.update(index as int, before[other as int]).update(
            other as int,
            before[index as int],
        ));
    }

    /// What is told of how much is shown.
    pub fn shown_label(&self) -> (label: String)
        ensures
            label@ == shown_text(
                self.table.group_errors,
                self.table_rows.rows@.len(),
                self.visible_rows@.len(),
                self.store@.events.len(),
            ),
    {
        let shown: usize = self.visible_rows.len();
        let rows: usize = self.table_rows.rows.len();
        let mut label = String::new();
        if self.table.group_errors && rows != shown {
            push_decimal(&mut label, rows as u64);
            label.append(" groups · ");
            push_decimal(&mut label, shown as u64);
            label.append(" events");
        } else {
            push_decimal(&mut label, shown as u64);
            label.append(" shown");
        }
        label.append("  ·  ");
        push_decimal(&mut label, self.store.len() as u64);
        label.append(" loaded");
        assert(label@ == shown_text(
            self.table.group_errors,
            self.table_rows.rows@.len(),
            self.visible_rows@.len(),
            self.store@.events.len(),
        ));
        label
    }
}

/// Whether a row holds an error.
pub open spec fn is_error_row(view: LogView, row: usize) -> bool {
    row < view.store@.events.len() && is_sought(view.store@.events[row as int], true)
}

/// What is told of how much is shown: of groups where there are fewer of them than
/// events, and of the events that are loaded.
pub open spec fn shown_text(grouped: bool, rows: nat, shown: nat, loaded: nat) -> Seq<char> {
    (if grouped && rows != shown {
        decimal_text(rows) + " groups · "@ + decimal_text(shown) + " events"@
    } else {
        decimal_text(shown) + " shown"@
    }) + "  ·  "@ + decimal_text(loaded) + " loaded"@
}

/// One step in a ring leads to the place beside, and from an end to the other end; without a
/// place to start from, forward to the first one and backward to the last.
pub proof fn lemma_ring_goes_around(count: int, place: int)
    requires
        0 <= place < count,
    ensures
        ring_place(count, Some(place), true, 1) == (if place + 1 < count {
            place + 1
        } else {
            0
        }),
        ring_place(count, Some(place), false, 1) == (if place > 0 {
            place - 1
        } else {
            count - 1
        }),
        ring_place(count, None, true, 1) == 0,
        ring_place(count, None, false, 1) == count - 1,
        ring_place(count, Some(ring_place(count, Some(place), true, 1)), false, 1) == place,
{
    vstd::arithmetic::div_mod::lemma_small_mod(0, count as nat);
    if place + 1 < count {
        vstd::arithmetic::div_mod::lemma_small_mod((place + 1) as nat, count as nat);
        vstd::arithmetic::div_mod::lemma_small_mod(place as nat, count as nat);
    } else {
        vstd::arithmetic::div_mod::lemma_mod_self_0(count);
        vstd::arithmetic::div_mod::lemma_mod_add_multiples_vanish(-1, count);
        vstd::arithmetic::div_mod::lemma_small_mod((count - 1) as nat, count as nat);
    }
    if place > 0 {
        vstd::arithmetic::div_mod::lemma_small_mod((place - 1) as nat, count as nat);
    } else {
        vstd::arithmetic::div_mod::lemma_mod_add_multiples_vanish(-1, count);
        vstd::arithmetic::div_mod::lemma_small_mod((count - 1) as nat, count as nat);
    }
    vstd::arithmetic::div_mod::lemma_mod_add_multiples_vanish(-1, count);
    vstd::arithmetic::div_mod::lemma_small_mod((count - 1) as nat, count as nat);
}

/// Errors and fatal errors are looked for as errors, and nothing else is; without that, all
/// events are looked for.
pub proof fn lemma_errors_are_sought(event: LogEvent)
    ensures
        is_sought(event, true) <==> event.level == Level::Error || event.level == Level::Fatal,
        is_sought(event, false),
{
}

/// Where rows are not grouped, the table shows each of them and no groups.
pub proof fn lemma_ungrouped_table_shows_all(
    events: Seq<LogEvent>,
    rows: Seq<usize>,
    table: TableState,
    shown: TableRows,
)
    requires
        is_table(events, rows, table, shown),
        !table.group_errors,
    ensures
        shown.rows@ == rows,
        shown.groups@.len() == 0,
{
}

/// What is told of how much is shown counts the rows that are shown, the groups where there
/// are fewer, and all events that are loaded.
pub proof fn lemma_shown_text_counts(grouped: bool, rows: nat, shown: nat, loaded: nat)
    ensures
        has_suffix(shown_text(grouped, rows, shown, loaded), decimal_text(loaded) + " loaded"@),
        !grouped || rows == shown ==> has_prefix(
            shown_text(grouped, rows, shown, loaded),
            decimal_text(shown) + " shown"@,
        ),
        grouped && rows != shown ==> has_prefix(
            shown_text(grouped, rows, shown, loaded),
            decimal_text(rows) + " groups · "@ + decimal_text(shown) + " events"@,
        ),
{
    let start = if grouped && rows != shown {
        decimal_text(rows) + " groups · "@ + decimal_text(shown) + " events"@
    } else {
        decimal_text(shown) + " shown"@
    };
    let end = decimal_text(loaded) + " loaded"@;
    let text = shown_text(grouped, rows, shown, loaded);
    assert(text == start + "  ·  "@ + end);
    assert(text.take(start.len() as int) == start);
    assert(text.skip(text.len() - end.len()) == end);
}

/// A view that is brought up to date shows the rows of the events that pass its filter, and
/// no others: of those that were found for its text, where it has one. They stand from the
/// oldest to the newest where the newest is at the bottom, and else the other way round.
pub proof fn lemma_refreshed_view_shows_what_passes(
    before: LogView,
    now: Timestamp,
    after: LogView,
    row: usize,
)
    requires
        is_refreshed(before, now, after),
        row < before.store@.events.len(),
    ensures
        after.visible_rows@.contains(row) <==> {
            let event = before.store@.events[row as int];
            &&& trimmed(before.filter.text@).len() > 0 ==> before.search@.matches.contains(row)
            &&& conditions_accept(before.filter.text@, now, event)
            &&& facets_allow(before.filter, None, event)
        },
        before.table.latest_at == LatestAt::Bottom ==> forall|i: int, j: int|
            0 <= i < j < after.visible_rows@.len() ==> after.visible_rows@[i]
                < after.visible_rows@[j],
        before.table.latest_at == LatestAt::Top ==> forall|i: int, j: int|
            0 <= i < j < after.visible_rows@.len() ==> after.visible_rows@[i]
                > after.visible_rows@[j],
        !after.table.filters_dirty,
{
    let (names, results) = choose|names: Seq<Seq<char>>, results: FilterResults| #[trigger]
        shows_results(before, now, names, results, after);
    let matches = text_rows(before.filter.text@, before.search@.matches);
    let store = before.store@;
    let test = |row: int|
        {
            &&& search_accepts(matches, row)
            &&& conditions_accept(before.filter.text@, now, store.events[row])
            &&& facets_allow(before.filter, None, store.events[row])
        };
    let rows = results.rows@;
    assert(lists_rows(rows, store.events.len(), test));
    let shown = after.visible_rows@;
    assert(shown.contains(row) <==> rows.contains(row)) by {
        if shown.contains(row) {
            let i = choose|i: int| 0 <= i < shown.len() && shown[i] == row;
            if before.table.latest_at == LatestAt::Top {
                assert(rows[rows.len() - 1 - i] == row);
            } else {
                assert(rows[i] == row);
            }
        }
        if rows.contains(row) {
            let i = choose|i: int| 0 <= i < rows.len() && rows[i] == row;
            if before.table.latest_at == LatestAt::Top {
                assert(shown[rows.len() - 1 - i] == row);
            } else {
                assert(shown[i] == row);
            }
        }
    }
    if rows.contains(row) {
        let i = choose|i: int| 0 <= i < rows.len() && rows[i] == row;
        assert(test(rows[i] as int));
    }
    if test(row as int) {
        assert(rows.contains(row));
    }
}

/// What a search found is used only for the text that was searched for and the events that
/// are still there, and counts for all of them only where all were searched.
pub proof fn lemma_search_result_is_for_its_text(
    search: SearchModel,
    text: Seq<char>,
    store: StoreModel,
)
    ensures
        search.query != text ==> !cache_is_current(search, text, store) && !can_extend(
            search,
            text,
            store,
        ),
        search.discarded_events != store.discarded ==> !cache_is_current(search, text, store)
            && !can_extend(search, text, store),
        search.event_count != store.events.len() ==> !cache_is_current(search, text, store),
        search.query == text && search.discarded_events == store.discarded && search.event_count
            == store.events.len() ==> cache_is_current(search, text, store),
        search.query == text && search.discarded_events == store.discarded && search.event_count
            < store.events.len() ==> can_extend(search, text, store),
{
}

/// A search that is scheduled makes what is on its way void, and is begun once its time has
/// come, unless the table is paused.
pub proof fn lemma_scheduled_search_is_begun(
    search: SearchModel,
    now: u64,
    delay: u64,
    nanos: u64,
)
    requires
        now + delay <= u64::MAX,
    ensures
        ({
            let after = scheduled(search, now, delay);
            &&& after.generation != search.generation
            &&& !after.in_flight
            &&& is_due(after, false, nanos) <==> nanos >= now + delay
            &&& !is_due(after, true, nanos)
            &&& after.matches == search.matches
            &&& after.query == search.query
        }),
        forgotten(search).generation != search.generation,
        forgotten(search).matches.len() == 0,
        !is_due(forgotten(search), false, nanos),
{
}

/// What a search that goes on found is put behind what was found before; what a search of all
/// events found takes its place.
pub proof fn lemma_search_results_are_taken_over(search: SearchModel, response: SearchResponse)
    ensures
        response.mode is Full ==> answered(search, response).matches == response.matches@,
        response.mode is Incremental ==> answered(search, response).matches == search.matches
            + response.matches@,
        answered(search, response).query == response.query@,
        answered(search, response).event_count == response.event_count,
        answered(search, response).discarded_events == response.discarded_events,
        !answered(search, response).in_flight,
{
}

/// Asking for the newest event, and what stays selected.
pub proof fn lemma_selection_stays_where_shown(table: TableState, shown: Seq<usize>, row: usize)
    ensures
        latest_requested(table).scroll_to_bottom_requested,
        latest_requested(table).scroll_settle_frames == 2,
        latest_requested(table).selected_row == table.selected_row,
        table.selected_row == Some(row) && shown.contains(row) ==> kept_selection(table, shown)
            == Some(row),
        table.selected_row == Some(row) && !table.group_errors ==> kept_selection(table, shown)
            == Some(row),
        table.selected_row == Some(row) && table.group_errors && !shown.contains(row)
            ==> kept_selection(table, shown) is None,
        table.selected_row is None ==> kept_selection(table, shown) is None,
{
}

/// A row that was not shown is shown once the filter is cleared and, where that is needed, its
/// events are no longer grouped.
pub proof fn lemma_uncovered_row_is_shown(
    before: LogView,
    cleared: FilterState,
    now: Timestamp,
    fresh: LogView,
    row: usize,
    after: LogView,
)
    requires
        is_uncovered(before, cleared, now, fresh, row, after),
        row < before.store@.events.len(),
    ensures
        after.table_rows.rows@.contains(row),
{
    let start = LogView { filter: cleared, ..before };
    lemma_refreshed_view_shows_what_passes(start, now, fresh, row);
    let event = before.store@.events[row as int];
    assert(trimmed(cleared.text@).len() == 0);
    assert(conditions_accept(cleared.text@, now, event));
    assert(facets_allow(cleared, None, event));
    assert(fresh.visible_rows@.contains(row));
}

/// The newest event is asked for where the reader follows it and another event has become the
/// newest that is shown; otherwise nothing changes.
pub proof fn lemma_followed_tail_is_asked_for(
    previous: Option<u64>,
    before: LogView,
    after: LogView,
)
    requires
        follows_tail(previous, before, after),
    ensures
        !before.table.stick_to_bottom ==> after == before,
        !tail_differs(previous, before) ==> after == before,
        before.table.stick_to_bottom && tail_differs(previous, before)
            ==> after.table.scroll_to_bottom_requested,
        after.table.selected_row == before.table.selected_row,
        after.store == before.store,
        after.filter == before.filter,
        previous is None && before.visible_rows@.len() == 0 ==> after == before,
{
}

/// A text that was not searched for yet is searched for at once; without a text no search waits
/// or is on its way; and a search that does is left alone.
pub proof fn lemma_missing_search_is_begun(view: LogView, nanos: u64)
    ensures
        ({
            let search = view.search@;
            let settled = settled_search(view, nanos);
            let waits = search.due_at is Some || search.in_flight;
            &&& !view.has_text() ==> settled.due_at is None && !settled.in_flight
            &&& view.has_text() && waits ==> settled == search
            &&& view.has_text() && cache_is_current(search, view.filter.text@, view.store@)
                ==> settled == search
            &&& view.has_text() && !waits && !cache_is_current(
                search,
                view.filter.text@,
                view.store@,
            ) ==> is_due(settled, false, nanos)
            &&& settled.matches == search.matches
            &&& settled.query == search.query
        }),
{
}

/// What is reported of a frame: that a request came to its end only where there was one, and
/// that the reader follows again only where the newest end was reached without a jump to it.
pub proof fn lemma_reports_tell_changes(view: LogView, scrolled: bool, at_edge: bool)
    ensures
        ({
            let report = report_of(view, scrolled, at_edge);
            &&& report.request_ended ==> view.table.scroll_to_bottom_requested
            &&& report.follow_resumed ==> view.table.stick_to_bottom
                && !view.table.tail_was_at_bottom && at_edge && !scrolled
            &&& view.table.stick_to_bottom && !view.table.tail_was_at_bottom && at_edge && !scrolled
                && !is_current(view) ==> report.follow_resumed
        }),
{
}

}
