//! The bounded store of events, newest last, with its facet index.
use std::sync::Arc;

use roaring::RoaringBitmap;
use vstd::prelude::*;

use crate::event::LogEvent;
use crate::facet::{
    facet_is_active, facet_name, facet_named, facet_value, facets_allow, filter_is_active,
    lemma_facet_names, other_facet_active, selection_allows, EventFacet, FacetSelection,
    FilterState,
};
use crate::index::FacetIndex;
use crate::level::{all_levels, lemma_level_text_names_level, level_text, severity_of, Level};
use crate::ordered::{increasing, text_less, TextMap, TextSet};
use crate::query::{
    all_hold, condition_outcome, entry_words, lemma_blank_query_says_nothing, outcomes,
    parse_structured_query, part_value, predicate_holds, query_entries, says, value_satisfies,
    ConditionModel, ParsedPredicate, ParsedQuery, QueryEntry, QueryError,
};
use crate::rows::{
    add_row, add_rows, count_rows, count_shared_rows, drop_rows, keep_rows, list_rows, no_rows,
    rows_of,
};
use crate::search::{
    contains_all, document_matches_terms, document_of, search_document, search_terms, share,
    terms_of,
};
use crate::sorting::{comes_before, covers, in_key_order, stable_order, Rank};
use crate::text::{
    ends_word, is_blank, joined, lemma_no_words, lowered, same, split_where, trimmed, views,
};
use crate::time::Timestamp;

verus! {

/// How many events a store holds unless it is told otherwise.
pub const DEFAULT_MAX_EVENTS: usize = 250_000;

/// What a store holds: the events, the most that it keeps, whether it keeps more
/// than that for the time being, and how many it has let go of.
#[verifier::ext_equal]
pub struct StoreModel {
    pub events: Seq<LogEvent>,
    pub max_events: nat,
    pub paused: bool,
    pub discarded: nat,
}

/// A limit of at least one.
pub open spec fn limit_of(max_events: nat) -> nat {
    if max_events < 1 {
        1
    } else {
        max_events
    }
}

/// A store that has let go of the oldest events above its limit, unless that is
/// paused.
pub open spec fn pruned(store: StoreModel) -> StoreModel {
    if store.paused || store.events.len() <= store.max_events {
        store
    } else {
        let excess = (store.events.len() - store.max_events) as nat;
        StoreModel {
            events: store.events.skip(excess as int),
            max_events: store.max_events,
            paused: store.paused,
            discarded: store.discarded + excess,
        }
    }
}

/// A store with more events, the oldest let go of.
pub open spec fn extended(store: StoreModel, events: Seq<LogEvent>) -> StoreModel {
    pruned(
        StoreModel {
            events: store.events + events,
            max_events: store.max_events,
            paused: store.paused,
            discarded: store.discarded,
        },
    )
}

/// Whether a store can be as it is: it keeps at least one event, and none above its limit
/// unless that is paused.
pub open spec fn is_valid(store: StoreModel) -> bool {
    &&& store.max_events >= 1
    &&& store.paused || store.events.len() <= store.max_events
}

/// Whether a store can take a number of events more: that all events ever taken
/// can be counted, and that the rows of those that are kept can be.
pub open spec fn has_room(store: StoreModel, count: nat) -> bool {
    let held = store.events.len() + count;
    &&& store.discarded + held <= u64::MAX
    &&& store.paused || held <= store.max_events ==> held <= u32::MAX
    &&& !store.paused && held > store.max_events ==> store.max_events <= u32::MAX
}

/// A bounded store of events, newest last.
#[derive(Debug)]
pub struct EventStore {
    events: Vec<LogEvent>,
    event_ids: Vec<u64>,
    search_documents: Vec<Arc<String>>,
    index: FacetIndex,
    max_events: usize,
    pruning_paused: bool,
    discarded_events: u64,
    next_event_id: u64,
}

impl View for EventStore {
    type V = StoreModel;

    closed spec fn view(&self) -> StoreModel {
        StoreModel {
            events: self.events@,
            max_events: self.max_events as nat,
            paused: self.pruning_paused,
            discarded: self.discarded_events as nat,
        }
    }
}

impl Default for EventStore {
    /// An empty store with the usual limit.
    fn default() -> (store: Self)
        ensures
            store.wf(),
            store@ == (StoreModel {
                events: Seq::empty(),
                max_events: DEFAULT_MAX_EVENTS as nat,
                paused: false,
                discarded: 0,
            }),
    {
        EventStore::new(DEFAULT_MAX_EVENTS)
    }
}

impl EventStore {
    /// Whether the parts agree but for the facet index.
    closed spec fn aligned(self) -> bool {
        &&& self.event_ids@.len() == self.events@.len()
        &&& self.search_documents@.len() == self.events@.len()
        &&& 1 <= self.max_events
        &&& self.next_event_id == self.discarded_events + self.events@.len()
        &&& forall|i: int|
            0 <= i < self.events@.len() ==> #[trigger] self.event_ids@[i] == self.discarded_events
                + i
        &&& forall|i: int|
            0 <= i < self.events@.len() ==> (#[trigger] self.search_documents@[i])@ == document_of(
                self.events@[i],
            )
    }

    /// Whether the parts of the store agree, and it holds no more than it may.
    pub closed spec fn wf(self) -> bool {
        &&& self.aligned()
        &&& self.index.indexes(self.events@)
        &&& self.events@.len() <= u32::MAX
        &&& !self.pruning_paused ==> self.events@.len() <= self.max_events
    }

    /// An empty store with a limit.
    pub fn new(max_events: usize) -> (store: Self)
        ensures
            store.wf(),
            store@ == (StoreModel {
                events: Seq::empty(),
                max_events: limit_of(max_events as nat),
                paused: false,
                discarded: 0,
            }),
    {
        EventStore {
            events: Vec::new(),
            event_ids: Vec::new(),
            search_documents: Vec::new(),
            index: FacetIndex::new(),
            max_events: clamp_limit(max_events),
            pruning_paused: false,
            discarded_events: 0,
            next_event_id: 0,
        }
    }

    /// The number of events held.
    pub fn len(&self) -> (result: usize)
        ensures
            result == self@.events.len(),
    {
        self.events.len()
    }

    /// Whether no event is held.
    pub fn is_empty(&self) -> (result: bool)
        ensures
            result == (self@.events.len() == 0),
    {
        self.events.len() == 0
    }

    /// How many events the store has let go of.
    pub fn discarded_events(&self) -> (result: u64)
        ensures
            result == self@.discarded,
    {
        self.discarded_events
    }

    /// The most events that the store keeps.
    pub fn max_events(&self) -> (result: usize)
        ensures
            result == self@.max_events,
    {
        self.max_events
    }

    /// Sets the most events that the store keeps, and lets go of those above it.
    pub fn set_max_events(&mut self, max_events: usize)
        requires
            old(self).wf(),
        ensures
            final(self).wf(),
            final(self)@ == pruned(
                StoreModel { max_events: limit_of(max_events as nat), ..old(self)@ },
            ),
    {
        self.max_events = clamp_limit(max_events);
        self.prune_to_limit();
    }

    /// Stops or resumes letting go of events above the limit.
    pub fn set_pruning_paused(&mut self, paused: bool)
        requires
            old(self).wf(),
        ensures
            final(self).wf(),
            final(self)@ == pruned(StoreModel { paused, ..old(self)@ }),
    {
        self.pruning_paused = paused;
        if !paused {
            self.prune_to_limit();
        }
    }

    /// The event in a row.
    pub fn get(&self, index: usize) -> (result: Option<&LogEvent>)
        ensures
            match result {
                Some(event) => index < self@.events.len() && *event == self@.events[index as int],
                None => index >= self@.events.len(),
            },
    {
        if index < self.events.len() {
            Some(&self.events[index])
        } else {
            None
        }
    }

    /// The number of an event among all events that the store ever took, which
    /// stays the same while rows shift.
    pub fn event_id(&self, index: usize) -> (result: Option<u64>)
        requires
            self.wf(),
        ensures
            match result {
                Some(id) => index < self@.events.len() && id == self@.discarded + index,
                None => index >= self@.events.len(),
            },
    {
        if index < self.event_ids.len() {
            Some(self.event_ids[index])
        } else {
            None
        }
    }

    /// Takes an event.
    pub fn push(&mut self, event: LogEvent)
        requires
            old(self).wf(),
            has_room(old(self)@, 1),
        ensures
            final(self).wf(),
            final(self)@ == extended(old(self)@, seq![event]),
    {
        let document = search_document(&event);
        let event_id = self.take_next_event_id();
        let fits = self.pruning_paused || self.events.len() < self.max_events;
        let ghost before = *self;
        let ghost given = old(self).events@;
        if fits {
            let row: u32 = self.events.len() as u32;
            self.index.add_event(row, &event);
        }
        self.search_documents.push(document);
        self.events.push(event);
        self.event_ids.push(event_id);
        proof {
            assert(self.events@ == given + seq![event]);
            assert(self.events@ == given.push(event));
            assert(self.aligned());
            if fits {
                lemma_index_grows(old(self).index, self.index, given, event);
            }
        }
        if !fits {
            self.prune_to_limit();
        }
    }

    /// Takes events.
    pub fn extend(&mut self, events: Vec<LogEvent>)
        requires
            old(self).wf(),
            has_room(old(self)@, events@.len()),
            old(self)@.events.len() + events@.len() <= usize::MAX,
        ensures
            final(self).wf(),
            final(self)@ == extended(old(self)@, events@),
    {
        let mut events = events;
        let ghost added = events@;
        let ghost given = self.events@;
        let overflows = !self.pruning_paused && self.events.len() + events.len() > self.max_events;
        let mut offset: usize = 0;
        assert(given + added.take(0) == given);
        while offset < events.len()
            invariant
                offset <= events.len(),
                events@ == added,
                self.events@ == given,
                given == old(self).events@,
                self.max_events == old(self).max_events,
                1 <= self.max_events,
                self.pruning_paused == old(self).pruning_paused,
                self.discarded_events == old(self).discarded_events,
                has_room(old(self)@, added.len()),
                given.len() + added.len() <= usize::MAX,
                overflows == (!self.pruning_paused && given.len() + added.len() > self.max_events),
                self.next_event_id == self.discarded_events + given.len() + offset,
                self.event_ids@.len() == given.len() + offset,
                self.search_documents@.len() == given.len() + offset,
                forall|i: int|
                    0 <= i < given.len() + offset ==> #[trigger] self.event_ids@[i]
                        == self.discarded_events + i,
                forall|i: int|
                    0 <= i < given.len() + offset ==> (#[trigger] self.search_documents@[i])@
                        == document_of((given + added)[i]),
                !overflows ==> self.index.indexes(given + added.take(offset as int)),
            decreases events.len() - offset,
        {
            let event = &events[offset];
            assert((given + added)[given.len() + offset] == event);
            if !overflows {
                let ghost index = self.index;
                let row: u32 = (self.events.len() + offset) as u32;
                self.index.add_event(row, event);
                proof {
                    let held = given + added.take(offset as int);
                    assert(given + added.take(offset + 1) == held.push(*event));
                    lemma_index_grows(index, self.index, held, *event);
                }
            }
            self.search_documents.push(search_document(event));
            let event_id = self.take_next_event_id();
            self.event_ids.push(event_id);
            offset += 1;
        }
        assert(added.take(offset as int) == added);
        self.events.append(&mut events);
        assert(self.events@ == given + added);
        assert(self.aligned());
        if overflows {
            self.prune_to_limit();
        }
    }

    /// Lets go of the oldest events above the limit.
    fn prune_to_limit(&mut self) -> (count: usize)
        requires
            old(self).aligned(),
            !old(self).pruning_paused && old(self).events@.len() > old(self).max_events
                || old(self).index.indexes(old(self).events@),
            pruned(old(self)@).events.len() <= u32::MAX,
        ensures
            final(self).wf(),
            final(self)@ == pruned(old(self)@),
            count == old(self)@.events.len() - final(self)@.events.len(),
            count == final(self)@.discarded - old(self)@.discarded,
    {
        if self.pruning_paused || self.events.len() <= self.max_events {
            return 0;
        }
        let count: usize = self.events.len() - self.max_events;
        let events = self.events.split_off(count);
        let event_ids = self.event_ids.split_off(count);
        let search_documents = self.search_documents.split_off(count);
        self.events = events;
        self.event_ids = event_ids;
        self.search_documents = search_documents;
        self.discarded_events = self.discarded_events + count as u64;
        self.index = FacetIndex::of_events(&self.events);
        assert(self.events@ == old(self).events@.skip(count as int));
        count
    }

    /// The number of the next event.
    fn take_next_event_id(&mut self) -> (event_id: u64)
        requires
            old(self).next_event_id < u64::MAX,
        ensures
            event_id == old(self).next_event_id,
            *final(self) == (EventStore {
                next_event_id: (old(self).next_event_id + 1) as u64,
                ..*old(self)
            }),
    {
        let event_id: u64 = self.next_event_id;
        self.next_event_id = self.next_event_id.wrapping_add(1);
        event_id
    }
}

/// An index of events that took the values of one more is that of them all.
proof fn lemma_index_grows(
    before: FacetIndex,
    after: FacetIndex,
    events: Seq<LogEvent>,
    event: LogEvent,
)
    requires
        before.indexes(events),
        after.is_tight(),
        events.len() < u32::MAX,
        forall|facet: Seq<char>, value: Seq<char>, row: u32| #[trigger]
            after.has(facet, value, row) == (before.has(facet, value, row) || (row == events.len()
                && facet_value(event, facet) == Some(value))),
    ensures
        after.indexes(events.push(event)),
{
    let longer = events.push(event);
    assert forall|facet: Seq<char>, value: Seq<char>, row: u32| #[trigger]
        after.has(facet, value, row) <==> row < longer.len() && facet_value(
            longer[row as int],
            facet,
        ) == Some(value) by {
        if row < events.len() {
            assert(longer[row as int] == events[row as int]);
        }
    }
}

/// A well-formed store can be as it is.
pub proof fn lemma_well_formed_is_valid(store: EventStore)
    requires
        store.wf(),
    ensures
        is_valid(store@),
{
}

/// A limit of at least one.
fn clamp_limit(max_events: usize) -> (limit: usize)
    ensures
        limit == limit_of(max_events as nat),
{
    if max_events < 1 {
        1
    } else {
        max_events
    }
}

/// The words that a query searches for.
pub open spec fn query_words(query: Seq<char>) -> Seq<char> {
    joined(entry_words(query_entries(query)), " "@)
}

/// Whether an event contains the words that a query searches for.
pub open spec fn words_accept(query: Seq<char>, event: LogEvent) -> bool {
    contains_all(document_of(event), terms_of(query_words(query)))
}

/// Whether an event satisfies a condition.
pub open spec fn condition_holds(
    field: Seq<char>,
    condition: ConditionModel,
    event: LogEvent,
) -> bool {
    match part_value(event, lowered(field)) {
        Some(value) => value_satisfies(condition.operator, value, condition.literal),
        None => false,
    }
}

/// Whether an event satisfies what a query says at one place. Nothing satisfies
/// what is wrong with it.
pub open spec fn entry_holds(entry: QueryEntry, now: Timestamp, event: LogEvent) -> bool {
    match entry {
        QueryEntry::Word(_) => true,
        QueryEntry::Condition { field, operator, value, .. } => {
            match condition_outcome(field, operator, value, now) {
                Ok(condition) => condition_holds(field, condition, event),
                Err(_) => false,
            }
        },
        _ => false,
    }
}

/// Whether an event satisfies every one of some entries of a query.
pub open spec fn entries_hold(entries: Seq<QueryEntry>, now: Timestamp, event: LogEvent) -> bool {
    forall|i: int| 0 <= i < entries.len() ==> entry_holds(#[trigger] entries[i], now, event)
}

/// Whether an event satisfies the conditions of a query.
pub open spec fn conditions_accept(query: Seq<char>, now: Timestamp, event: LogEvent) -> bool {
    entries_hold(query_entries(query), now, event)
}

/// The conditions and errors of a parsed query decide as the query does.
proof fn lemma_outcomes_decide(
    entries: Seq<QueryEntry>,
    now: Timestamp,
    predicates: Seq<ParsedPredicate>,
    errors: Seq<QueryError>,
    event: LogEvent,
)
    requires
        outcomes(entries, now, predicates, errors),
    ensures
        entries_hold(entries, now, event) == (errors.len() == 0 && all_hold(predicates, event)),
    decreases entries.len(),
{
    if entries.len() > 0 {
        let before = entries.drop_last();
        let last = entries.last();
        assert(entries_hold(entries, now, event) == (entries_hold(before, now, event)
            && entry_holds(last, now, event))) by {
            assert forall|i: int| 0 <= i < before.len() implies #[trigger] before[i]
                == entries[i] by {}
            if entries_hold(entries, now, event) {
                assert(entry_holds(entries[entries.len() - 1], now, event));
                assert forall|i: int| 0 <= i < before.len() implies entry_holds(
                    #[trigger] before[i],
                    now,
                    event,
                ) by {
                    assert(entry_holds(entries[i], now, event));
                }
            }
            if entries_hold(before, now, event) && entry_holds(last, now, event) {
                assert forall|i: int| 0 <= i < entries.len() implies entry_holds(
                    #[trigger] entries[i],
                    now,
                    event,
                ) by {
                    if i < before.len() {
                        assert(entry_holds(before[i], now, event));
                    }
                }
            }
        }
        match last {
            QueryEntry::Word(_) => {
                lemma_outcomes_decide(before, now, predicates, errors, event);
            },
            QueryEntry::Condition { field, operator, value, .. } => {
                match condition_outcome(field, operator, value, now) {
                    Ok(condition) => {
                        let fewer = predicates.drop_last();
                        lemma_outcomes_decide(before, now, fewer, errors, event);
                        assert(predicate_holds(predicates.last().predicate, event)
                            == condition_holds(field, condition, event));
                        assert(all_hold(predicates, event) == (all_hold(fewer, event)
                            && predicate_holds(predicates.last().predicate, event))) by {
                            assert forall|i: int| 0 <= i < fewer.len() implies #[trigger] fewer[i]
                                == predicates[i] by {}
                            if all_hold(predicates, event) {
                                assert(predicate_holds(
                                    predicates[predicates.len() - 1].predicate,
                                    event,
                                ));
                                assert forall|i: int|
                                    0 <= i < fewer.len() implies predicate_holds(
                                    (#[trigger] fewer[i]).predicate,
                                    event,
                                ) by {
                                    assert(predicate_holds(predicates[i].predicate, event));
                                }
                            }
                            if all_hold(fewer, event) && predicate_holds(
                                predicates.last().predicate,
                                event,
                            ) {
                                assert forall|i: int|
                                    0 <= i < predicates.len() implies predicate_holds(
                                    (#[trigger] predicates[i]).predicate,
                                    event,
                                ) by {
                                    if i < fewer.len() {
                                        assert(predicate_holds(fewer[i].predicate, event));
                                    }
                                }
                            }
                        }
                    },
                    Err(_) => {
                        lemma_outcomes_decide(before, now, predicates, errors.drop_last(), event);
                    },
                }
            },
            _ => {
                lemma_outcomes_decide(before, now, predicates, errors.drop_last(), event);
            },
        }
    }
}

/// Whether rows are exactly those below a count that pass a test, in increasing
/// order.
pub open spec fn lists_rows(rows: Seq<usize>, count: nat, test: spec_fn(int) -> bool) -> bool {
    &&& forall|i: int, j: int| 0 <= i < j < rows.len() ==> rows[i] < rows[j]
    &&& forall|i: int| 0 <= i < rows.len() ==> rows[i] < count && test(#[trigger] rows[i] as int)
    &&& forall|row: int| 0 <= row < count && #[trigger] test(row) ==> rows.contains(row as usize)
}

/// Whether the event in a row passes a filter, all but one facet.
pub open spec fn row_passes(
    store: StoreModel,
    filter: FilterState,
    now: Timestamp,
    ignored: Option<Seq<char>>,
    row: int,
) -> bool {
    &&& words_accept(filter.text@, store.events[row])
    &&& conditions_accept(filter.text@, now, store.events[row])
    &&& facets_allow(filter, ignored, store.events[row])
}

/// Whether rows are those whose events pass a filter at an instant.
pub open spec fn is_query_result(
    store: StoreModel,
    filter: FilterState,
    now: Timestamp,
    rows: Seq<usize>,
) -> bool {
    lists_rows(rows, store.events.len(), |row: int| row_passes(store, filter, now, None, row))
}

/// Whether a list holds the values of a facet and how many events that pass a
/// filter at an instant, but for the facet's own selection, have them.
pub open spec fn is_facet_result(
    store: StoreModel,
    filter: FilterState,
    now: Timestamp,
    facet: Seq<char>,
    counts: Seq<(String, u64)>,
) -> bool {
    is_facet_counts(
        counts,
        store.events,
        facet,
        |row: int| row_passes(store, filter, now, Some(facet), row),
    )
}

/// The rows of a bitmap are those below a count that pass a test.
spec fn holds_rows(bitmap: RoaringBitmap, count: nat, test: spec_fn(int) -> bool) -> bool {
    forall|row: u32| #[trigger]
        rows_of(bitmap).contains(row) <==> (row < count && test(row as int))
}

/// The rows of a bitmap as row numbers.
fn row_numbers(bitmap: &RoaringBitmap, Ghost(count): Ghost<nat>, Ghost(test): Ghost<
    spec_fn(int) -> bool,
>) -> (rows: Vec<usize>)
    requires
        holds_rows(*bitmap, count, test),
        count <= u32::MAX,
    ensures
        lists_rows(rows@, count, test),
{
    let listed = list_rows(bitmap);
    let mut rows: Vec<usize> = Vec::new();
    let mut index: usize = 0;
    while index < listed.len()
        invariant
            index <= listed.len(),
            rows@.len() == index,
            forall|i: int| 0 <= i < index ==> #[trigger] rows@[i] == listed@[i],
        decreases listed.len() - index,
    {
        rows.push(listed[index] as usize);
        index += 1;
    }
    proof {
        assert forall|i: int| 0 <= i < rows@.len() implies rows@[i] < count && test(
            #[trigger] rows@[i] as int,
        ) by {
            assert(listed@.contains(listed@[i]));
            assert(listed@.to_set().contains(listed@[i]));
            assert(rows_of(*bitmap).contains(listed@[i]));
        }
        assert forall|row: int| 0 <= row < count && #[trigger] test(row) implies rows@.contains(
            row as usize,
        ) by {
            assert(rows_of(*bitmap).contains(row as u32));
            assert(listed@.to_set().contains(row as u32));
            let i = choose|i: int| 0 <= i < listed@.len() && listed@[i] == row as u32;
            assert(rows@[i] == row as usize);
        }
    }
    rows
}

impl EventStore {
    /// The rows whose events satisfy the conditions of a parsed query; nothing
    /// where it has none, and no row where something is wrong with it.
    fn structured_matches(&self, parsed: &ParsedQuery, Ghost(query): Ghost<Seq<char>>, Ghost(
        now,
    ): Ghost<Timestamp>) -> (result: Option<RoaringBitmap>)
        requires
            self.wf(),
            says(query, now, *parsed),
        ensures
            match result {
                Some(bitmap) => holds_rows(
                    bitmap,
                    self@.events.len(),
                    |row: int| conditions_accept(query, now, self@.events[row]),
                ),
                None => forall|row: int|
                    0 <= row < self@.events.len() ==> conditions_accept(
                        query,
                        now,
                        #[trigger] self@.events[row],
                    ),
            },
    {
        proof {
            assert forall|row: int| 0 <= row < self.events@.len() implies conditions_accept(
                query,
                now,
                #[trigger] self.events@[row],
            ) == (parsed.errors@.len() == 0 && all_hold(parsed.predicates@, self.events@[row])) by {
                lemma_outcomes_decide(
                    query_entries(query),
                    now,
                    parsed.predicates@,
                    parsed.errors@,
                    self.events@[row],
                );
            }
        }
        if parsed.predicates.len() == 0 && parsed.errors.len() == 0 {
            return None;
        }
        let mut result = no_rows();
        if parsed.errors.len() > 0 {
            return Some(result);
        }
        let ghost test = |row: int| conditions_accept(query, now, self.events@[row]);
        let mut row: usize = 0;
        while row < self.events.len()
            invariant
                row <= self.events.len(),
                self.events@.len() <= u32::MAX,
                parsed.errors@.len() == 0,
                test == (|row: int| conditions_accept(query, now, self.events@[row])),
                forall|row: int|
                    0 <= row < self.events@.len() ==> conditions_accept(
                        query,
                        now,
                        #[trigger] self.events@[row],
                    ) == all_hold(parsed.predicates@, self.events@[row]),
                holds_rows(result, row as nat, test),
            decreases self.events.len() - row,
        {
            let event = &self.events[row];
            let mut holds = true;
            let mut index: usize = 0;
            while index < parsed.predicates.len() && holds
                invariant
                    index <= parsed.predicates.len(),
                    holds ==> forall|i: int|
                        0 <= i < index ==> predicate_holds(
                            (#[trigger] parsed.predicates@[i]).predicate,
                            *event,
                        ),
                    !holds ==> !all_hold(parsed.predicates@, *event),
                decreases parsed.predicates.len() - index,
            {
                if !parsed.predicates[index].matches(event) {
                    assert(!predicate_holds(parsed.predicates@[index as int].predicate, *event));
                    holds = false;
                }
                index += 1;
            }
            let ghost before = result;
            if holds {
                add_row(&mut result, row as u32);
            }
            assert(conditions_accept(query, now, self.events@[row as int]) == holds);
            assert forall|other: u32| #[trigger] rows_of(result).contains(other) <==> (other < row
                + 1 && test(other as int)) by {
                assert(rows_of(before).contains(other) <==> (other < row && test(other as int)));
            }
            row += 1;
        }
        Some(result)
    }

    /// The rows whose events contain the words that a query searches for; nothing
    /// where it searches for none.
    fn search_matches(&self, words: &str) -> (result: Option<Vec<usize>>)
        requires
            self.wf(),
        ensures
            match result {
                Some(rows) => lists_rows(
                    rows@,
                    self@.events.len(),
                    |row: int|
                        contains_all(document_of(self@.events[row]), terms_of(words@)),
                ),
                None => terms_of(words@).len() == 0,
            },
    {
        let terms = search_terms(words);
        if terms.len() == 0 {
            return None;
        }
        let ghost test = |row: int| contains_all(document_of(self.events@[row]), terms_of(words@));
        let mut rows: Vec<usize> = Vec::new();
        let mut row: usize = 0;
        while row < self.search_documents.len()
            invariant
                row <= self.search_documents.len(),
                self.wf(),
                views(terms@) == terms_of(words@),
                test == (|row: int|
                    contains_all(document_of(self.events@[row]), terms_of(words@))),
                lists_rows(rows@, row as nat, test),
            decreases self.search_documents.len() - row,
        {
            let ghost before = rows@;
            assert(self.search_documents@[row as int]@ == document_of(self.events@[row as int]));
            let found = document_matches_terms(self.search_documents[row].as_str(), &terms);
            assert(found == test(row as int));
            if found {
                rows.push(row);
                assert(rows@[before.len() as int] == row);
            }
            assert forall|other: int| 0 <= other < row + 1 && #[trigger] test(
                other,
            ) implies rows@.contains(other as usize) by {
                if other < row {
                    assert(before.contains(other as usize));
                    let i = choose|i: int| 0 <= i < before.len() && before[i] == other as usize;
                    assert(rows@[i] == other as usize);
                }
            }
            row += 1;
        }
        Some(rows)
    }
}

/// The view of an optional text.
pub open spec fn text_view(text: Option<&str>) -> Option<Seq<char>> {
    match text {
        Some(text) => Some(text@),
        None => None,
    }
}

/// Whether a row is among those that a search found; every row is where there
/// was no search.
pub open spec fn search_accepts(matches: Option<Seq<usize>>, row: int) -> bool {
    match matches {
        Some(rows) => rows.contains(row as usize),
        None => true,
    }
}

/// The view of optional rows.
pub open spec fn rows_view(rows: Option<&Vec<usize>>) -> Option<Seq<usize>> {
    match rows {
        Some(rows) => Some(rows@),
        None => None,
    }
}

/// Whether a row is held by an optional bitmap; every row is where there is none.
spec fn bitmap_accepts(bitmap: Option<&RoaringBitmap>, row: u32) -> bool {
    match bitmap {
        Some(bitmap) => rows_of(*bitmap).contains(row),
        None => true,
    }
}

impl EventStore {
    /// The rows whose value in a facet is one of some values.
    fn rows_with_values(&self, facet: &str, values: &TextSet) -> (result: RoaringBitmap)
        requires
            self.wf(),
        ensures
            forall|row: u32| #[trigger]
                rows_of(result).contains(row) <==> row < self@.events.len() && (match facet_value(
                    self@.events[row as int],
                    facet@,
                ) {
                    Some(value) => values@.contains(value),
                    None => false,
                }),
    {
        let mut result = no_rows();
        if let Some(index) = self.index.values(facet) {
            let items = values.items();
            let ghost order = values.ordered();
            let mut position: usize = 0;
            while position < items.len()
                invariant
                    position <= items.len(),
                    self.wf(),
                    self.index.map().contains_key(facet@),
                    *index == self.index.map()[facet@],
                    order == values.ordered(),
                    views(items@) == order,
                    forall|row: u32| #[trigger]
                        rows_of(result).contains(row) <==> (exists|i: int|
                            0 <= i < position && self.index.has(
                                facet@,
                                #[trigger] order[i],
                                row,
                            )),
                decreases items.len() - position,
            {
                assert(order[position as int] == items@[position as int]@);
                let ghost before = result;
                if let Some(rows) = index.get(items[position].as_str()) {
                    add_rows(&mut result, rows);
                }
                assert forall|row: u32| #[trigger] rows_of(result).contains(row) <==> (exists|i: int|
                    0 <= i < position + 1 && self.index.has(facet@, #[trigger] order[i], row)) by {
                    assert(rows_of(result).contains(row) <==> (rows_of(before).contains(row)
                        || self.index.has(facet@, order[position as int], row)));
                    if rows_of(before).contains(row) {
                        let i = choose|i: int|
                            0 <= i < position && self.index.has(facet@, #[trigger] order[i], row);
                        assert(self.index.has(facet@, order[i], row));
                    }
                }
                position += 1;
            }
            proof {
                assert forall|row: u32| #[trigger] rows_of(result).contains(row) <==> row
                    < self.events@.len() && (match facet_value(self.events@[row as int], facet@) {
                    Some(value) => values@.contains(value),
                    None => false,
                }) by {
                    if rows_of(result).contains(row) {
                        let i = choose|i: int|
                            0 <= i < position && self.index.has(facet@, #[trigger] order[i], row);
                        assert(order.contains(order[i]));
                        assert(order.to_set().contains(order[i]));
                    }
                    if row < self.events@.len() {
                        if let Some(value) = facet_value(self.events@[row as int], facet@) {
                            if values@.contains(value) {
                                assert(order.to_set().contains(value));
                                let i = choose|i: int| 0 <= i < order.len() && order[i] == value;
                                assert(self.index.has(facet@, order[i], row));
                            }
                        }
                    }
                }
            }
        } else {
            proof {
                assert forall|row: u32| row < self.events@.len() implies facet_value(
                    #[trigger] self.events@[row as int],
                    facet@,
                ) is None by {
                    if let Some(value) = facet_value(self.events@[row as int], facet@) {
                        assert(self.index.has(facet@, value, row));
                    }
                }
            }
        }
        result
    }

    /// Keeps the rows whose value in a facet passes a selection.
    fn apply_selection(&self, result: &mut RoaringBitmap, facet: &str, selection: &FacetSelection)
        requires
            self.wf(),
            forall|row: u32| #[trigger]
                rows_of(*old(result)).contains(row) ==> row < self@.events.len(),
        ensures
            forall|row: u32| #[trigger]
                rows_of(*final(result)).contains(row) <==> rows_of(*old(result)).contains(row)
                    && selection_allows(
                    *selection,
                    facet_value(self@.events[row as int], facet@),
                ),
    {
        if !selection.included.is_empty() {
            let included = self.rows_with_values(facet, &selection.included);
            keep_rows(result, &included);
        }
        if !selection.excluded.is_empty() {
            let excluded = self.rows_with_values(facet, &selection.excluded);
            drop_rows(result, &excluded);
        }
    }

    /// The rows whose level is at least as severe as one.
    fn rows_from_level(&self, minimum: Level) -> (result: RoaringBitmap)
        requires
            self.wf(),
        ensures
            forall|row: u32| #[trigger]
                rows_of(result).contains(row) <==> row < self@.events.len() && severity_of(
                    self@.events[row as int].level,
                ) >= severity_of(minimum),
    {
        let mut names = TextSet::new();
        let levels: [Level; 6] = Level::ALL;
        let ghost order = all_levels();
        assert(levels@ == order);
        let mut position: usize = 0;
        while position < 6
            invariant
                position <= 6,
                levels@ == order,
                order.len() == 6,
                forall|name: Seq<char>| #[trigger]
                    names@.contains(name) <==> (exists|i: int|
                        0 <= i < position && severity_of(#[trigger] order[i]) >= severity_of(
                            minimum,
                        ) && name == level_text(order[i])),
            decreases 6 - position,
        {
            let level = levels[position];
            assert(order[position as int] == level);
            let ghost before = names@;
            if level.severity() >= minimum.severity() {
                names.insert(level.to_string());
            }
            assert forall|name: Seq<char>| #[trigger] names@.contains(name) <==> (exists|i: int|
                0 <= i < position + 1 && severity_of(#[trigger] order[i]) >= severity_of(minimum)
                    && name == level_text(order[i])) by {
                assert(names@.contains(name) <==> (before.contains(name) || (severity_of(level)
                    >= severity_of(minimum) && name == level_text(order[position as int]))));
                if before.contains(name) {
                    let i = choose|i: int|
                        0 <= i < position && severity_of(#[trigger] order[i]) >= severity_of(
                            minimum,
                        ) && name == level_text(order[i]);
                    assert(severity_of(order[i]) >= severity_of(minimum));
                }
            }
            position += 1;
        }
        let result = self.rows_with_values("level", &names);
        proof {
            lemma_facet_names();
            assert(facet_named("level"@) == Some(EventFacet::Level));
            assert forall|row: u32| #[trigger] rows_of(result).contains(row) <==> row
                < self.events@.len() && severity_of(self.events@[row as int].level) >= severity_of(
                minimum,
            ) by {
                if row < self.events@.len() {
                    let level = self.events@[row as int].level;
                    lemma_level_text_names_level(level);
                    assert(facet_value(self.events@[row as int], "level"@) == Some(
                        level_text(level),
                    ));
                    if names@.contains(level_text(level)) {
                        let i = choose|i: int|
                            0 <= i < 6 && severity_of(#[trigger] order[i]) >= severity_of(minimum)
                                && level_text(level) == level_text(order[i]);
                        lemma_level_text_names_level(order[i]);
                    }
                    if severity_of(level) >= severity_of(minimum) {
                        let i = severity_of(level) as int;
                        assert(order[i] == level);
                    }
                }
            }
        }
        result
    }

    /// The rows below the number of events that a search found, or all of them.
    fn base_rows(&self, text_matches: Option<&Vec<usize>>) -> (result: RoaringBitmap)
        requires
            self.wf(),
        ensures
            forall|row: u32| #[trigger]
                rows_of(result).contains(row) <==> row < self@.events.len() && search_accepts(
                    rows_view(text_matches),
                    row as int,
                ),
    {
        let mut result = no_rows();
        match text_matches {
            Some(matches) => {
                let mut position: usize = 0;
                while position < matches.len()
                    invariant
                        position <= matches.len(),
                        self.wf(),
                        forall|row: u32| #[trigger]
                            rows_of(result).contains(row) <==> row < self@.events.len() && (exists|
                                i: int,
                            | 0 <= i < position && #[trigger] matches@[i] == row),
                    decreases matches.len() - position,
                {
                    let row: usize = matches[position];
                    let ghost before = result;
                    if row < self.events.len() {
                        add_row(&mut result, row as u32);
                    }
                    assert forall|other: u32| #[trigger] rows_of(result).contains(other) <==> other
                        < self@.events.len() && (exists|i: int|
                        0 <= i < position + 1 && #[trigger] matches@[i] == other) by {
                        if rows_of(before).contains(other) {
                            let i = choose|i: int|
                                0 <= i < position && #[trigger] matches@[i] == other;
                            assert(matches@[i] == other);
                        }
                        if rows_of(result).contains(other) && !rows_of(before).contains(other) {
                            assert(matches@[position as int] == other);
                        }
                    }
                    position += 1;
                }
                assert forall|row: u32| #[trigger] rows_of(result).contains(row) <==> row
                    < self@.events.len() && search_accepts(
                    rows_view(text_matches),
                    row as int,
                ) by {
                    if row < self@.events.len() && matches@.contains(row as usize) {
                        let i = choose|i: int|
                            0 <= i < matches@.len() && matches@[i] == row as usize;
                        assert(matches@[i] == row);
                    }
                    if rows_of(result).contains(row) {
                        let i = choose|i: int| 0 <= i < position && #[trigger] matches@[i] == row;
                        assert(matches@[i] == row as usize);
                    }
                }
            },
            None => {
                let mut row: usize = 0;
                while row < self.events.len()
                    invariant
                        row <= self.events.len(),
                        self.wf(),
                        forall|other: u32| #[trigger]
                            rows_of(result).contains(other) <==> other < row,
                    decreases self.events.len() - row,
                {
                    add_row(&mut result, row as u32);
                    row += 1;
                }
            },
        }
        result
    }

    /// The rows that a search found, that a bitmap holds, and whose events pass
    /// the facets of a filter but one.
    fn query_bitmap(
        &self,
        filter: &FilterState,
        ignored_facet: Option<&str>,
        text_matches: Option<&Vec<usize>>,
        structured_matches: Option<&RoaringBitmap>,
    ) -> (result: RoaringBitmap)
        requires
            self.wf(),
        ensures
            forall|row: u32| #[trigger]
                rows_of(result).contains(row) <==> {
                    &&& row < self@.events.len()
                    &&& search_accepts(rows_view(text_matches), row as int)
                    &&& bitmap_accepts(structured_matches, row)
                    &&& facets_allow(
                        *filter,
                        text_view(ignored_facet),
                        self@.events[row as int],
                    )
                },
    {
        let mut result = self.base_rows(text_matches);
        if let Some(structured) = structured_matches {
            keep_rows(&mut result, structured);
        }
        let ghost start = rows_of(result);
        let ghost ignored = text_view(ignored_facet);
        let names = filter.facets.keys();
        let ghost order = filter.facets.ordered();
        let mut position: usize = 0;
        while position < names.len()
            invariant
                position <= names.len(),
                self.wf(),
                ignored == text_view(ignored_facet),
                order == filter.facets.ordered(),
                order.to_set() == filter.facets@.dom(),
                views(names@) == order,
                forall|row: u32| #[trigger] start.contains(row) ==> row < self@.events.len(),
                forall|row: u32| #[trigger]
                    rows_of(result).contains(row) <==> start.contains(row) && (forall|i: int|
                        0 <= i < position && ignored != Some(#[trigger] order[i])
                            ==> selection_allows(
                            filter.facets@[order[i]],
                            facet_value(self@.events[row as int], order[i]),
                        )),
            decreases names.len() - position,
        {
            assert(order[position as int] == names@[position as int]@);
            let ghost before = rows_of(result);
            let facet = names[position].as_str();
            let skipped = match ignored_facet {
                Some(name) => same(name, facet),
                None => false,
            };
            let selection = filter.facets.value_at(position);
            if !skipped && !selection.is_empty() {
                self.apply_selection(&mut result, facet, selection);
            }
            assert forall|row: u32| #[trigger] rows_of(result).contains(row) <==> start.contains(
                row,
            ) && (forall|i: int|
                0 <= i < position + 1 && ignored != Some(#[trigger] order[i]) ==> selection_allows(
                    filter.facets@[order[i]],
                    facet_value(self@.events[row as int], order[i]),
                )) by {
                assert(before.contains(row) <==> start.contains(row) && (forall|i: int|
                    0 <= i < position && ignored != Some(#[trigger] order[i]) ==> selection_allows(
                        filter.facets@[order[i]],
                        facet_value(self@.events[row as int], order[i]),
                    )));
                if rows_of(result).contains(row) {
                    assert(before.contains(row));
                    assert forall|i: int|
                        0 <= i < position + 1 && ignored != Some(
                            #[trigger] order[i],
                        ) implies selection_allows(
                        filter.facets@[order[i]],
                        facet_value(self@.events[row as int], order[i]),
                    ) by {}
                } else if before.contains(row) {
                    assert(ignored != Some(order[position as int]));
                }
            }
            position += 1;
        }
        proof {
            assert forall|row: u32| #[trigger] rows_of(result).contains(row) <==> start.contains(
                row,
            ) && (forall|facet: Seq<char>| #[trigger]
                filter.facets@.contains_key(facet) && ignored != Some(facet) ==> selection_allows(
                    filter.facets@[facet],
                    facet_value(self@.events[row as int], facet),
                )) by {
                let event = self@.events[row as int];
                if rows_of(result).contains(row) {
                    assert forall|facet: Seq<char>| #[trigger]
                        filter.facets@.contains_key(facet) && ignored != Some(
                            facet,
                        ) implies selection_allows(
                        filter.facets@[facet],
                        facet_value(event, facet),
                    ) by {
                        assert(order.to_set().contains(facet));
                        let i = choose|i: int| 0 <= i < order.len() && order[i] == facet;
                        assert(ignored != Some(order[i]));
                    }
                }
                if start.contains(row) && !rows_of(result).contains(row) {
                    let i = choose|i: int|
                        0 <= i < position && ignored != Some(#[trigger] order[i])
                            && !selection_allows(
                            filter.facets@[order[i]],
                            facet_value(event, order[i]),
                        );
                    assert(order.contains(order[i]));
                    assert(order.to_set().contains(order[i]));
                    assert(filter.facets@.contains_key(order[i]));
                }
            }
        }
        if let Some(minimum) = filter.minimum_level {
            let allowed = self.rows_from_level(minimum);
            keep_rows(&mut result, &allowed);
        }
        if let Some(correlation) = &filter.correlation {
            let mut wanted = TextSet::new();
            wanted.insert(correlation.clone());
            let allowed = self.rows_with_values("correlation", &wanted);
            proof {
                lemma_facet_names();
                assert(facet_named("correlation"@) == Some(
                    EventFacet::Correlation,
                )) by {
                    assert("correlation"@ == facet_name(
                        EventFacet::Correlation,
                    ));
                }
            }
            keep_rows(&mut result, &allowed);
        }
        result
    }
}

/// The number of rows that pass a test and whose events have a value in a facet.
pub open spec fn value_count(
    events: Seq<LogEvent>,
    facet: Seq<char>,
    test: spec_fn(int) -> bool,
    value: Seq<char>,
) -> nat {
    Set::new(
        |row: u32|
            row < events.len() && facet_value(events[row as int], facet) == Some(value) && test(
                row as int,
            ),
    ).len()
}

/// Whether a list holds the values of a facet that occur in rows that pass a
/// test, each with the number of those rows, the most frequent first and those
/// with the same number in the order of texts.
pub open spec fn is_facet_counts(
    counts: Seq<(String, u64)>,
    events: Seq<LogEvent>,
    facet: Seq<char>,
    test: spec_fn(int) -> bool,
) -> bool {
    &&& forall|i: int|
        0 <= i < counts.len() ==> (#[trigger] counts[i]).1 == value_count(
            events,
            facet,
            test,
            counts[i].0@,
        ) && counts[i].1 > 0
    &&& forall|value: Seq<char>| #[trigger]
        value_count(events, facet, test, value) > 0 ==> exists|i: int|
            0 <= i < counts.len() && (#[trigger] counts[i]).0@ == value
    &&& forall|i: int, j: int|
        0 <= i < j < counts.len() ==> (#[trigger] counts[i]).1 > (#[trigger] counts[j]).1 || (
        counts[i].1 == counts[j].1 && text_less(counts[i].0@, counts[j].0@))
}

/// Whether a filter asks for anything beside the selection of a facet.
pub open spec fn has_other_filters(filter: FilterState, facet: Seq<char>) -> bool {
    ||| trimmed(filter.text@).len() > 0
    ||| filter.minimum_level is Some
    ||| filter.correlation is Some
    ||| other_facet_active(filter, Some(facet))
}

/// Whether a row counts in a facet: all rows do where the filter asks for
/// nothing else; otherwise those that a search and the conditions of the query
/// accept and whose events pass the filter but for the facet's own selection.
pub open spec fn counts_in_facet(
    store: StoreModel,
    filter: FilterState,
    now: Timestamp,
    matches: Option<Seq<usize>>,
    facet: Seq<char>,
    row: int,
) -> bool {
    has_other_filters(filter, facet) ==> {
        &&& search_accepts(matches, row)
        &&& conditions_accept(filter.text@, now, store.events[row])
        &&& facets_allow(filter, Some(facet), store.events[row])
    }
}

/// The values of facets and how many rows have them, in the order of facets.
#[derive(Debug)]
pub struct FilterResults {
    pub rows: Vec<usize>,
    pub facet_counts: TextMap<Vec<(String, u64)>>,
}

/// Texts at increasing places of a list in increasing order.
proof fn lemma_sorted_counts(
    names: Seq<String>,
    counts: Seq<u64>,
    keys: Seq<Rank>,
    order: Seq<usize>,
    result: Seq<(String, u64)>,
)
    requires
        names.len() == counts.len(),
        names.len() == keys.len(),
        increasing(views(names)),
        forall|i: int| 0 <= i < counts.len() ==> (#[trigger] keys[i]).first == -(counts[i] as int)
            && keys[i].second == 0,
        covers(order, 0, keys.len() as int),
        in_key_order(keys, order),
        result.len() == order.len(),
        forall|i: int|
            0 <= i < order.len() ==> (#[trigger] result[i]).0@ == names[order[i] as int]@
                && result[i].1 == counts[order[i] as int],
    ensures
        forall|i: int, j: int|
            0 <= i < j < result.len() ==> (#[trigger] result[i]).1 > (#[trigger] result[j]).1 || (
            result[i].1 == result[j].1 && text_less(result[i].0@, result[j].0@)),
{
    assert forall|i: int, j: int| 0 <= i < j < result.len() implies (#[trigger] result[i]).1 > (
    #[trigger] result[j]).1 || (result[i].1 == result[j].1 && text_less(
        result[i].0@,
        result[j].0@,
    )) by {
        let first = order[i] as int;
        let second = order[j] as int;
        assert(comes_before(keys, first, second));
        assert(keys[first].first == -(counts[first] as int));
        assert(keys[second].first == -(counts[second] as int));
        assert(views(names)[first] == names[first]@);
        assert(views(names)[second] == names[second]@);
    }
}

impl EventStore {
    /// The rows that count in a facet, where not all do.
    fn facet_candidates(
        &self,
        facet: &str,
        filter: &FilterState,
        text_matches: Option<&Vec<usize>>,
        structured_matches: Option<&RoaringBitmap>,
    ) -> (result: Option<RoaringBitmap>)
        requires
            self.wf(),
        ensures
            match result {
                Some(bitmap) => has_other_filters(*filter, facet@) && forall|row: u32| #[trigger]
                    rows_of(bitmap).contains(row) <==> {
                        &&& row < self@.events.len()
                        &&& search_accepts(rows_view(text_matches), row as int)
                        &&& bitmap_accepts(structured_matches, row)
                        &&& facets_allow(*filter, Some(facet@), self@.events[row as int])
                    },
                None => !has_other_filters(*filter, facet@),
            },
    {
        let others = !is_blank(filter.text.as_str()) || filter.minimum_level.is_some()
            || filter.correlation.is_some() || filter.has_active_facet(Some(facet));
        if others {
            Some(self.query_bitmap(filter, Some(facet), text_matches, structured_matches))
        } else {
            None
        }
    }

    /// The values of a facet and how many rows that count have them.
    #[verifier::rlimit(60)]
    fn facet_counts_with_matches(
        &self,
        facet: &str,
        filter: &FilterState,
        text_matches: Option<&Vec<usize>>,
        structured_matches: Option<&RoaringBitmap>,
        Ghost(test): Ghost<spec_fn(int) -> bool>,
    ) -> (counts: Vec<(String, u64)>)
        requires
            self.wf(),
            forall|row: int|
                0 <= row < self@.events.len() ==> (#[trigger] test(row) == (has_other_filters(
                    *filter,
                    facet@,
                ) ==> {
                    &&& search_accepts(rows_view(text_matches), row)
                    &&& bitmap_accepts(structured_matches, row as u32)
                    &&& facets_allow(*filter, Some(facet@), self@.events[row])
                })),
        ensures
            is_facet_counts(counts@, self@.events, facet@, test),
    {
        let ghost events = self.events@;
        let mut names: Vec<String> = Vec::new();
        let mut totals: Vec<u64> = Vec::new();
        let mut keys: Vec<Rank> = Vec::new();
        let values = match self.index.values(facet) {
            Some(values) => values,
            None => {
                proof {
                    assert forall|value: Seq<char>| #[trigger]
                        value_count(events, facet@, test, value) == 0 by {
                        let rows = Set::new(
                            |row: u32|
                                row < events.len() && facet_value(events[row as int], facet@)
                                    == Some(value) && test(row as int),
                        );
                        assert forall|row: u32| !rows.contains(row) by {
                            if rows.contains(row) {
                                assert(self.index.has(facet@, value, row));
                            }
                        }
                        assert(rows == Set::<u32>::empty());
                    }
                }
                return Vec::new();
            },
        };
        let candidates = self.facet_candidates(facet, filter, text_matches, structured_matches);
        let texts = values.keys();
        let ghost order = values.ordered();
        let mut position: usize = 0;
        while position < texts.len()
            invariant
                position <= texts.len(),
                self.wf(),
                events == self.events@,
                self.index.map().contains_key(facet@),
                *values == self.index.map()[facet@],
                order == values.ordered(),
                views(texts@) == order,
                increasing(order),
                match candidates {
                    Some(bitmap) => forall|row: u32|
                        row < events.len() ==> (#[trigger] rows_of(bitmap).contains(row) == test(
                            row as int,
                        )),
                    None => forall|row: int| 0 <= row < events.len() ==> #[trigger] test(row),
                },
                names@.len() == totals@.len(),
                names@.len() == keys@.len(),
                increasing(views(names@)),
                forall|i: int| 0 <= i < totals@.len() ==> (#[trigger] keys@[i]).first == -(
                totals@[i] as int) && keys@[i].second == 0,
                forall|i: int|
                    0 <= i < names@.len() ==> #[trigger] totals@[i] == value_count(
                        events,
                        facet@,
                        test,
                        names@[i]@,
                    ) && totals@[i] > 0,
                forall|i: int|
                    0 <= i < names@.len() ==> exists|k: int|
                        0 <= k < position && (#[trigger] names@[i])@ == #[trigger] order[k],
                forall|k: int|
                    0 <= k < position && value_count(events, facet@, test, #[trigger] order[k]) > 0
                        ==> exists|i: int|
                        0 <= i < names@.len() && (#[trigger] names@[i])@ == order[k],
            decreases texts.len() - position,
        {
            let ghost value = order[position as int];
            assert(value == texts@[position as int]@);
            let rows = values.value_at(position);
            let total: u64 = match &candidates {
                Some(bitmap) => count_shared_rows(rows, bitmap),
                None => count_rows(rows),
            };
            proof {
                let counted = Set::new(
                    |row: u32|
                        row < events.len() && facet_value(events[row as int], facet@) == Some(value)
                            && test(row as int),
                );
                assert forall|row: u32| rows_of(*rows).contains(row) == (row < events.len()
                    && facet_value(events[row as int], facet@) == Some(value)) by {
                    assert(rows_of(*rows).contains(row) == self.index.has(facet@, value, row));
                }
                match &candidates {
                    Some(bitmap) => {
                        assert(rows_of(*rows).intersect(rows_of(*bitmap)) =~= counted);
                    },
                    None => {
                        assert(rows_of(*rows) =~= counted);
                    },
                }
                assert(total == value_count(events, facet@, test, value));
            }
            let ghost before = names@;
            if total > 0 {
                names.push(texts[position].clone());
                totals.push(total);
                keys.push(Rank { first: -(total as i128), second: 0 });
                proof {
                    assert(names@[before.len() as int]@ == value);
                    assert forall|i: int, j: int| 0 <= i < j < names@.len() implies text_less(
                        views(names@)[i],
                        views(names@)[j],
                    ) by {
                        if j == before.len() {
                            let k = choose|k: int|
                                0 <= k < position && (#[trigger] before[i])@ == #[trigger] order[k];
                            assert(before[i]@ == names@[i]@);
                            assert(text_less(order[k], order[position as int]));
                        } else {
                            assert(views(before)[i] == views(names@)[i]);
                            assert(views(before)[j] == views(names@)[j]);
                        }
                    }
                }
            }
            assert forall|k: int|
                0 <= k < position + 1 && value_count(events, facet@, test, #[trigger] order[k])
                    > 0 implies exists|i: int|
                0 <= i < names@.len() && (#[trigger] names@[i])@ == order[k] by {
                if k < position {
                    let i = choose|i: int| 0 <= i < before.len() && (#[trigger] before[i])@
                        == order[k];
                    assert(names@[i]@ == order[k]);
                }
            }
            assert forall|i: int| 0 <= i < names@.len() implies exists|k: int|
                0 <= k < position + 1 && (#[trigger] names@[i])@ == #[trigger] order[k] by {
                if i < before.len() {
                    let k = choose|k: int|
                        0 <= k < position && (#[trigger] before[i])@ == #[trigger] order[k];
                    assert(names@[i]@ == order[k]);
                } else {
                    assert(names@[i]@ == order[position as int]);
                }
            }
            position += 1;
        }
        let sorted = stable_order(&keys);
        let mut counts: Vec<(String, u64)> = Vec::new();
        let mut place: usize = 0;
        while place < sorted.len()
            invariant
                place <= sorted.len(),
                covers(sorted@, 0, keys@.len() as int),
                names@.len() == totals@.len(),
                names@.len() == keys@.len(),
                counts@.len() == place,
                forall|i: int|
                    0 <= i < place ==> (#[trigger] counts@[i]).0@ == names@[sorted@[i] as int]@
                        && counts@[i].1 == totals@[sorted@[i] as int],
            decreases sorted.len() - place,
        {
            let source: usize = sorted[place];
            counts.push((names[source].clone(), totals[source]));
            place += 1;
        }
        proof {
            lemma_sorted_counts(names@, totals@, keys@, sorted@, counts@);
            assert forall|value: Seq<char>| #[trigger]
                value_count(events, facet@, test, value) > 0 implies exists|i: int|
                0 <= i < counts@.len() && (#[trigger] counts@[i]).0@ == value by {
                let rows = Set::new(
                    |row: u32|
                        row < events.len() && facet_value(events[row as int], facet@) == Some(value)
                            && test(row as int),
                );
                if forall|row: u32| !rows.contains(row) {
                    assert(rows =~= Set::<u32>::empty());
                }
                let row = choose|row: u32| rows.contains(row);
                assert(self.index.has(facet@, value, row));
                assert(order.to_set().contains(value));
                let k = choose|k: int| 0 <= k < order.len() && order[k] == value;
                assert(value_count(events, facet@, test, order[k]) > 0);
                let source = choose|i: int|
                    0 <= i < names@.len() && (#[trigger] names@[i])@ == order[k];
                assert(sorted@.contains(source as usize));
                let i = choose|i: int| 0 <= i < sorted@.len() && sorted@[i] == source as usize;
                assert(counts@[i].0@ == value);
            }
        }
        counts
    }
}

/// A query that searches for no words is satisfied by every event as far as
/// words go.
proof fn lemma_no_terms_accept(query: Seq<char>, event: LogEvent)
    requires
        terms_of(query_words(query)).len() == 0,
    ensures
        words_accept(query, event),
{
}

/// Where a filter asks for nothing beside the selection of a facet, every event
/// passes it but for that facet.
pub proof fn lemma_no_other_filters_pass(
    store: StoreModel,
    filter: FilterState,
    now: Timestamp,
    facet: Seq<char>,
    row: int,
)
    requires
        !has_other_filters(filter, facet),
    ensures
        row_passes(store, filter, now, Some(facet), row),
{
    lemma_blank_query_says_nothing(filter.text@);
    let event = store.events[row];
    assert(query_words(filter.text@) == Seq::<char>::empty());
    assert(terms_of(Seq::<char>::empty()).len() == 0) by {
        reveal_with_fuel(split_where, 2);
        reveal_with_fuel(Seq::filter, 3);
        let pieces = split_where(
            Seq::<char>::empty(),
            |character: char| ends_word(character),
        );
        assert(pieces.len() == 1 && pieces[0].len() == 0);
        assert(pieces.drop_last().len() == 0);
    }
    assert forall|name: Seq<char>| #[trigger] filter.facets@.contains_key(name) && Some(facet)
        != Some(name) implies selection_allows(filter.facets@[name], facet_value(event, name)) by {
        assert(!facet_is_active(filter, name));
    }
}

/// Whether names are those of the facets that some events have, in increasing
/// order.
pub open spec fn is_facet_names(names: Seq<Seq<char>>, events: Seq<LogEvent>) -> bool {
    &&& increasing(names)
    &&& forall|facet: Seq<char>| #[trigger]
        names.contains(facet) <==> exists|row: int|
            0 <= row < events.len() && facet_value(#[trigger] events[row], facet) is Some
}

impl EventStore {
    /// The names of the facets that occur, in increasing order.
    pub fn facet_names(&self) -> (names: &Vec<String>)
        requires
            self.wf(),
        ensures
            is_facet_names(views(names@), self@.events),
    {
        let names = self.index.names();
        proof {
            let texts = views(names@);
            assert forall|facet: Seq<char>| #[trigger] texts.contains(facet) <==> exists|row: int|
                0 <= row < self.events@.len() && facet_value(#[trigger] self.events@[row], facet)
                    is Some by {
                if texts.contains(facet) {
                    assert(texts.to_set().contains(facet));
                    assert(self.index.map().contains_key(facet));
                    let (value, row) = choose|value: Seq<char>, row: u32|
                        self.index.has(facet, value, row);
                    assert(facet_value(self.events@[row as int], facet) is Some);
                }
                if exists|row: int|
                    0 <= row < self.events@.len() && facet_value(#[trigger] self.events@[row], facet)
                        is Some {
                    let row = choose|row: int|
                        0 <= row < self.events@.len() && facet_value(
                            #[trigger] self.events@[row],
                            facet,
                        ) is Some;
                    let value = facet_value(self.events@[row], facet)->0;
                    assert(self.index.has(facet, value, row as u32));
                    assert(self.index.map().dom().contains(facet));
                    assert(texts.to_set().contains(facet));
                }
            }
        }
        names
    }

    /// The rows whose events pass a filter at an instant.
    pub fn query_at(&self, filter: &FilterState, now: Timestamp) -> (rows: Vec<usize>)
        requires
            self.wf(),
        ensures
            is_query_result(self@, *filter, now, rows@),
    {
        let ghost query = filter.text@;
        let parsed = parse_structured_query(filter.text.as_str(), now);
        let text_matches = self.search_matches(parsed.text.as_str());
        let structured_matches = self.structured_matches(&parsed, Ghost(query), Ghost(now));
        let bitmap = self.query_bitmap(
            filter,
            None,
            text_matches.as_ref(),
            structured_matches.as_ref(),
        );
        let ghost test = |row: int| row_passes(self@, *filter, now, None, row);
        proof {
            assert forall|row: u32| #[trigger] rows_of(bitmap).contains(row) <==> (row
                < self@.events.len() && test(row as int)) by {
                if row < self@.events.len() {
                    self.lemma_matches_accept(
                        query,
                        now,
                        parsed,
                        text_matches,
                        structured_matches,
                        row,
                    );
                }
            }
        }
        row_numbers(&bitmap, Ghost(self@.events.len()), Ghost(test))
    }

    /// What a search and the conditions of a query find are the rows that they
    /// accept.
    proof fn lemma_matches_accept(
        self,
        query: Seq<char>,
        now: Timestamp,
        parsed: ParsedQuery,
        text_matches: Option<Vec<usize>>,
        structured_matches: Option<RoaringBitmap>,
        row: u32,
    )
        requires
            row < self@.events.len(),
            says(query, now, parsed),
            match text_matches {
                Some(rows) => lists_rows(
                    rows@,
                    self@.events.len(),
                    |row: int|
                        contains_all(document_of(self@.events[row]), terms_of(parsed.text@)),
                ),
                None => terms_of(parsed.text@).len() == 0,
            },
            match structured_matches {
                Some(bitmap) => holds_rows(
                    bitmap,
                    self@.events.len(),
                    |row: int| conditions_accept(query, now, self@.events[row]),
                ),
                None => forall|row: int|
                    0 <= row < self@.events.len() ==> conditions_accept(
                        query,
                        now,
                        #[trigger] self@.events[row],
                    ),
            },
        ensures
            (match text_matches {
                Some(rows) => rows@.contains(row as usize),
                None => true,
            }) == words_accept(query, self@.events[row as int]),
            (match structured_matches {
                Some(bitmap) => rows_of(bitmap).contains(row),
                None => true,
            }) == conditions_accept(query, now, self@.events[row as int]),
    {
        let event = self@.events[row as int];
        match text_matches {
            Some(rows) => {
                let test = |row: int|
                    contains_all(document_of(self@.events[row]), terms_of(parsed.text@));
                assert(test(row as int) == words_accept(query, event));
                if rows@.contains(row as usize) {
                    let i = choose|i: int| 0 <= i < rows@.len() && rows@[i] == row as usize;
                    assert(test(rows@[i] as int));
                }
            },
            None => {
                lemma_no_terms_accept(query, event);
            },
        }
        match structured_matches {
            Some(bitmap) => {
                let test = |row: int| conditions_accept(query, now, self@.events[row]);
                assert(rows_of(bitmap).contains(row) <==> test(row as int));
            },
            None => {
                assert(conditions_accept(query, now, self@.events[row as int]));
            },
        }
    }

    /// The rows whose events pass a filter now.
    pub fn query(&self, filter: &FilterState) -> (rows: Vec<usize>)
        requires
            self.wf(),
        ensures
            exists|now: Timestamp| #[trigger] is_query_result(self@, *filter, now, rows@),
    {
        let now = Timestamp::now();
        let rows = self.query_at(filter, now);
        assert(is_query_result(self@, *filter, now, rows@));
        rows
    }

    /// The values of a facet and how many events that pass a filter at an
    /// instant, but for the facet's own selection, have them.
    pub fn facet_counts_at(&self, facet: &str, filter: &FilterState, now: Timestamp) -> (counts:
        Vec<(String, u64)>)
        requires
            self.wf(),
        ensures
            is_facet_result(self@, *filter, now, facet@, counts@),
    {
        let ghost query = filter.text@;
        let parsed = parse_structured_query(filter.text.as_str(), now);
        let text_matches = self.search_matches(parsed.text.as_str());
        let structured_matches = self.structured_matches(&parsed, Ghost(query), Ghost(now));
        let ghost test = |row: int| row_passes(self@, *filter, now, Some(facet@), row);
        proof {
            assert forall|row: int| 0 <= row < self@.events.len() implies (#[trigger] test(row) == (
            has_other_filters(*filter, facet@) ==> {
                &&& search_accepts(rows_view(spec_as_ref(text_matches)), row)
                &&& bitmap_accepts(spec_as_ref(structured_matches), row as u32)
                &&& facets_allow(*filter, Some(facet@), self@.events[row])
            })) by {
                self.lemma_matches_accept(
                    query,
                    now,
                    parsed,
                    text_matches,
                    structured_matches,
                    row as u32,
                );
                if !has_other_filters(*filter, facet@) {
                    lemma_no_other_filters_pass(self@, *filter, now, facet@, row);
                }
            }
        }
        self.facet_counts_with_matches(
            facet,
            filter,
            text_matches.as_ref(),
            structured_matches.as_ref(),
            Ghost(test),
        )
    }

    /// The values of a facet and how many events that pass a filter now, but for
    /// the facet's own selection, have them.
    pub fn facet_counts(&self, facet: &str, filter: &FilterState) -> (counts: Vec<(String, u64)>)
        requires
            self.wf(),
        ensures
            exists|now: Timestamp| #[trigger]
                is_facet_result(self@, *filter, now, facet@, counts@),
    {
        let now = Timestamp::now();
        let counts = self.facet_counts_at(facet, filter, now);
        assert(is_facet_result(self@, *filter, now, facet@, counts@));
        counts
    }
}

/// A reference to an optional value.
spec fn spec_as_ref<T>(value: Option<T>) -> Option<&'static T> {
    match value {
        Some(value) => Some(&value),
        None => None,
    }
}

/// Whether the rows and the counts of some facets are those of a filter, given
/// what a search found.
pub open spec fn is_filter_result(
    store: StoreModel,
    filter: FilterState,
    now: Timestamp,
    facets: Seq<Seq<char>>,
    matches: Option<Seq<usize>>,
    results: FilterResults,
) -> bool {
    &&& lists_rows(
        results.rows@,
        store.events.len(),
        |row: int|
            {
                &&& search_accepts(matches, row)
                &&& conditions_accept(filter.text@, now, store.events[row])
                &&& facets_allow(filter, None, store.events[row])
            },
    )
    &&& results.facet_counts@.dom() == facets.to_set()
    &&& forall|facet: Seq<char>| #[trigger]
        facets.contains(facet) ==> is_counts_given(
            store,
            filter,
            now,
            matches,
            facet,
            results.facet_counts@[facet]@,
        )
}

/// Whether a list holds the values of a facet and how many rows that count in it
/// have them, given what a search found.
pub open spec fn is_counts_given(
    store: StoreModel,
    filter: FilterState,
    now: Timestamp,
    matches: Option<Seq<usize>>,
    facet: Seq<char>,
    counts: Seq<(String, u64)>,
) -> bool {
    is_facet_counts(
        counts,
        store.events,
        facet,
        |row: int| counts_in_facet(store, filter, now, matches, facet, row),
    )
}

impl EventStore {
    /// The rows and the counts of some facets that a filter gives at an instant,
    /// given the rows that a search found.
    pub fn query_with_facets_at(
        &self,
        filter: &FilterState,
        facets: &Vec<String>,
        text_matches: Option<&Vec<usize>>,
        now: Timestamp,
    ) -> (results: FilterResults)
        requires
            self.wf(),
        ensures
            is_filter_result(
                self@,
                *filter,
                now,
                views(facets@),
                rows_view(text_matches),
                results,
            ),
    {
        let ghost query = filter.text@;
        let ghost matches = rows_view(text_matches);
        let parsed = parse_structured_query(filter.text.as_str(), now);
        let structured = self.structured_matches(&parsed, Ghost(query), Ghost(now));
        assert forall|row: u32| row < self@.events.len() implies #[trigger] bitmap_accepts(
            spec_as_ref(structured),
            row,
        ) == conditions_accept(query, now, self@.events[row as int]) by {
            match structured {
                Some(bitmap) => {
                    let accepts = |row: int| conditions_accept(query, now, self@.events[row]);
                    assert(rows_of(bitmap).contains(row) <==> accepts(row as int));
                },
                None => {
                    assert(conditions_accept(query, now, self@.events[row as int]));
                },
            }
        }
        let bitmap = self.query_bitmap(filter, None, text_matches, structured.as_ref());
        let ghost test = |row: int|
            {
                &&& search_accepts(matches, row)
                &&& conditions_accept(query, now, self@.events[row])
                &&& facets_allow(*filter, None, self@.events[row])
            };
        proof {
            assert forall|row: u32| #[trigger] rows_of(bitmap).contains(row) <==> (row
                < self@.events.len() && test(row as int)) by {
                if row < self@.events.len() {
                    assert(bitmap_accepts(spec_as_ref(structured), row) == conditions_accept(
                        query,
                        now,
                        self@.events[row as int],
                    ));
                }
            }
        }
        let rows = row_numbers(&bitmap, Ghost(self@.events.len()), Ghost(test));
        let mut facet_counts: TextMap<Vec<(String, u64)>> = TextMap::new();
        let ghost names = views(facets@);
        let mut position: usize = 0;
        assert(names.take(0).to_set() == Set::<Seq<char>>::empty());
        while position < facets.len()
            invariant
                position <= facets.len(),
                self.wf(),
                query == filter.text@,
                names == views(facets@),
                matches == rows_view(text_matches),
                forall|row: u32|
                    row < self@.events.len() ==> #[trigger] bitmap_accepts(
                        spec_as_ref(structured),
                        row,
                    ) == conditions_accept(query, now, self@.events[row as int]),
                facet_counts@.dom() == names.take(position as int).to_set(),
                forall|facet: Seq<char>| #[trigger]
                    names.take(position as int).contains(facet) ==> is_counts_given(
                        self@,
                        *filter,
                        now,
                        matches,
                        facet,
                        facet_counts@[facet]@,
                    ),
            decreases facets.len() - position,
        {
            let facet = &facets[position];
            let ghost counted = |row: int|
                counts_in_facet(self@, *filter, now, matches, facet@, row);
            assert forall|row: int| 0 <= row < self@.events.len() implies (#[trigger] counted(row)
                == (has_other_filters(*filter, facet@) ==> {
                &&& search_accepts(matches, row)
                &&& bitmap_accepts(spec_as_ref(structured), row as u32)
                &&& facets_allow(*filter, Some(facet@), self@.events[row])
            })) by {
                assert(bitmap_accepts(spec_as_ref(structured), row as u32) == conditions_accept(
                    query,
                    now,
                    self@.events[row as u32 as int],
                ));
            }
            let counts = self.facet_counts_with_matches(
                facet.as_str(),
                filter,
                text_matches,
                structured.as_ref(),
                Ghost(counted),
            );
            assert(is_counts_given(self@, *filter, now, matches, facet@, counts@));
            facet_counts.insert(facet.clone(), counts);
            proof {
                let shorter = names.take(position as int);
                let longer = names.take(position + 1);
                assert(longer == shorter.push(facet@));
                assert forall|name: Seq<char>| longer.contains(name) implies shorter.contains(name)
                    || name == facet@ by {
                    let i = choose|i: int| 0 <= i < longer.len() && longer[i] == name;
                    if i < shorter.len() {
                        assert(shorter[i] == name);
                    }
                }
                assert forall|name: Seq<char>| shorter.contains(name) implies longer.contains(
                    name,
                ) by {
                    let i = choose|i: int| 0 <= i < shorter.len() && shorter[i] == name;
                    assert(longer[i] == name);
                }
                assert(longer[position as int] == facet@);
                assert(longer.to_set() == shorter.to_set().insert(facet@));
            }
            position += 1;
        }
        assert(names.take(position as int) == names);
        FilterResults { rows, facet_counts }
    }

    /// The rows and the counts of some facets that a filter gives now, given the
    /// rows that a search found.
    pub fn query_with_facets(
        &self,
        filter: &FilterState,
        facets: &Vec<String>,
        text_matches: Option<&Vec<usize>>,
    ) -> (results: FilterResults)
        requires
            self.wf(),
        ensures
            exists|now: Timestamp| #[trigger]
                is_filter_result(
                    self@,
                    *filter,
                    now,
                    views(facets@),
                    rows_view(text_matches),
                    results,
                ),
    {
        let now = Timestamp::now();
        let results = self.query_with_facets_at(filter, facets, text_matches, now);
        assert(is_filter_result(
            self@,
            *filter,
            now,
            views(facets@),
            rows_view(text_matches),
            results,
        ));
        results
    }

    /// The texts that a search looks at, from a row on.
    pub fn search_snapshot(&self, start_index: usize) -> (snapshot: SearchSnapshot)
        requires
            self.wf(),
        ensures
            snapshot.start() == (if start_index < self@.events.len() {
                start_index as nat
            } else {
                self@.events.len()
            }),
            snapshot.documents() == self@.events.skip(snapshot.start() as int).map_values(
                |event: LogEvent| document_of(event),
            ),
    {
        let start: usize = if start_index < self.search_documents.len() {
            start_index
        } else {
            self.search_documents.len()
        };
        let ghost wanted = self.events@.skip(start as int).map_values(
            |event: LogEvent| document_of(event),
        );
        let mut documents: Vec<Arc<String>> = Vec::new();
        let mut row: usize = start;
        while row < self.search_documents.len()
            invariant
                start <= row <= self.search_documents.len(),
                self.wf(),
                wanted == self.events@.skip(start as int).map_values(
                    |event: LogEvent| document_of(event),
                ),
                documents@.len() == row - start,
                forall|i: int| 0 <= i < documents@.len() ==> (#[trigger] documents@[i])@ == wanted[i],
            decreases self.search_documents.len() - row,
        {
            assert(self.search_documents@[row as int]@ == document_of(self.events@[row as int]));
            documents.push(share(&self.search_documents[row]));
            row += 1;
        }
        let snapshot = SearchSnapshot { start_index: start, documents };
        assert(snapshot.documents() == wanted);
        snapshot
    }
}

/// The texts of some events that a search looks at, by the row of the first.
#[derive(Debug)]
pub struct SearchSnapshot {
    start_index: usize,
    documents: Vec<Arc<String>>,
}

/// Whether rows are those, in increasing order, whose texts contain the words that a query
/// searches for. The texts are those from a row on.
pub open spec fn is_search_result(
    start: nat,
    documents: Seq<Seq<char>>,
    query: Seq<char>,
    rows: Seq<usize>,
) -> bool {
    &&& forall|i: int, j: int| 0 <= i < j < rows.len() ==> rows[i] < rows[j]
    &&& forall|row: int| #[trigger]
        rows.contains(row as usize) && 0 <= row <= usize::MAX <==> {
            &&& start <= row < start + documents.len()
            &&& contains_all(documents[row - start], terms_of(query_words(query)))
        }
}

/// How many texts a search looks at between two questions whether to stop.
pub const CANCEL_INTERVAL: usize = 256;

impl SearchSnapshot {
    /// The row of the first text.
    pub closed spec fn start(self) -> nat {
        self.start_index as nat
    }

    /// The texts.
    pub closed spec fn documents(self) -> Seq<Seq<char>> {
        self.documents@.map_values(|document: Arc<String>| document@)
    }

    /// The rows whose texts contain the words that a query searches for, or
    /// nothing where the search was told to stop. It is told so where it asks and
    /// the answer is yes; where there are words and texts, it asks.
    pub fn search(&self, query: &str, cancelled: impl Fn() -> bool) -> (result: Option<Vec<usize>>)
        requires
            cancelled.requires(()),
            self.start() + self.documents().len() <= usize::MAX,
        ensures
            match result {
                Some(rows) => {
                    &&& is_search_result(self.start(), self.documents(), query@, rows@)
                    &&& terms_of(query_words(query@)).len() > 0 && self.documents().len() > 0
                        ==> cancelled.ensures((), false)
                },
                None => {
                    &&& cancelled.ensures((), true)
                    &&& terms_of(query_words(query@)).len() > 0
                    &&& self.documents().len() > 0
                },
            },
    {
        let parsed = parse_structured_query(query, Timestamp::now());
        let terms = search_terms(parsed.text.as_str());
        let ghost wanted = terms_of(query_words(query@));
        assert(views(terms@) == wanted);
        let ghost first = self.start_index as int;
        let mut rows: Vec<usize> = Vec::new();
        let mut offset: usize = 0;
        while offset < self.documents.len()
            invariant
                offset <= self.documents.len(),
                cancelled.requires(()),
                self.start() + self.documents().len() <= usize::MAX,
                first == self.start_index,
                views(terms@) == wanted,
                wanted == terms_of(query_words(query@)),
                wanted.len() > 0 && offset > 0 ==> cancelled.ensures((), false),
                forall|i: int, j: int| 0 <= i < j < rows@.len() ==> rows@[i] < rows@[j],
                forall|i: int| 0 <= i < rows@.len() ==> #[trigger] rows@[i] < first + offset,
                forall|row: int| #[trigger]
                    rows@.contains(row as usize) && 0 <= row <= usize::MAX <==> {
                        &&& first <= row < first + offset
                        &&& contains_all(self.documents()[row - first], wanted)
                    },
            decreases self.documents.len() - offset,
        {
            if terms.len() > 0 && offset % CANCEL_INTERVAL == 0 && cancelled() {
                return None;
            }
            assert(wanted.len() > 0 ==> cancelled.ensures((), false));
            assert(self.documents()[offset as int] == self.documents@[offset as int]@);
            let ghost before = rows@;
            let found = document_matches_terms(self.documents[offset].as_str(), &terms);
            if found {
                rows.push(self.start_index + offset);
                assert(rows@[before.len() as int] == first + offset);
            }
            assert forall|row: int| #[trigger] rows@.contains(row as usize) && 0 <= row
                <= usize::MAX <==> {
                &&& first <= row < first + offset + 1
                &&& contains_all(self.documents()[row - first], wanted)
            } by {
                if 0 <= row <= usize::MAX {
                    if before.contains(row as usize) {
                        let i = choose|i: int| 0 <= i < before.len() && before[i] == row as usize;
                        assert(rows@[i] == row as usize);
                    }
                    if rows@.contains(row as usize) && !before.contains(row as usize) {
                        let i = choose|i: int| 0 <= i < rows@.len() && rows@[i] == row as usize;
                        assert(i == before.len());
                    }
                    assert(before.contains(row as usize) && 0 <= row <= usize::MAX <==> {
                        &&& first <= row < first + offset
                        &&& contains_all(self.documents()[row - first], wanted)
                    });
                }
            }
            offset += 1;
        }
        Some(rows)
    }
}

/// Events that come in two batches are kept as those that come in one.
pub proof fn lemma_extending_in_parts(
    store: StoreModel,
    first: Seq<LogEvent>,
    second: Seq<LogEvent>,
)
    requires
        store.max_events >= 1,
    ensures
        extended(extended(store, first), second) == extended(store, first + second),
{
    let all = store.events + first + second;
    assert(store.events + (first + second) == all);
    let middle = extended(store, first);
    let given = store.events + first;
    if !store.paused && given.len() > store.max_events {
        let excess = given.len() - store.max_events;
        assert(given.skip(excess) + second == all.skip(excess));
        let parts = all.skip(excess);
        if parts.len() > store.max_events {
            let more = parts.len() - store.max_events;
            assert(parts.skip(more) == all.skip(excess + more));
        }
    }
    assert(extended(middle, second) =~= extended(store, first + second));
}

/// A store keeps the newest events, as many as its limit allows, and counts those
/// that it lets go of.
pub proof fn lemma_newest_events_are_kept(store: StoreModel, events: Seq<LogEvent>)
    ensures
        ({
            let all = store.events + events;
            let after = extended(store, events);
            &&& after.events == all.skip(after.discarded - store.discarded)
            &&& after.discarded + after.events.len() == store.discarded + all.len()
            &&& !store.paused ==> after.events.len() <= store.max_events
            &&& !store.paused && all.len() >= store.max_events ==> after.events.len()
                == store.max_events
            &&& store.paused ==> after.events == all
        }),
{
    let all = store.events + events;
    assert(all.skip(0) == all);
}

/// An event keeps its identifier, the number of the events before it, when others
/// are let go of: the row of an identifier holds the same event as before.
pub proof fn lemma_identifiers_stay(store: StoreModel, events: Seq<LogEvent>, row: int)
    requires
        0 <= row < extended(store, events).events.len(),
    ensures
        ({
            let after = extended(store, events);
            let identifier = after.discarded + row;
            let earlier = identifier - store.discarded;
            0 <= earlier < store.events.len() ==> after.events[row] == store.events[earlier]
        }),
{
    lemma_newest_events_are_kept(store, events);
}

/// Keeping old events for a while changes nothing in the end: once it is over, the
/// store is as if it had never been told to.
pub proof fn lemma_pausing_is_made_up_for(store: StoreModel, events: Seq<LogEvent>)
    ensures
        pruned(
            StoreModel {
                paused: false,
                ..extended(StoreModel { paused: true, ..store }, events)
            },
        ) == extended(StoreModel { paused: false, ..store }, events),
{
}

/// A query with a fault is satisfied by no event.
pub proof fn lemma_faulty_query_accepts_nothing(
    query: Seq<char>,
    now: Timestamp,
    event: LogEvent,
    place: int,
)
    requires
        0 <= place < query_entries(query).len(),
        is_faulty(query_entries(query)[place], now),
    ensures
        !conditions_accept(query, now, event),
{
    assert(!entry_holds(query_entries(query)[place], now, event));
}

/// Whether something is wrong with an entry of a query.
pub open spec fn is_faulty(entry: QueryEntry, now: Timestamp) -> bool {
    match entry {
        QueryEntry::Word(_) => false,
        QueryEntry::Condition { field, operator, value, .. } => {
            condition_outcome(field, operator, value, now) is Err
        },
        _ => true,
    }
}

/// A filter that is not active lets every event through.
pub proof fn lemma_inactive_filter_passes_all(
    store: StoreModel,
    filter: FilterState,
    now: Timestamp,
    row: int,
)
    requires
        !filter_is_active(filter),
        0 <= row < store.events.len(),
    ensures
        row_passes(store, filter, now, None, row),
{
    let event = store.events[row];
    lemma_blank_query_says_nothing(filter.text@);
    assert(query_entries(filter.text@).len() == 0);
    reveal(Seq::filter);
    assert(query_words(filter.text@) == Seq::<char>::empty());
    assert(terms_of(query_words(filter.text@)).len() == 0) by {
        lemma_no_words();
    }
    assert forall|facet: Seq<char>| #[trigger] filter.facets@.contains_key(facet) implies
        selection_allows(filter.facets@[facet], facet_value(event, facet)) by {
        assert(!facet_is_active(filter, facet));
    }
}

/// The rows that a filter gives are those of the events that contain its words, satisfy its
/// conditions and pass its facets, its level and its correlation, in the order of the store.
pub proof fn lemma_query_gives_what_passes(
    store: StoreModel,
    filter: FilterState,
    now: Timestamp,
    rows: Seq<usize>,
    row: usize,
)
    requires
        is_query_result(store, filter, now, rows),
        row < store.events.len(),
    ensures
        rows.contains(row) <==> {
            let event = store.events[row as int];
            &&& contains_all(document_of(event), terms_of(query_words(filter.text@)))
            &&& conditions_accept(filter.text@, now, event)
            &&& facets_allow(filter, None, event)
        },
        forall|i: int, j: int| 0 <= i < j < rows.len() ==> rows[i] < rows[j],
        forall|i: int| 0 <= i < rows.len() ==> (#[trigger] rows[i]) < store.events.len(),
{
    let test = |row: int| row_passes(store, filter, now, None, row);
    if rows.contains(row) {
        let i = choose|i: int| 0 <= i < rows.len() && rows[i] == row;
        assert(test(rows[i] as int));
    }
    if row_passes(store, filter, now, None, row as int) {
        assert(test(row as int));
    }
}

/// A value of a facet is counted for each event that has it and passes the filter but for
/// the selection in that facet, which so shows what could be selected beside; a value that
/// none of them has is not listed.
pub proof fn lemma_facet_counts_what_else_passes(
    store: StoreModel,
    filter: FilterState,
    now: Timestamp,
    facet: Seq<char>,
    counts: Seq<(String, u64)>,
    index: int,
)
    requires
        is_facet_result(store, filter, now, facet, counts),
        0 <= index < counts.len(),
    ensures
        counts[index].1 > 0,
        counts[index].1 == Set::new(
            |row: u32|
                row < store.events.len() && facet_value(store.events[row as int], facet) == Some(
                    counts[index].0@,
                ) && contains_all(
                    document_of(store.events[row as int]),
                    terms_of(query_words(filter.text@)),
                ) && conditions_accept(filter.text@, now, store.events[row as int])
                    && facets_allow(filter, Some(facet), store.events[row as int]),
        ).len(),
        forall|i: int|
            0 <= i < index ==> (#[trigger] counts[i]).1 >= counts[index].1 && counts[i].0@
                != counts[index].0@,
{
    let test = |row: int| row_passes(store, filter, now, Some(facet), row);
    let value = counts[index].0@;
    assert(counts[index].1 == value_count(store.events, facet, test, value));
    assert(Set::new(
        |row: u32|
            row < store.events.len() && facet_value(store.events[row as int], facet) == Some(value)
                && test(row as int),
    ) =~= Set::new(
        |row: u32|
            row < store.events.len() && facet_value(store.events[row as int], facet) == Some(
                counts[index].0@,
            ) && contains_all(
                document_of(store.events[row as int]),
                terms_of(query_words(filter.text@)),
            ) && conditions_accept(filter.text@, now, store.events[row as int])
                && facets_allow(filter, Some(facet), store.events[row as int]),
    ));
    assert forall|i: int| 0 <= i < index implies (#[trigger] counts[i]).1 >= counts[index].1
        && counts[i].0@ != counts[index].0@ by {
        let (first, second) = (counts[i], counts[index]);
        if first.0@ == second.0@ {
            assert(first.1 == value_count(store.events, facet, test, first.0@));
            crate::ordered::lemma_text_less_irreflexive(first.0@);
        }
    }
}

/// The most that a store keeps is what it is told, and at least one event.
pub proof fn lemma_limit_is_what_was_asked(max_events: nat)
    ensures
        max_events > 0 ==> limit_of(max_events) == max_events,
        limit_of(0) == 1,
{
}

}
