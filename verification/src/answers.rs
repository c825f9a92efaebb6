//! What the answers of stores have in common.
use vstd::prelude::*;

use crate::bookmark::counted_views;
use crate::event::LogEvent;
use crate::facet::{facet_value, facets_allow, FilterState};
use crate::ordered::{lemma_text_less_asymmetric, lemma_text_less_irreflexive, text_less};
use crate::query::{condition_outcome, query_entries, relative_seconds, unquoted, QueryEntry};
use crate::scope::lemma_one_order;
use crate::search::{contains_all, document_of, terms_of};
use crate::store::{
    conditions_accept, counts_in_facet, entry_holds, extended, has_other_filters, has_room,
    is_counts_given, is_facet_counts, is_facet_names, is_facet_result, is_filter_result,
    is_query_result, is_search_result, is_valid, lemma_extending_in_parts,
    lemma_no_other_filters_pass, lists_rows, pruned, query_words, row_passes, search_accepts,
    value_count, words_accept, FilterResults, StoreModel,
};
use crate::text::{has_prefix, lowered};
use crate::time::Timestamp;

verus! {

/// Whether an entry of a query says the same at every instant: it is no condition on the
/// timestamp with a relative value.
pub open spec fn is_timeless_entry(entry: QueryEntry) -> bool {
    match entry {
        QueryEntry::Condition { field, value, .. } => field == "timestamp"@ ==> match unquoted(
            value,
        ) {
            Some(value) => !has_prefix(lowered(value), "last-"@),
            None => true,
        },
        _ => true,
    }
}

/// Whether a query says the same at every instant.
pub open spec fn is_timeless(query: Seq<char>) -> bool {
    forall|i: int|
        0 <= i < query_entries(query).len() ==> is_timeless_entry(
            #[trigger] query_entries(query)[i],
        )
}

/// The conditions of a query without a relative time do not depend on the clock.
pub proof fn lemma_timeless_queries_need_no_clock(
    query: Seq<char>,
    first: Timestamp,
    second: Timestamp,
    event: LogEvent,
)
    requires
        is_timeless(query),
    ensures
        conditions_accept(query, first, event) == conditions_accept(query, second, event),
{
    let entries = query_entries(query);
    assert forall|i: int| 0 <= i < entries.len() implies entry_holds(
        #[trigger] entries[i],
        first,
        event,
    ) == entry_holds(entries[i], second, event) by {
        assert(is_timeless_entry(entries[i]));
        if let QueryEntry::Condition { field, operator, value, .. } = entries[i] {
            if field == "timestamp"@ {
                if let Some(value) = unquoted(value) {
                    assert(relative_seconds(value, first) is None);
                    assert(relative_seconds(value, second) is None);
                }
            }
            assert(condition_outcome(field, operator, value, first) == condition_outcome(
                field,
                operator,
                value,
                second,
            ));
        }
    }
}

/// Rows in increasing order are fixed by which they are.
proof fn lemma_same_rows(first: Seq<usize>, second: Seq<usize>)
    requires
        forall|i: int, j: int| 0 <= i < j < first.len() ==> first[i] < first[j],
        forall|i: int, j: int| 0 <= i < j < second.len() ==> second[i] < second[j],
        forall|row: usize| first.contains(row) == #[trigger] second.contains(row),
    ensures
        first == second,
    decreases first.len(),
{
    if first.len() == 0 {
        if second.len() > 0 {
            assert(second.contains(second[0]));
            assert(first.contains(second[0]));
        }
        assert(first =~= second);
    } else {
        assert(first.contains(first.last()));
        assert(second.contains(first.last()));
        let i = choose|i: int| 0 <= i < second.len() && second[i] == first.last();
        assert(second.contains(second.last()));
        assert(first.contains(second.last()));
        let j = choose|j: int| 0 <= j < first.len() && first[j] == second.last();
        assert(first.last() == second.last());
        let shorter = first.drop_last();
        let other = second.drop_last();
        assert forall|row: usize| shorter.contains(row) == #[trigger] other.contains(row) by {
            if shorter.contains(row) {
                let k = choose|k: int| 0 <= k < shorter.len() && shorter[k] == row;
                assert(first[k] == row);
                assert(second.contains(row));
                let m = choose|m: int| 0 <= m < second.len() && second[m] == row;
                assert(other[m] == row);
            }
            if other.contains(row) {
                let k = choose|k: int| 0 <= k < other.len() && other[k] == row;
                assert(second[k] == row);
                assert(second.contains(row));
                assert(first.contains(row));
                let m = choose|m: int| 0 <= m < first.len() && first[m] == row;
                assert(shorter[m] == row);
            }
        }
        lemma_same_rows(shorter, other);
        assert(first =~= shorter.push(first.last()));
        assert(second =~= other.push(second.last()));
    }
}

/// Tests that agree list the same rows.
proof fn lemma_rows_of_tests(
    first: Seq<usize>,
    second: Seq<usize>,
    count: nat,
    left: spec_fn(int) -> bool,
    right: spec_fn(int) -> bool,
)
    requires
        lists_rows(first, count, left),
        lists_rows(second, count, right),
        forall|row: int| 0 <= row < count ==> #[trigger] left(row) == right(row),
    ensures
        first == second,
{
    assert forall|row: usize| first.contains(row) == #[trigger] second.contains(row) by {
        if first.contains(row) {
            let i = choose|i: int| 0 <= i < first.len() && first[i] == row;
            assert(left(first[i] as int));
            assert(right(row as int));
        }
        if second.contains(row) {
            let i = choose|i: int| 0 <= i < second.len() && second[i] == row;
            assert(right(second[i] as int));
            assert(left(row as int));
        }
    }
    lemma_same_rows(first, second);
}

/// Whether a value and its count stand before others.
pub open spec fn counts_before(left: (Seq<char>, u64), right: (Seq<char>, u64)) -> bool {
    left.1 > right.1 || (left.1 == right.1 && text_less(left.0, right.0))
}

/// Values and counts in order are fixed by which they are.
proof fn lemma_same_counts(first: Seq<(Seq<char>, u64)>, second: Seq<(Seq<char>, u64)>)
    requires
        forall|i: int, j: int|
            0 <= i < j < first.len() ==> counts_before(#[trigger] first[i], #[trigger] first[j]),
        forall|i: int, j: int|
            0 <= i < j < second.len() ==> counts_before(#[trigger] second[i], #[trigger] second[j]),
        forall|counted: (Seq<char>, u64)|
            first.contains(counted) == #[trigger] second.contains(counted),
    ensures
        first == second,
    decreases first.len(),
{
    if first.len() == 0 {
        if second.len() > 0 {
            assert(second.contains(second[0]));
            assert(first.contains(second[0]));
        }
        assert(first =~= second);
    } else {
        let last = first.last();
        assert(first.contains(last));
        assert(second.contains(last));
        let i = choose|i: int| 0 <= i < second.len() && second[i] == last;
        let other_last = second.last();
        assert(second.contains(other_last));
        assert(first.contains(other_last));
        let j = choose|j: int| 0 <= j < first.len() && first[j] == other_last;
        assert(last == other_last) by {
            if i < second.len() - 1 {
                assert(counts_before(second[i], second[second.len() - 1]));
                if j < first.len() - 1 {
                    assert(counts_before(first[j], first[first.len() - 1]));
                }
                if text_less(last.0, other_last.0) {
                    lemma_text_less_asymmetric(last.0, other_last.0);
                }
                lemma_text_less_irreflexive(last.0);
            }
        }
        let shorter = first.drop_last();
        let other = second.drop_last();
        assert forall|counted: (Seq<char>, u64)|
            shorter.contains(counted) == #[trigger] other.contains(counted) by {
            lemma_text_less_irreflexive(last.0);
            if shorter.contains(counted) {
                let k = choose|k: int| 0 <= k < shorter.len() && shorter[k] == counted;
                assert(first[k] == counted);
                assert(counts_before(first[k], first[first.len() - 1]));
                assert(second.contains(counted));
                let m = choose|m: int| 0 <= m < second.len() && second[m] == counted;
                assert(m < second.len() - 1);
                assert(other[m] == counted);
            }
            if other.contains(counted) {
                let k = choose|k: int| 0 <= k < other.len() && other[k] == counted;
                assert(second[k] == counted);
                assert(counts_before(second[k], second[second.len() - 1]));
                assert(second.contains(counted));
                assert(first.contains(counted));
                let m = choose|m: int| 0 <= m < first.len() && first[m] == counted;
                assert(m < first.len() - 1);
                assert(shorter[m] == counted);
            }
        }
        assert forall|i: int, j: int| 0 <= i < j < shorter.len() implies counts_before(
            #[trigger] shorter[i],
            #[trigger] shorter[j],
        ) by {
            assert(counts_before(first[i], first[j]));
        }
        assert forall|i: int, j: int| 0 <= i < j < other.len() implies counts_before(
            #[trigger] other[i],
            #[trigger] other[j],
        ) by {
            assert(counts_before(second[i], second[j]));
        }
        lemma_same_counts(shorter, other);
        assert(first =~= shorter.push(last));
        assert(second =~= other.push(other_last));
    }
}

/// A value is listed with its count.
proof fn lemma_listed_counts(
    counts: Seq<(String, u64)>,
    events: Seq<LogEvent>,
    facet: Seq<char>,
    test: spec_fn(int) -> bool,
)
    requires
        is_facet_counts(counts, events, facet, test),
    ensures
        forall|counted: (Seq<char>, u64)| #[trigger]
            counted_views(counts).contains(counted) <==> counted.1 > 0 && counted.1 == value_count(
                events,
                facet,
                test,
                counted.0,
            ),
        forall|i: int, j: int|
            0 <= i < j < counted_views(counts).len() ==> counts_before(
                #[trigger] counted_views(counts)[i],
                #[trigger] counted_views(counts)[j],
            ),
{
    let listed = counted_views(counts);
    assert forall|counted: (Seq<char>, u64)| #[trigger] listed.contains(counted) <==> counted.1 > 0
        && counted.1 == value_count(events, facet, test, counted.0) by {
        if listed.contains(counted) {
            let i = choose|i: int| 0 <= i < listed.len() && listed[i] == counted;
            assert(listed[i] == (counts[i].0@, counts[i].1));
        }
        if counted.1 > 0 && counted.1 == value_count(events, facet, test, counted.0) {
            let i = choose|i: int|
                0 <= i < counts.len() && (#[trigger] counts[i]).0@ == counted.0;
            assert(counts[i].1 == value_count(events, facet, test, counts[i].0@));
            assert(listed[i] == counted);
        }
    }
    assert forall|i: int, j: int| 0 <= i < j < listed.len() implies counts_before(
        #[trigger] listed[i],
        #[trigger] listed[j],
    ) by {
        assert(listed[i] == (counts[i].0@, counts[i].1));
        assert(listed[j] == (counts[j].0@, counts[j].1));
    }
}

/// Tests that agree give the same counts.
proof fn lemma_counts_of_tests(
    first: Seq<(String, u64)>,
    second: Seq<(String, u64)>,
    events: Seq<LogEvent>,
    facet: Seq<char>,
    left: spec_fn(int) -> bool,
    right: spec_fn(int) -> bool,
)
    requires
        is_facet_counts(first, events, facet, left),
        is_facet_counts(second, events, facet, right),
        forall|row: int| 0 <= row < events.len() ==> #[trigger] left(row) == right(row),
    ensures
        counted_views(first) == counted_views(second),
{
    assert forall|value: Seq<char>| #[trigger] value_count(events, facet, left, value)
        == value_count(events, facet, right, value) by {
        assert(Set::new(
            |row: u32|
                row < events.len() && facet_value(events[row as int], facet) == Some(value) && left(
                    row as int,
                ),
        ) =~= Set::new(
            |row: u32|
                row < events.len() && facet_value(events[row as int], facet) == Some(value)
                    && right(row as int),
        ));
    }
    lemma_listed_counts(first, events, facet, left);
    lemma_listed_counts(second, events, facet, right);
    assert forall|counted: (Seq<char>, u64)| counted_views(first).contains(counted)
        == #[trigger] counted_views(second).contains(counted) by {
        assert(value_count(events, facet, left, counted.0) == value_count(
            events,
            facet,
            right,
            counted.0,
        ));
    }
    lemma_same_counts(counted_views(first), counted_views(second));
}

/// Stores that hold the same events give the same rows for a filter without a relative
/// time, whenever they are asked.
pub proof fn lemma_equal_events_give_equal_rows(
    first: StoreModel,
    second: StoreModel,
    filter: FilterState,
    then: Timestamp,
    now: Timestamp,
    left: Seq<usize>,
    right: Seq<usize>,
)
    requires
        first.events == second.events,
        is_timeless(filter.text@),
        is_query_result(first, filter, then, left),
        is_query_result(second, filter, now, right),
    ensures
        left == right,
{
    let events = first.events;
    let before = |row: int| row_passes(first, filter, then, None, row);
    let after = |row: int| row_passes(second, filter, now, None, row);
    assert forall|row: int| 0 <= row < events.len() implies #[trigger] before(row) == after(row) by {
        lemma_timeless_queries_need_no_clock(filter.text@, then, now, events[row]);
    }
    lemma_rows_of_tests(left, right, events.len(), before, after);
}

/// Stores that hold the same events count the values of a facet alike for a filter
/// without a relative time, whenever they are asked.
pub proof fn lemma_equal_events_give_equal_counts(
    first: StoreModel,
    second: StoreModel,
    filter: FilterState,
    then: Timestamp,
    now: Timestamp,
    facet: Seq<char>,
    left: Seq<(String, u64)>,
    right: Seq<(String, u64)>,
)
    requires
        first.events == second.events,
        is_timeless(filter.text@),
        is_facet_result(first, filter, then, facet, left),
        is_facet_result(second, filter, now, facet, right),
    ensures
        counted_views(left) == counted_views(right),
{
    let events = first.events;
    let before = |row: int| row_passes(first, filter, then, Some(facet), row);
    let after = |row: int| row_passes(second, filter, now, Some(facet), row);
    assert forall|row: int| 0 <= row < events.len() implies #[trigger] before(row) == after(row) by {
        lemma_timeless_queries_need_no_clock(filter.text@, then, now, events[row]);
    }
    lemma_counts_of_tests(left, right, events, facet, before, after);
}

/// Stores that hold the same events have the same facets.
pub proof fn lemma_equal_events_have_equal_facets(
    events: Seq<LogEvent>,
    first: Seq<Seq<char>>,
    second: Seq<Seq<char>>,
)
    requires
        is_facet_names(first, events),
        is_facet_names(second, events),
    ensures
        first == second,
{
    assert(first.to_set() =~= second.to_set());
    lemma_one_order(first, second);
}

/// What a store answers: the rows of a filter, the counts of the values of a facet, and
/// the names of its facets.
pub struct Answer {
    pub rows: Seq<usize>,
    pub counts: Seq<(String, u64)>,
    pub names: Seq<Seq<char>>,
}

/// Whether a store may answer so when it is asked at an instant.
pub open spec fn is_answer(
    store: StoreModel,
    filter: FilterState,
    facet: Seq<char>,
    now: Timestamp,
    answer: Answer,
) -> bool {
    &&& is_query_result(store, filter, now, answer.rows)
    &&& is_facet_result(store, filter, now, facet, answer.counts)
    &&& is_facet_names(answer.names, store.events)
}

/// Whether two answers say the same.
pub open spec fn same_answer(left: Answer, right: Answer) -> bool {
    &&& left.rows == right.rows
    &&& counted_views(left.counts) == counted_views(right.counts)
    &&& left.names == right.names
}

/// Stores that hold the same events answer a filter without a relative time alike,
/// whenever they are asked.
pub proof fn lemma_equal_events_answer_alike(
    first: StoreModel,
    second: StoreModel,
    filter: FilterState,
    facet: Seq<char>,
    then: Timestamp,
    now: Timestamp,
    left: Answer,
    right: Answer,
)
    requires
        first.events == second.events,
        is_timeless(filter.text@),
        is_answer(first, filter, facet, then, left),
        is_answer(second, filter, facet, now, right),
    ensures
        same_answer(left, right),
{
    lemma_equal_events_give_equal_rows(
        first,
        second,
        filter,
        then,
        now,
        left.rows,
        right.rows,
    );
    lemma_equal_events_give_equal_counts(
        first,
        second,
        filter,
        then,
        now,
        facet,
        left.counts,
        right.counts,
    );
    lemma_equal_events_have_equal_facets(first.events, left.names, right.names);
}

/// A store after events were added one by one.
pub open spec fn pushed_all(store: StoreModel, events: Seq<LogEvent>) -> StoreModel
    decreases events.len(),
{
    if events.len() == 0 {
        store
    } else {
        extended(pushed_all(store, events.drop_last()), seq![events.last()])
    }
}

/// Adding events one by one is adding them all at once: the stores hold the same events
/// under the same identifiers, have the same limit and have let go of as many.
pub proof fn lemma_pushing_is_extending(store: StoreModel, events: Seq<LogEvent>)
    requires
        is_valid(store),
    ensures
        pushed_all(store, events) == extended(store, events),
    decreases events.len(),
{
    if events.len() == 0 {
        assert(store.events + events == store.events);
    } else {
        let shorter = events.drop_last();
        lemma_pushing_is_extending(store, shorter);
        lemma_extending_in_parts(store, shorter, seq![events.last()]);
        assert(shorter + seq![events.last()] == events);
    }
}

/// A store to which events were added one by one answers as one to which they were added
/// all at once.
pub proof fn lemma_pushed_store_answers_as_extended(
    store: StoreModel,
    events: Seq<LogEvent>,
    filter: FilterState,
    facet: Seq<char>,
    then: Timestamp,
    now: Timestamp,
    left: Answer,
    right: Answer,
)
    requires
        is_valid(store),
        is_timeless(filter.text@),
        is_answer(pushed_all(store, events), filter, facet, then, left),
        is_answer(extended(store, events), filter, facet, now, right),
    ensures
        same_answer(left, right),
{
    lemma_pushing_is_extending(store, events);
    let pushed = pushed_all(store, events);
    lemma_equal_events_answer_alike(pushed, pushed, filter, facet, then, now, left, right);
}

/// A store that can take events at once can take them one by one.
pub proof fn lemma_room_for_each(store: StoreModel, events: Seq<LogEvent>, count: nat)
    requires
        is_valid(store),
        has_room(store, events.len()),
        count < events.len(),
    ensures
        has_room(pushed_all(store, events.take(count as int)), 1),
        is_valid(pushed_all(store, events.take(count as int))),
{
    lemma_pushing_is_extending(store, events.take(count as int));
}

/// A store with a limit that holds nothing.
pub open spec fn fresh_store(max_events: nat) -> StoreModel {
    StoreModel { events: Seq::empty(), max_events, paused: false, discarded: 0 }
}

/// A store that has let go of its oldest events counts them, and holds what a fresh one
/// with the same limit holds that was given the others.
pub proof fn lemma_pruned_store_is_as_fresh(store: StoreModel)
    requires
        !store.paused,
        store.max_events >= 1,
    ensures
        extended(fresh_store(store.max_events), pruned(store).events).events
            == pruned(store).events,
        pruned(store).discarded - store.discarded == store.events.len()
            - pruned(store).events.len(),
{
    let kept = pruned(store).events;
    assert(Seq::<LogEvent>::empty() + kept == kept);
}

/// A store that has let go of its oldest events answers as a fresh one that was given the
/// others: no trace of the events that are gone is left.
pub proof fn lemma_pruned_store_answers_as_fresh(
    store: StoreModel,
    filter: FilterState,
    facet: Seq<char>,
    then: Timestamp,
    now: Timestamp,
    left: Answer,
    right: Answer,
)
    requires
        !store.paused,
        store.max_events >= 1,
        is_timeless(filter.text@),
        is_answer(pruned(store), filter, facet, then, left),
        is_answer(
            extended(fresh_store(store.max_events), pruned(store).events),
            filter,
            facet,
            now,
            right,
        ),
    ensures
        same_answer(left, right),
{
    let fresh = extended(fresh_store(store.max_events), pruned(store).events);
    lemma_pruned_store_is_as_fresh(store);
    lemma_equal_events_answer_alike(pruned(store), fresh, filter, facet, then, now, left, right);
}

/// What a search through all events found says which of them contain the words.
proof fn lemma_search_decides(store: StoreModel, query: Seq<char>, found: Seq<usize>, row: int)
    requires
        0 <= row < store.events.len() <= usize::MAX,
        is_search_result(
            0,
            store.events.map_values(|event: LogEvent| document_of(event)),
            query,
            found,
        ),
    ensures
        search_accepts(Some(found), row) == words_accept(query, store.events[row]),
{
    let documents = store.events.map_values(|event: LogEvent| document_of(event));
    assert(documents[row - 0] == document_of(store.events[row]));
    assert(found.contains(row as usize) && 0 <= row <= usize::MAX <==> {
        &&& 0 <= row < 0 + documents.len()
        &&& contains_all(
            documents[row - 0],
            terms_of(query_words(query)),
        )
    });
}

/// One search result, used again, gives the rows of the filter and the counts of the
/// facets: those that are found without it, whenever that is, unless the filter has a
/// relative time.
pub proof fn lemma_search_result_is_reused(
    store: StoreModel,
    filter: FilterState,
    found: Seq<usize>,
    facets: Seq<Seq<char>>,
    then: Timestamp,
    now: Timestamp,
    results: FilterResults,
    rows: Seq<usize>,
    facet: Seq<char>,
    counts: Seq<(String, u64)>,
)
    requires
        store.events.len() <= usize::MAX,
        is_timeless(filter.text@),
        is_search_result(
            0,
            store.events.map_values(|event: LogEvent| document_of(event)),
            filter.text@,
            found,
        ),
        is_filter_result(store, filter, then, facets, Some(found), results),
        is_query_result(store, filter, now, rows),
        facets.contains(facet),
        is_facet_result(store, filter, now, facet, counts),
    ensures
        results.rows@ == rows,
        results.facet_counts@.dom() == facets.to_set(),
        counted_views(results.facet_counts@[facet]@) == counted_views(counts),
{
    let events = store.events;
    let query = filter.text@;
    let given = |row: int|
        {
            &&& search_accepts(Some(found), row)
            &&& conditions_accept(query, then, events[row])
            &&& facets_allow(filter, None, events[row])
        };
    let wanted = |row: int| row_passes(store, filter, now, None, row);
    assert forall|row: int| 0 <= row < events.len() implies #[trigger] given(row) == wanted(row) by {
        lemma_search_decides(store, query, found, row);
        lemma_timeless_queries_need_no_clock(query, then, now, events[row]);
    }
    lemma_rows_of_tests(results.rows@, rows, events.len(), given, wanted);
    let counted = |row: int| counts_in_facet(store, filter, then, Some(found), facet, row);
    let passing = |row: int| row_passes(store, filter, now, Some(facet), row);
    assert forall|row: int| 0 <= row < events.len() implies #[trigger] counted(row) == passing(
        row,
    ) by {
        lemma_search_decides(store, query, found, row);
        lemma_timeless_queries_need_no_clock(query, then, now, events[row]);
        if !has_other_filters(filter, facet) {
            lemma_no_other_filters_pass(store, filter, now, facet, row);
        }
    }
    assert(is_counts_given(store, filter, then, Some(found), facet, results.facet_counts@[facet]@));
    lemma_counts_of_tests(
        results.facet_counts@[facet]@,
        counts,
        events,
        facet,
        counted,
        passing,
    );
}

}
