//! How the operations of the library change what they work on.
use vstd::prelude::*;

use crate::bookmark::{opening_items, switch_scope};
use crate::facet::{FacetSelection, FilterState};
use crate::follower::{FileCursor, MessageModel, ReaderMessage};
use crate::json::option_view;
use crate::list::add_new;
use crate::logger::Rotation;
use crate::ordered::{TextMap, TextSet};
use crate::project::ProjectSetup;
use crate::text::views;
use crate::time::Timestamp;
use crate::update::{CheckResult, UpdateMonitor, UpdateState};
use crate::viewer::{
    is_uncovered, lemma_uncovered_row_is_shown, LogView, SearchRequest, SearchResponse,
};

verus! {

/// Asking for a value of a facet: it is asked for afterwards where it was not before, and it is
/// ruled out no more. Nothing changes for other values.
pub proof fn lemma_asking_for_a_value()
    ensures
        forall|selection: &mut FacetSelection, value: String, other: Seq<char>|
            #![trigger call_ensures(FacetSelection::toggle_include, (selection, value), ()), (
                *final(selection)).included@.contains(other)]
            call_ensures(FacetSelection::toggle_include, (selection, value), ()) ==> {
                let after = *final(selection);
                &&& after.included@.contains(value@) <==> !(*selection).included@.contains(value@)
                &&& !after.excluded@.contains(value@)
                &&& other != value@ ==> (after.included@.contains(other)
                    <==> (*selection).included@.contains(other))
                &&& other != value@ ==> (after.excluded@.contains(other)
                    <==> (*selection).excluded@.contains(other))
            },
{
}

/// Ruling a value of a facet out: it is ruled out afterwards where it was not before, and it is
/// asked for no more. Nothing changes for other values.
pub proof fn lemma_ruling_a_value_out()
    ensures
        forall|selection: &mut FacetSelection, value: String, other: Seq<char>|
            #![trigger call_ensures(FacetSelection::toggle_exclude, (selection, value), ()), (
                *final(selection)).included@.contains(other)]
            call_ensures(FacetSelection::toggle_exclude, (selection, value), ()) ==> {
                let after = *final(selection);
                &&& after.excluded@.contains(value@) <==> !(*selection).excluded@.contains(value@)
                &&& !after.included@.contains(value@)
                &&& other != value@ ==> (after.included@.contains(other)
                    <==> (*selection).included@.contains(other))
                &&& other != value@ ==> (after.excluded@.contains(other)
                    <==> (*selection).excluded@.contains(other))
            },
{
}

/// Asking for a value twice leaves the values that are asked for as they were, and so does
/// ruling one out twice for those that are ruled out.
pub proof fn lemma_asking_twice_changes_nothing()
    ensures
        forall|first: &mut FacetSelection, second: &mut FacetSelection, value: String|
            #![trigger call_ensures(FacetSelection::toggle_include, (first, value), ()),
                call_ensures(FacetSelection::toggle_include, (second, value), ())]
            call_ensures(FacetSelection::toggle_include, (first, value), ()) && call_ensures(
                FacetSelection::toggle_include,
                (second, value),
                (),
            ) && *second == *final(first) ==> (*final(second)).included@ == (*first).included@,
        forall|first: &mut FacetSelection, second: &mut FacetSelection, value: String|
            #![trigger call_ensures(FacetSelection::toggle_exclude, (first, value), ()),
                call_ensures(FacetSelection::toggle_exclude, (second, value), ())]
            call_ensures(FacetSelection::toggle_exclude, (first, value), ()) && call_ensures(
                FacetSelection::toggle_exclude,
                (second, value),
                (),
            ) && *second == *final(first) ==> (*final(second)).excluded@ == (*first).excluded@,
{
}

/// Asking for a value alone: it is asked for, and no other one. What is ruled out stays so.
pub proof fn lemma_asking_for_a_value_alone()
    ensures
        forall|selection: &mut FacetSelection, value: String, other: Seq<char>|
            #![trigger call_ensures(FacetSelection::include_only, (selection, value), ()), (
                *final(selection)).included@.contains(other)]
            call_ensures(FacetSelection::include_only, (selection, value), ()) ==> {
                let after = *final(selection);
                &&& after.included@.contains(other) <==> other == value@
                &&& after.excluded@ == (*selection).excluded@
            },
{
}

/// A filter that was cleared asks for nothing.
pub proof fn lemma_cleared_filter_asks_for_nothing()
    ensures
        forall|filter: &mut FilterState| #[trigger]
            call_ensures(FilterState::clear, (filter,), ()) ==> {
                let after = *final(filter);
                &&& forall|facet: Seq<char>| !#[trigger] after.facets@.contains_key(facet)
                &&& after.text@.len() == 0
                &&& after.minimum_level is None
                &&& after.correlation is None
            },
{
}

/// Updates are looked for where they are not yet, and not twice at a time.
pub proof fn lemma_updates_are_looked_for_once()
    ensures
        forall|monitor: &mut UpdateMonitor, begins: bool| #[trigger]
            call_ensures(UpdateMonitor::begin_check, (monitor,), begins) ==> {
                &&& begins <==> !((*monitor).state is Checking)
                &&& (*final(monitor)).state is Checking
                &&& begins ==> (*final(monitor)).was_requested
                &&& !begins ==> *final(monitor) == *monitor
            },
        forall|first: &mut UpdateMonitor, second: &mut UpdateMonitor, began: bool, begins: bool|
            #![trigger call_ensures(UpdateMonitor::begin_check, (first,), began), call_ensures(
                UpdateMonitor::begin_check, (second,), begins)]
            call_ensures(UpdateMonitor::begin_check, (first,), began) && call_ensures(
                UpdateMonitor::begin_check,
                (second,),
                begins,
            ) && *second == *final(first) ==> !begins,
{
}

/// Somebody who asked for updates is told that there are none. Nobody is told who did not ask,
/// and nobody twice.
pub proof fn lemma_who_asked_is_told()
    ensures
        forall|monitor: &mut UpdateMonitor, notice: Option<String>| #[trigger]
            call_ensures(UpdateMonitor::receive, (monitor, CheckResult::Current), notice) ==> {
                &&& notice is Some <==> (*monitor).was_requested
                &&& notice is Some ==> notice->0@ == "DeeBugee is up to date"@
                &&& (*final(monitor)).state is Idle
                &&& !(*final(monitor)).was_requested
            },
        forall|monitor: &mut UpdateMonitor, error: String, notice: Option<String>| #[trigger]
            call_ensures(UpdateMonitor::receive, (monitor, CheckResult::Failed(error)), notice)
                ==> {
                &&& notice is None
                &&& (*final(monitor)).state == UpdateState::Failed(error)
                &&& !(*final(monitor)).was_requested
            },
        forall|monitor: &mut UpdateMonitor, result: CheckResult, notice: Option<String>|
            #[trigger]
            call_ensures(UpdateMonitor::receive, (monitor, result), notice) && (
            result is Available) ==> {
                &&& notice is None
                &&& (*final(monitor)).state is Available
                &&& (*final(monitor)).state->Available_0 == result->Available_0
                &&& !(*final(monitor)).was_requested
            },
        forall|monitor: &mut UpdateMonitor| #[trigger]
            call_ensures(UpdateMonitor::dismiss, (monitor,), ()) ==> (*final(monitor)).state is Idle
                && (*final(monitor)).was_requested == (*monitor).was_requested,
        forall|monitor: UpdateMonitor| #[trigger]
            call_ensures(UpdateMonitor::new, (), monitor) ==> monitor.state is Checking
                && !monitor.was_requested,
{
}

/// A manifest that is there is replaced only once that was asked twice, with no change of the
/// setup between; one that is not there is written at once.
pub proof fn lemma_replacing_is_asked_twice()
    ensures
        forall|setup: &mut ProjectSetup, now: bool| #[trigger]
            call_ensures(ProjectSetup::request_save, (setup,), now) ==> {
                &&& !(*setup).editing_existing ==> now
                &&& (*setup).editing_existing && !(*setup).confirm_overwrite ==> !now
                &&& (*final(setup)).name == (*setup).name
                &&& (*final(setup)).id == (*setup).id
                &&& (*final(setup)).sources == (*setup).sources
                &&& (*final(setup)).editing_existing == (*setup).editing_existing
            },
        forall|first: &mut ProjectSetup, second: &mut ProjectSetup, asked: bool, now: bool|
            #![trigger call_ensures(ProjectSetup::request_save, (first,), asked), call_ensures(
                ProjectSetup::request_save, (second,), now)]
            call_ensures(ProjectSetup::request_save, (first,), asked) && call_ensures(
                ProjectSetup::request_save,
                (second,),
                now,
            ) && *second == *final(first) ==> now,
        forall|first: &mut ProjectSetup, second: &mut ProjectSetup, now: bool|
            #![trigger call_ensures(ProjectSetup::edited, (first,), ()), call_ensures(
                ProjectSetup::request_save, (second,), now)]
            call_ensures(ProjectSetup::edited, (first,), ()) && call_ensures(
                ProjectSetup::request_save,
                (second,),
                now,
            ) && *second == *final(first) && (*first).editing_existing ==> !now,
{
}

/// A change of the setup of a project takes back what was told of it before, and changes
/// nothing else.
pub proof fn lemma_edited_setup_keeps_its_parts()
    ensures
        forall|setup: &mut ProjectSetup| #[trigger]
            call_ensures(ProjectSetup::edited, (setup,), ()) ==> {
                let after = *final(setup);
                &&& after.name == (*setup).name
                &&& after.id == (*setup).id
                &&& after.sources == (*setup).sources
                &&& after.editing_existing == (*setup).editing_existing
                &&& !after.confirm_overwrite
                &&& after.error is None
            },
{
}

/// The sources that stay when one is removed: those before its place stand where they stood,
/// and those behind it one place earlier.
pub proof fn lemma_other_sources_stay()
    ensures
        forall|setup: &mut ProjectSetup, index: usize| #[trigger]
            call_ensures(ProjectSetup::remove_source, (setup, index), ()) && index
                < (*setup).sources@.len() ==> {
                let before = views((*setup).sources@);
                let after = views((*final(setup)).sources@);
                &&& after.len() == before.len() - 1
                &&& forall|i: int| 0 <= i < index ==> #[trigger] after[i] == before[i]
                &&& forall|i: int| index <= i < after.len() ==> #[trigger] after[i] == before[i + 1]
                &&& !(*final(setup)).confirm_overwrite
                &&& (*final(setup)).error is None
                &&& (*final(setup)).name == (*setup).name
                &&& (*final(setup)).id == (*setup).id
            },
{
}

/// A source that is added to the setup of a project is among its sources, and those that are
/// not blank stay where they are.
pub proof fn lemma_added_source_is_listed()
    ensures
        forall|setup: &mut ProjectSetup, source: String| #[trigger]
            call_ensures(ProjectSetup::add_source, (setup, source), ()) ==> {
                let before = views((*setup).sources@);
                let after = views((*final(setup)).sources@);
                &&& after.contains(source@)
                &&& before.len() <= after.len() <= before.len() + 1
                &&& !(*final(setup)).confirm_overwrite
                &&& (*final(setup)).error is None
            },
{
    assert forall|setup: &mut ProjectSetup, source: String| #[trigger]
        call_ensures(ProjectSetup::add_source, (setup, source), ()) implies {
        let before = views((*setup).sources@);
        let after = views((*final(setup)).sources@);
        &&& after.contains(source@)
        &&& before.len() <= after.len() <= before.len() + 1
        &&& !(*final(setup)).confirm_overwrite
        &&& (*final(setup)).error is None
    } by {
        let before = views((*setup).sources@);
        let after = views((*final(setup)).sources@);
        let place = crate::project::first_blank(before);
        crate::project::lemma_first_blank_is_the_first(before);
        if place < before.len() {
            assert(after[place] == source@);
        } else {
            assert(after[before.len() as int] == source@);
        }
    }
}

/// What is written to a log is counted; a log that begins anew is empty. The limits stay.
pub proof fn lemma_written_bytes_are_counted()
    ensures
        forall|log: &mut Rotation, length: u64| #[trigger]
            call_ensures(Rotation::count, (log, length), ()) && (*log).bytes_written + length
                <= u64::MAX ==> {
                &&& (*final(log)).bytes_written == (*log).bytes_written + length
                &&& (*final(log)).rotation_bytes == (*log).rotation_bytes
                &&& (*final(log)).archive_count == (*log).archive_count
            },
        forall|log: &mut Rotation| #[trigger]
            call_ensures(Rotation::restart, (log,), ()) ==> {
                &&& (*final(log)).bytes_written == 0
                &&& (*final(log)).rotation_bytes == (*log).rotation_bytes
                &&& (*final(log)).archive_count == (*log).archive_count
            },
{
}

/// A text that is put into a set is in it, and no other text comes or goes. What comes back is
/// whether it was new; and the same of taking one out.
pub proof fn lemma_sets_hold_what_was_put_in()
    ensures
        forall|set: &mut TextSet, text: String, added: bool, other: Seq<char>|
            #![trigger call_ensures(TextSet::insert, (set, text), added), (
                *final(set))@.contains(other)]
            call_ensures(TextSet::insert, (set, text), added) ==> {
                &&& (*final(set))@.contains(other) <==> other == text@ || (*set)@.contains(other)
                &&& added <==> !(*set)@.contains(text@)
            },
        forall|set: &mut TextSet, text: &str, removed: bool, other: Seq<char>|
            #![trigger call_ensures(TextSet::remove, (set, text), removed), (
                *final(set))@.contains(other)]
            call_ensures(TextSet::remove, (set, text), removed) ==> {
                &&& (*final(set))@.contains(other) <==> other != text@ && (*set)@.contains(other)
                &&& removed <==> (*set)@.contains(text@)
            },
{
}

/// A text that is added to a list is in it afterwards; where it was already, the list does not
/// change, and otherwise it comes last.
pub proof fn lemma_added_text_is_listed_once()
    ensures
        forall|texts: &mut Vec<String>, text: String, out: ()| #[trigger]
            call_ensures(add_new, (texts, text), out) ==> {
                let before = views((*texts)@);
                let after = views((*final(texts))@);
                &&& before.contains(text@) ==> after == before
                &&& !before.contains(text@) ==> after.len() == before.len() + 1 && after.last()
                    == text@ && after.drop_last() == before
            },
{
    assert forall|texts: &mut Vec<String>, text: String, out: ()| #[trigger]
        call_ensures(add_new, (texts, text), out) implies {
        let before = views((*texts)@);
        let after = views((*final(texts))@);
        &&& before.contains(text@) ==> after == before
        &&& !before.contains(text@) ==> after.len() == before.len() + 1 && after.last() == text@
            && after.drop_last() == before
    } by {
        let before = views((*texts)@);
        assert(before.push(text@).drop_last() == before);
    }
}

/// Going to the first error selects the event of level error or fatal that is shown before all
/// others of these levels. Where none is shown, nothing changes.
pub proof fn lemma_first_error_is_selected()
    ensures
        forall|view: &mut LogView| #[trigger]
            call_ensures(LogView::select_first_error, (view,), ()) ==> {
                let rows = (*view).table_rows.rows@;
                let events = (*view).store@.events;
                let chosen = (*final(view)).table.selected_row;
                ||| *final(view) == *view && forall|i: int|
                    0 <= i < rows.len() && (#[trigger] rows[i]) < events.len() ==> !(
                    events[rows[i] as int].level is Error || events[rows[i] as int].level is Fatal)
                ||| exists|place: int|
                    {
                        &&& 0 <= place < rows.len()
                        &&& chosen == Some(#[trigger] rows[place])
                        &&& rows[place] < events.len()
                        &&& events[rows[place] as int].level is Error
                            || events[rows[place] as int].level is Fatal
                        &&& forall|i: int|
                            0 <= i < place && (#[trigger] rows[i]) < events.len() ==> !(
                            events[rows[i] as int].level is Error
                                || events[rows[i] as int].level is Fatal)
                    }
            },
{
}

/// An event that is selected is the selected one, and the table is moved to it and not to its
/// end. The events stay.
pub proof fn lemma_selected_event_is_moved_to()
    ensures
        forall|view: &mut LogView, row: usize, now: Timestamp| #[trigger]
            call_ensures(LogView::select_event, (view, row, now), ()) ==> {
                &&& (*final(view)).table.selected_row == Some(row)
                &&& (*final(view)).table.scroll_to_selected_requested
                &&& !(*final(view)).table.scroll_to_bottom_requested
                &&& (*final(view)).store == (*view).store
            },
{
}

/// The items of a set of sources come back with it: who goes to another set, and then back,
/// finds them as they were.
pub proof fn lemma_items_come_back<T>()
    ensures
        forall|
            scope: &mut Option<String>,
            items: &mut Vec<T>,
            kept: &mut TextMap<Vec<T>>,
            next: Option<String>,
            there: bool,
            scope_then: &mut Option<String>,
            items_then: &mut Vec<T>,
            kept_then: &mut TextMap<Vec<T>>,
            back: Option<String>,
            again: bool,
        |
            #![trigger call_ensures(switch_scope::<T>, (scope, items, kept, next), there),
                call_ensures(switch_scope::<T>, (scope_then, items_then, kept_then, back), again)]
            call_ensures(switch_scope::<T>, (scope, items, kept, next), there) && call_ensures(
                switch_scope::<T>,
                (scope_then, items_then, kept_then, back),
                again,
            ) && *scope_then == *final(scope) && *items_then == *final(items) && *kept_then
                == *final(kept) && option_view(*scope) is Some && option_view(back) == option_view(
                *scope,
            ) ==> {
                &&& option_view(*final(scope_then)) == option_view(*scope)
                &&& (*final(items_then))@ == (*items)@
                &&& there <==> option_view(next) != option_view(*scope)
                &&& again == there
            },
{
}

/// What a set of sources opens with: the items that are kept for it, where there are some.
pub proof fn lemma_kept_items_are_opened<T>()
    ensures
        forall|scope: Option<String>, kept: &mut TextMap<Vec<T>>, others: Vec<T>, items: Vec<T>|
            #[trigger]
            call_ensures(opening_items::<T>, (&scope, kept, others), items) ==> {
                &&& scope is None ==> items@.len() == 0
                &&& scope is Some && (*kept)@.contains_key(scope->0@) ==> items
                    == (*kept)@[scope->0@] && !(*final(kept))@.contains_key(scope->0@)
                &&& scope is Some && !(*kept)@.contains_key(scope->0@) ==> items == others
            },
{
}

/// An event that is selected is shown, even where the filter or the groups hid it.
pub proof fn lemma_selected_event_is_shown()
    ensures
        forall|view: &mut LogView, row: usize, now: Timestamp| #[trigger]
            call_ensures(LogView::select_event, (view, row, now), ()) && row
                < (*view).store@.events.len() ==> (*final(view)).table_rows.rows@.contains(row),
{
    assert forall|view: &mut LogView, row: usize, now: Timestamp| #[trigger]
        call_ensures(LogView::select_event, (view, row, now), ()) && row
            < (*view).store@.events.len() implies (*final(view)).table_rows.rows@.contains(
        row,
    ) by {
        if !(*view).table_rows.rows@.contains(row) {
            let (cleared, fresh) = choose|cleared: FilterState, fresh: LogView| #[trigger]
                is_uncovered(*view, cleared, now, fresh, row, *final(view));
            lemma_uncovered_row_is_shown(*view, cleared, now, fresh, row, *final(view));
        }
    }
}

/// What a search found is taken over only where it is the search that was asked for last; and
/// while the table is paused, or the reader is away from the newest event, no search is begun.
pub proof fn lemma_stale_results_change_nothing()
    ensures
        forall|view: &mut LogView, response: SearchResponse, nanos: u64, now: Timestamp|
            #[trigger]
            call_ensures(LogView::receive_search, (view, response, nanos, now), ())
                && response.generation != (*view).search@.generation ==> *final(view) == *view,
        forall|view: &mut LogView, nanos: u64, now: Timestamp, request: Option<SearchRequest>|
            #[trigger]
            call_ensures(LogView::advance_search, (view, nanos, now), request) && (
            (*view).table.paused || !(*view).table.tail_was_at_bottom) ==> *final(view) == *view
                && request is None,
{
}

/// A source that cannot be read is told once, and that it can be read again is told once.
pub proof fn lemma_errors_of_sources_are_told_once()
    ensures
        forall|
            first: &mut FileCursor,
            second: &mut FileCursor,
            error: String,
            told: Option<ReaderMessage<()>>,
            told_again: Option<ReaderMessage<()>>,
        |
            #![trigger call_ensures(FileCursor::end_poll, (first, Err(error)), told), call_ensures(
                FileCursor::end_poll, (second, Err(error)), told_again)]
            call_ensures(FileCursor::end_poll, (first, Err(error)), told) && call_ensures(
                FileCursor::end_poll,
                (second, Err(error)),
                told_again,
            ) && (*second)@ == (*final(first))@ ==> told_again is None && (told is Some ==> told->0@
                == (MessageModel::SourceError { error: error@ })),
        forall|
            first: &mut FileCursor,
            second: &mut FileCursor,
            third: &mut FileCursor,
            error: String,
            told: Option<ReaderMessage<()>>,
            recovered: Option<ReaderMessage<()>>,
            after: Option<ReaderMessage<()>>,
        |
            #![trigger call_ensures(FileCursor::end_poll, (first, Err(error)), told), call_ensures(
                FileCursor::end_poll, (second, Ok(())), recovered), call_ensures(
                FileCursor::end_poll, (third, Ok(())), after)]
            call_ensures(FileCursor::end_poll, (first, Err(error)), told) && call_ensures(
                FileCursor::end_poll,
                (second, Ok(())),
                recovered,
            ) && call_ensures(FileCursor::end_poll, (third, Ok(())), after) && (*second)@ == (
            *final(first))@ && (*third)@ == (*final(second))@ ==> {
                &&& recovered is Some
                &&& recovered->0@ == MessageModel::SourceRecovered
                &&& after is None
            },
{
}

}
