//! Where the newest events stand, and how the table follows them.
use vstd::prelude::*;

use crate::store::EventStore;

verus! {

/// At which end of the table the newest events stand.
#[derive(Clone, Copy, PartialEq, Eq, Structural, Debug, Default)]
pub enum LatestAt {
    #[default]
    Bottom,
    Top,
}

impl LatestAt {
    /// The title.
    pub fn title(self) -> (title: &'static str)
        ensures
            title@ == match self {
                LatestAt::Bottom => "Bottom"@,
                LatestAt::Top => "Top"@,
            },
    {
        match self {
            LatestAt::Bottom => "Bottom",
            LatestAt::Top => "Top",
        }
    }
}

/// Rows in their order in the table, given in the order of the store; or, the
/// other way round, in the order of the store.
pub open spec fn displayed(rows: Seq<usize>, latest_at: LatestAt) -> Seq<usize> {
    match latest_at {
        LatestAt::Bottom => rows,
        LatestAt::Top => rows.reverse(),
    }
}

/// Rows of the table from the newest to the oldest.
pub open spec fn newest_first(rows: Seq<usize>, latest_at: LatestAt) -> Seq<usize> {
    match latest_at {
        LatestAt::Bottom => rows.reverse(),
        LatestAt::Top => rows,
    }
}

/// Putting rows in the order of the table twice gives them back.
pub proof fn lemma_displayed_twice(rows: Seq<usize>, latest_at: LatestAt)
    ensures
        displayed(displayed(rows, latest_at), latest_at) == rows,
{
    assert(rows.reverse().reverse() == rows);
}

/// Puts rows in their order in the table.
pub fn order_visible_rows(rows: &mut Vec<usize>, latest_at: LatestAt)
    ensures
        final(rows)@ == displayed(old(rows)@, latest_at),
{
    if let LatestAt::Bottom = latest_at {
        return;
    }
    let count: usize = rows.len();
    let mut index: usize = 0;
    while index < count / 2
        invariant
            index <= count / 2,
            count == rows@.len(),
            count == old(rows)@.len(),
            forall|i: int|
                0 <= i < count ==> #[trigger] rows@[i] == if i < index || i >= count - index {
                    old(rows)@[count - 1 - i]
                } else {
                    old(rows)@[i]
                },
        decreases count / 2 - index,
    {
        let first: usize = rows[index];
        let second: usize = rows[count - 1 - index];
        rows.set(index, second);
        rows.set(count - 1 - index, first);
        index += 1;
    }
    assert(rows@ == old(rows)@.reverse());
}

/// The row of the newest event in the table.
pub open spec fn newest_row(rows: Seq<usize>, latest_at: LatestAt) -> Option<usize> {
    let newest = newest_first(rows, latest_at);
    if newest.len() > 0 {
        Some(newest[0])
    } else {
        None
    }
}

/// The row of the newest event in the table.
pub fn latest_visible_row(rows: &Vec<usize>, latest_at: LatestAt) -> (row: Option<usize>)
    ensures
        row == newest_row(rows@, latest_at),
{
    if rows.len() == 0 {
        return None;
    }
    match latest_at {
        LatestAt::Bottom => Some(rows[rows.len() - 1]),
        LatestAt::Top => Some(rows[0]),
    }
}

/// The identifier of the newest event in the table, given how many events were
/// discarded and how many are left.
pub open spec fn newest_id(
    discarded: nat,
    count: nat,
    rows: Seq<usize>,
    latest_at: LatestAt,
) -> Option<int> {
    match newest_row(rows, latest_at) {
        Some(row) => if row < count {
            Some(discarded + row)
        } else {
            None
        },
        None => None,
    }
}

/// The number of an optional identifier.
pub open spec fn id_view(id: Option<u64>) -> Option<int> {
    match id {
        Some(id) => Some(id as int),
        None => None,
    }
}

/// The identifier of the newest event in the table.
pub fn latest_visible_id(store: &EventStore, rows: &Vec<usize>, latest_at: LatestAt) -> (id: Option<
    u64,
>)
    requires
        store.wf(),
    ensures
        id_view(id) == newest_id(store@.discarded, store@.events.len(), rows@, latest_at),
{
    match latest_visible_row(rows, latest_at) {
        Some(row) => store.event_id(row),
        None => None,
    }
}

/// Whether the newest event in the table is another one than before.
pub fn visible_tail_changed(
    previous_latest: Option<u64>,
    store: &EventStore,
    current_rows: &Vec<usize>,
    latest_at: LatestAt,
) -> (changed: bool)
    requires
        store.wf(),
    ensures
        changed == (id_view(previous_latest) != newest_id(
            store@.discarded,
            store@.events.len(),
            current_rows@,
            latest_at,
        )),
{
    match (previous_latest, latest_visible_id(store, current_rows, latest_at)) {
        (Some(before), Some(now)) => before != now,
        (None, None) => false,
        _ => true,
    }
}

/// For how many frames the newest event has to be in sight before a request for
/// it is done.
pub const LATEST_SETTLE_FRAMES: u8 = 2;

/// What becomes of a request for the newest event after a frame: whether it goes
/// on, and for how many frames. A request stays until the table is up to date and
/// at its end, and then for the frames that are left; scrolling by hand ends it.
pub open spec fn request_after(
    requested: bool,
    reached_bottom: bool,
    manually_scrolled: bool,
    latest_view_is_current: bool,
    settle_frames: u8,
) -> (bool, u8) {
    if !requested || manually_scrolled {
        (false, 0u8)
    } else if !latest_view_is_current || !reached_bottom {
        (true, LATEST_SETTLE_FRAMES)
    } else if settle_frames > 1 {
        (true, (settle_frames - 1) as u8)
    } else {
        (false, 0u8)
    }
}

/// A request stays while the table is not at its end or not up to date, whatever
/// came before.
pub proof fn lemma_request_stays(reached_bottom: bool, is_current: bool, settle_frames: u8)
    requires
        !reached_bottom || !is_current,
    ensures
        request_after(true, reached_bottom, false, is_current, settle_frames) == (
            true,
            LATEST_SETTLE_FRAMES,
        ),
{
}

/// A request is done once the table was at its end and up to date for as many
/// frames as it has to be, and not before.
pub proof fn lemma_request_settles()
    ensures
        ({
            let first = request_after(true, true, false, true, LATEST_SETTLE_FRAMES);
            let second = request_after(first.0, true, false, true, first.1);
            first.0 && !second.0
        }),
{
}

/// What becomes of a request for the newest event after a frame.
pub fn advance_scroll_request(
    requested: bool,
    reached_bottom: bool,
    manually_scrolled: bool,
    latest_view_is_current: bool,
    settle_frames: u8,
) -> (next: (bool, u8))
    ensures
        next == request_after(
            requested,
            reached_bottom,
            manually_scrolled,
            latest_view_is_current,
            settle_frames,
        ),
{
    if !requested || manually_scrolled {
        return (false, 0);
    }
    if !latest_view_is_current || !reached_bottom {
        return (true, LATEST_SETTLE_FRAMES);
    }
    if settle_frames > 1 {
        (true, settle_frames - 1)
    } else {
        (false, 0)
    }
}

/// Whether the table goes back to the newest event after the messages were
/// wrapped in another way.
pub fn should_reanchor_after_wrap(
    wrap_changed: bool,
    follow_latest: bool,
    was_at_latest: bool,
    latest_request_pending: bool,
) -> (result: bool)
    ensures
        result == (wrap_changed && follow_latest && (was_at_latest || latest_request_pending)),
{
    wrap_changed && follow_latest && (was_at_latest || latest_request_pending)
}

/// Whether the sources are to be read again after the limit of the number of events
/// was changed: once it is no longer being dragged or typed, or the change is
/// confirmed.
pub fn should_reload_after_limit_change(
    pending: bool,
    drag_stopped: bool,
    lost_focus: bool,
    has_focus: bool,
    dragged: bool,
    confirmed: bool,
) -> (result: bool)
    ensures
        result == (pending && (drag_stopped || lost_focus || (!has_focus && !dragged) || (has_focus
            && confirmed))),
{
    pending && (drag_stopped || lost_focus || (!has_focus && !dragged) || (has_focus && confirmed))
}

/// Whether a click closes the settings: one outside, but neither the one that
/// opens them nor one in a popup of theirs.
pub fn should_close_settings_popup(
    settings_button_clicked: bool,
    pointer_clicked: bool,
    clicked_elsewhere: bool,
    pointer_in_nested_popup: bool,
) -> (result: bool)
    ensures
        result == (pointer_clicked && clicked_elsewhere && !settings_button_clicked
            && !pointer_in_nested_popup),
{
    !settings_button_clicked && pointer_clicked && clicked_elsewhere && !pointer_in_nested_popup
}

/// Whether the rows that pass the filter can be found at once: not while a text
/// still has to be searched for.
pub fn can_refresh_filtered_rows_immediately(
    has_text_filter: bool,
    text_cache_is_current: bool,
) -> (result: bool)
    ensures
        result == (has_text_filter ==> text_cache_is_current),
{
    !has_text_filter || text_cache_is_current
}

/// Whether the table shows what the filter asks for.
pub fn latest_view_is_current(
    filters_dirty: bool,
    has_text_filter: bool,
    text_cache_is_current: bool,
) -> (result: bool)
    ensures
        result == (!filters_dirty && (has_text_filter ==> text_cache_is_current)),
{
    !filters_dirty && (!has_text_filter || text_cache_is_current)
}

/// Whether the reader who came back to the end of a table that is not up to date
/// is taken along.
pub fn should_resume_follow_at_latest_edge(
    follow_latest: bool,
    was_at_latest: bool,
    is_at_latest: bool,
    latest_view_is_current: bool,
) -> (result: bool)
    ensures
        result == (follow_latest && !was_at_latest && is_at_latest && !latest_view_is_current),
{
    follow_latest && !was_at_latest && is_at_latest && !latest_view_is_current
}

/// Whether old events are kept over the limit: while the table is paused, or its
/// reader is away from the newest event.
pub fn should_pause_pruning(paused: bool, tail_was_at_bottom: bool) -> (result: bool)
    ensures
        result == (paused || !tail_was_at_bottom),
{
    paused || !tail_was_at_bottom
}

/// What new events ask for.
#[derive(Clone, Copy, PartialEq, Eq, Structural, Debug)]
pub struct IngestionRefreshDecision {
    pub mark_filters_dirty: bool,
    pub refresh_anchored_view: bool,
}

/// What new events ask for: to find the rows that pass the filter again, unless
/// the table is paused, and at once where its reader is at the newest event.
pub fn ingestion_refresh_decision(
    received_events: bool,
    paused: bool,
    tail_was_at_bottom: bool,
) -> (decision: IngestionRefreshDecision)
    ensures
        decision.mark_filters_dirty == (received_events && !paused),
        decision.refresh_anchored_view == (received_events && !paused && tail_was_at_bottom),
{
    let mark_filters_dirty = received_events && !paused;
    IngestionRefreshDecision {
        mark_filters_dirty,
        refresh_anchored_view: mark_filters_dirty && tail_was_at_bottom,
    }
}

/// Rows stand in the table from the oldest to the newest where the newest is at the bottom,
/// and the other way round where it is at the top.
pub proof fn lemma_newest_row_is_at_its_end(rows: Seq<usize>)
    requires
        rows.len() > 0,
    ensures
        newest_row(rows, LatestAt::Bottom) == Some(rows[rows.len() - 1]),
        newest_row(rows, LatestAt::Top) == Some(rows[0]),
        displayed(rows, LatestAt::Bottom) == rows,
        displayed(rows, LatestAt::Top).len() == rows.len(),
        forall|i: int|
            0 <= i < rows.len() ==> #[trigger] displayed(rows, LatestAt::Top)[i]
                == rows[rows.len() - 1 - i],
        newest_row(displayed(rows, LatestAt::Top), LatestAt::Top) == newest_row(
            rows,
            LatestAt::Bottom,
        ),
{
}

/// A request for the newest event ends when the reader scrolls, and a frame that finds the
/// table at its end and up to date brings it one frame nearer to being done.
pub proof fn lemma_request_comes_to_its_end(reached: bool, current: bool, frames: u8)
    ensures
        !request_after(true, reached, true, current, frames).0,
        !request_after(false, reached, false, current, frames).0,
        frames > 1 ==> request_after(true, true, false, true, frames) == (true, (frames - 1) as u8),
        frames <= 1 ==> !request_after(true, true, false, true, frames).0,
        request_after(true, false, false, current, frames).1 == 2,
        request_after(true, reached, false, false, frames).1 == 2,
{
}

/// Old events are kept over the limit for a reader who looks at them, and only then: while
/// the table is paused, and while the reader is away from the newest event.
pub proof fn lemma_pruning_waits_for_the_reader(paused: bool, at_newest: bool, kept: bool)
    requires
        call_ensures(should_pause_pruning, (paused, at_newest), kept),
    ensures
        paused ==> kept,
        !at_newest ==> kept,
        !paused && at_newest ==> !kept,
{
}

/// New events are shown unless the table is paused, and at once to a reader who is at the
/// newest one; without new events nothing is done.
pub proof fn lemma_new_events_are_shown(
    received: bool,
    paused: bool,
    at_newest: bool,
    decision: IngestionRefreshDecision,
)
    requires
        call_ensures(ingestion_refresh_decision, (received, paused, at_newest), decision),
    ensures
        received && !paused ==> decision.mark_filters_dirty,
        received && !paused && at_newest ==> decision.refresh_anchored_view,
        paused || !received ==> !decision.mark_filters_dirty && !decision.refresh_anchored_view,
        !at_newest ==> !decision.refresh_anchored_view,
{
}

/// The table shows what the filter asks for once its rows are found again and the text of the
/// filter, if there is one, is searched for.
pub proof fn lemma_table_is_current(
    dirty: bool,
    has_text: bool,
    searched: bool,
    current: bool,
    at_once: bool,
)
    requires
        call_ensures(latest_view_is_current, (dirty, has_text, searched), current),
        call_ensures(can_refresh_filtered_rows_immediately, (has_text, searched), at_once),
    ensures
        dirty ==> !current,
        has_text && !searched ==> !current && !at_once,
        !has_text || searched ==> at_once,
        at_once && !dirty ==> current,
{
}

/// A reader who follows the newest event is taken along on coming back to the end of a table
/// that is not up to date; nobody else is.
pub proof fn lemma_reader_at_the_edge_is_taken_along(
    follows: bool,
    was_there: bool,
    is_there: bool,
    current: bool,
    taken: bool,
)
    requires
        call_ensures(
            should_resume_follow_at_latest_edge,
            (follows, was_there, is_there, current),
            taken,
        ),
    ensures
        follows && !was_there && is_there && !current ==> taken,
        !follows || was_there || !is_there || current ==> !taken,
{
}

/// After the messages were wrapped in another way, a reader who follows the newest event and
/// had it in sight or asked for it is brought back to it; nobody else is moved.
pub proof fn lemma_wrapping_keeps_the_newest_in_sight(
    changed: bool,
    follows: bool,
    in_sight: bool,
    asked: bool,
    moved: bool,
)
    requires
        call_ensures(should_reanchor_after_wrap, (changed, follows, in_sight, asked), moved),
    ensures
        changed && follows && in_sight ==> moved,
        changed && follows && asked ==> moved,
        !changed || !follows || (!in_sight && !asked) ==> !moved,
{
}

/// The sources are read again once the limit is no longer being changed: not while it is
/// dragged or typed in, unless that is confirmed.
pub proof fn lemma_limit_is_applied_when_settled(
    pending: bool,
    drag_stopped: bool,
    lost_focus: bool,
    has_focus: bool,
    dragged: bool,
    confirmed: bool,
    reload: bool,
)
    requires
        call_ensures(
            should_reload_after_limit_change,
            (pending, drag_stopped, lost_focus, has_focus, dragged, confirmed),
            reload,
        ),
    ensures
        !pending ==> !reload,
        pending && (drag_stopped || lost_focus) ==> reload,
        pending && has_focus && confirmed ==> reload,
        pending && !has_focus && !dragged ==> reload,
        !drag_stopped && !lost_focus && has_focus && !confirmed ==> !reload,
        !drag_stopped && !lost_focus && !has_focus && dragged ==> !reload,
{
}

/// A click outside closes the settings; the click that opens them and one in a popup of
/// theirs do not.
pub proof fn lemma_click_outside_closes_settings(
    on_button: bool,
    clicked: bool,
    elsewhere: bool,
    in_popup: bool,
    closes: bool,
)
    requires
        call_ensures(should_close_settings_popup, (on_button, clicked, elsewhere, in_popup), closes),
    ensures
        clicked && elsewhere && !on_button && !in_popup ==> closes,
        !clicked || !elsewhere || on_button || in_popup ==> !closes,
{
}

}
