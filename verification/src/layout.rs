//! The columns of the table and the order of the facets.
use vstd::prelude::*;

use crate::event::{correlation_of, tag_of, LogEvent};
use crate::hash::{hash, hash_of};
use crate::json::option_view;
use crate::list::{
    add_new, distinct, distinct_texts, lemma_distinct, lemma_distinct_absorbs,
    lemma_distinct_keeps, lemma_distinct_starts_with,
};
use crate::ordered::TextSet;
use crate::text::{has_prefix, owned, same, starts_with, views};
use crate::time::{is_offset, utc_text, zoned_text, Timestamp};

verus! {

/// A column of the table.
#[derive(Clone, Copy, PartialEq, Eq, Structural, Debug, Hash)]
pub enum TableColumn {
    Timestamp,
    RelativeTime,
    Level,
    Source,
    Tag,
    Subsystem,
    Event,
    Provider,
    Correlation,
    Duration,
    Status,
    Message,
}

/// All columns in their usual order.
pub open spec fn all_columns() -> Seq<TableColumn> {
    seq![
        TableColumn::Timestamp,
        TableColumn::RelativeTime,
        TableColumn::Level,
        TableColumn::Source,
        TableColumn::Tag,
        TableColumn::Subsystem,
        TableColumn::Event,
        TableColumn::Provider,
        TableColumn::Correlation,
        TableColumn::Duration,
        TableColumn::Status,
        TableColumn::Message,
    ]
}

/// The title of a column.
pub open spec fn column_title(column: TableColumn) -> Seq<char> {
    match column {
        TableColumn::Timestamp => "Timestamp"@,
        TableColumn::RelativeTime => "Relative"@,
        TableColumn::Level => "Level"@,
        TableColumn::Source => "Source"@,
        TableColumn::Tag => "Tag"@,
        TableColumn::Subsystem => "Subsystem"@,
        TableColumn::Event => "Event"@,
        TableColumn::Provider => "Provider"@,
        TableColumn::Correlation => "Correlation"@,
        TableColumn::Duration => "Duration"@,
        TableColumn::Status => "Status"@,
        TableColumn::Message => "Message"@,
    }
}

impl TableColumn {
    /// The title.
    pub fn title(self) -> (title: &'static str)
        ensures
            title@ == column_title(self),
    {
        match self {
            TableColumn::Timestamp => "Timestamp",
            TableColumn::RelativeTime => "Relative",
            TableColumn::Level => "Level",
            TableColumn::Source => "Source",
            TableColumn::Tag => "Tag",
            TableColumn::Subsystem => "Subsystem",
            TableColumn::Event => "Event",
            TableColumn::Provider => "Provider",
            TableColumn::Correlation => "Correlation",
            TableColumn::Duration => "Duration",
            TableColumn::Status => "Status",
            TableColumn::Message => "Message",
        }
    }
}

/// All columns in their usual order.
pub fn default_column_order() -> (columns: Vec<TableColumn>)
    ensures
        columns@ == all_columns(),
{
    let columns = vec![
        TableColumn::Timestamp,
        TableColumn::RelativeTime,
        TableColumn::Level,
        TableColumn::Source,
        TableColumn::Tag,
        TableColumn::Subsystem,
        TableColumn::Event,
        TableColumn::Provider,
        TableColumn::Correlation,
        TableColumn::Duration,
        TableColumn::Status,
        TableColumn::Message,
    ];
    assert(columns@ == all_columns());
    columns
}

/// Where a column first stands, or how many columns there are.
pub open spec fn column_place(columns: Seq<TableColumn>, column: TableColumn) -> int
    decreases columns.len(),
{
    if columns.len() == 0 || columns[0] == column {
        0
    } else {
        1 + column_place(columns.drop_first(), column)
    }
}

/// Where a column first stands.
proof fn lemma_column_place(columns: Seq<TableColumn>, column: TableColumn, place: int)
    requires
        0 <= place <= columns.len(),
        forall|i: int| 0 <= i < place ==> #[trigger] columns[i] != column,
        place < columns.len() ==> columns[place] == column,
    ensures
        column_place(columns, column) == place,
    decreases columns.len(),
{
    if place > 0 {
        assert(columns[0] != column);
        let rest = columns.drop_first();
        assert forall|i: int| 0 <= i < place - 1 implies #[trigger] rest[i] != column by {
            assert(columns[i + 1] != column);
        }
        lemma_column_place(rest, column, place - 1);
    }
}

/// Where a column first stands.
proof fn lemma_column_place_found(columns: Seq<TableColumn>, column: TableColumn)
    ensures
        0 <= column_place(columns, column) <= columns.len(),
        column_place(columns, column) < columns.len() <==> columns.contains(column),
        column_place(columns, column) < columns.len() ==> columns[column_place(columns, column)]
            == column,
    decreases columns.len(),
{
    if columns.len() > 0 && columns[0] != column {
        let rest = columns.drop_first();
        lemma_column_place_found(rest, column);
        if columns.contains(column) {
            let k = choose|k: int| 0 <= k < columns.len() && columns[k] == column;
            assert(rest[k - 1] == column);
        }
        if rest.contains(column) {
            let k = choose|k: int| 0 <= k < rest.len() && rest[k] == column;
            assert(columns[k + 1] == column);
        }
    }
}

/// Where a column first stands.
fn position_of(columns: &Vec<TableColumn>, column: TableColumn) -> (place: usize)
    ensures
        place == column_place(columns@, column),
        place <= columns@.len(),
        place < columns@.len() <==> columns@.contains(column),
{
    let mut place: usize = 0;
    while place < columns.len()
        invariant
            place <= columns.len(),
            forall|i: int| 0 <= i < place ==> #[trigger] columns@[i] != column,
        decreases columns.len() - place,
    {
        if columns[place] == column {
            proof {
                lemma_column_place(columns@, column, place as int);
            }
            return place;
        }
        place += 1;
    }
    proof {
        lemma_column_place(columns@, column, place as int);
    }
    place
}

/// The test for the other columns.
pub open spec fn is_other_column(column: TableColumn) -> spec_fn(TableColumn) -> bool {
    |other: TableColumn| other != column
}

/// Columns without one of them.
pub open spec fn without_column(columns: Seq<TableColumn>, column: TableColumn) -> Seq<TableColumn> {
    columns.filter(is_other_column(column))
}

/// The columns in the given order, each once, the missing ones behind in their
/// usual order. A missing relative time stands behind the timestamp.
pub open spec fn normalized_columns(columns: Seq<TableColumn>) -> Seq<TableColumn> {
    let complete = distinct(columns + all_columns());
    if columns.contains(TableColumn::RelativeTime) {
        complete
    } else {
        let others = without_column(complete, TableColumn::RelativeTime);
        others.insert(
            column_place(others, TableColumn::Timestamp) + 1,
            TableColumn::RelativeTime,
        )
    }
}

/// Adds columns that are missing.
fn add_columns(normalized: &mut Vec<TableColumn>, columns: &Vec<TableColumn>, Ghost(given): Ghost<
    Seq<TableColumn>,
>)
    requires
        old(normalized)@ == distinct(given),
    ensures
        final(normalized)@ == distinct(given + columns@),
{
    let mut index: usize = 0;
    assert(given + columns@.take(0) == given);
    while index < columns.len()
        invariant
            index <= columns.len(),
            normalized@ == distinct(given + columns@.take(index as int)),
        decreases columns.len() - index,
    {
        assert((given + columns@.take(index + 1)).drop_last() == given + columns@.take(
            index as int,
        ));
        if position_of(normalized, columns[index]) == normalized.len() {
            normalized.push(columns[index]);
        }
        index += 1;
    }
    assert(columns@.take(index as int) == columns@);
}

/// Columns without one of them.
fn drop_column(columns: &Vec<TableColumn>, column: TableColumn) -> (result: Vec<TableColumn>)
    ensures
        result@ == without_column(columns@, column),
{
    let mut result: Vec<TableColumn> = Vec::new();
    let mut index: usize = 0;
    reveal(Seq::filter);
    assert(columns@.take(0) == Seq::<TableColumn>::empty());
    while index < columns.len()
        invariant
            index <= columns.len(),
            result@ == without_column(columns@.take(index as int), column),
        decreases columns.len() - index,
    {
        reveal(Seq::filter);
        assert(columns@.take(index + 1).drop_last() == columns@.take(index as int));
        if columns[index] != column {
            result.push(columns[index]);
        }
        index += 1;
    }
    assert(columns@.take(index as int) == columns@);
    result
}

/// What a list without a column holds.
proof fn lemma_without_column(columns: Seq<TableColumn>, column: TableColumn)
    ensures
        forall|other: TableColumn| #[trigger]
            without_column(columns, column).contains(other) <==> columns.contains(other) && other
                != column,
        columns.no_duplicates() ==> without_column(columns, column).no_duplicates(),
    decreases columns.len(),
{
    reveal(Seq::filter);
    if columns.len() > 0 {
        let before = columns.drop_last();
        let last = columns.last();
        lemma_without_column(before, column);
        let kept = without_column(before, column);
        let all = without_column(columns, column);
        assert(all == if last != column {
            kept.push(last)
        } else {
            kept
        });
        assert forall|other: TableColumn| #[trigger]
            all.contains(other) <==> columns.contains(other) && other != column by {
            if all.contains(other) {
                let k = choose|k: int| 0 <= k < all.len() && all[k] == other;
                if k < kept.len() {
                    assert(kept[k] == other);
                    assert(kept.contains(other));
                    let j = choose|j: int| 0 <= j < before.len() && before[j] == other;
                    assert(columns[j] == other);
                } else {
                    assert(columns[columns.len() - 1] == other);
                }
            }
            if columns.contains(other) && other != column {
                let k = choose|k: int| 0 <= k < columns.len() && columns[k] == other;
                if k < before.len() {
                    assert(before[k] == other);
                    assert(kept.contains(other));
                    let j = choose|j: int| 0 <= j < kept.len() && kept[j] == other;
                    assert(all[j] == other);
                } else {
                    assert(all[kept.len() as int] == other);
                }
            }
        }
        if columns.no_duplicates() {
            assert(before.no_duplicates());
            if kept.contains(last) {
                let j = choose|j: int| 0 <= j < before.len() && before[j] == last;
                assert(columns[j] == columns[columns.len() - 1]);
            }
            assert(!kept.contains(last));
        }
    }
}

/// All columns in their usual order hold every column.
proof fn lemma_all_columns(column: TableColumn)
    ensures
        all_columns().contains(column),
        all_columns().no_duplicates(),
{
    let all = all_columns();
    let place: int = match column {
        TableColumn::Timestamp => 0,
        TableColumn::RelativeTime => 1,
        TableColumn::Level => 2,
        TableColumn::Source => 3,
        TableColumn::Tag => 4,
        TableColumn::Subsystem => 5,
        TableColumn::Event => 6,
        TableColumn::Provider => 7,
        TableColumn::Correlation => 8,
        TableColumn::Duration => 9,
        TableColumn::Status => 10,
        TableColumn::Message => 11,
    };
    assert(all[place] == column);
}

/// A list and more items hold the items of both.
proof fn lemma_complete(columns: Seq<TableColumn>)
    ensures
        distinct(columns + all_columns()).no_duplicates(),
        forall|column: TableColumn| #[trigger]
            distinct(columns + all_columns()).contains(column),
{
    let both = columns + all_columns();
    lemma_distinct(both);
    assert forall|column: TableColumn| #[trigger] distinct(both).contains(column) by {
        lemma_all_columns(column);
        let k = choose|k: int| 0 <= k < all_columns().len() && all_columns()[k] == column;
        assert(both[columns.len() + k] == column);
        assert(both.to_set().contains(column));
        assert(distinct(both).to_set().contains(column));
    }
}

/// An order of the columns holds every column once.
pub proof fn lemma_normalized_columns(columns: Seq<TableColumn>)
    ensures
        normalized_columns(columns).no_duplicates(),
        forall|column: TableColumn| #[trigger] normalized_columns(columns).contains(column),
{
    lemma_complete(columns);
    let complete = distinct(columns + all_columns());
    if !columns.contains(TableColumn::RelativeTime) {
        let others = without_column(complete, TableColumn::RelativeTime);
        lemma_without_column(complete, TableColumn::RelativeTime);
        lemma_column_place_found(others, TableColumn::Timestamp);
        assert(complete.contains(TableColumn::Timestamp));
        assert(others.contains(TableColumn::Timestamp));
        assert(complete.contains(TableColumn::RelativeTime));
        let place = column_place(others, TableColumn::Timestamp) + 1;
        let result = others.insert(place, TableColumn::RelativeTime);
        assert(result == normalized_columns(columns));
        assert(!others.contains(TableColumn::RelativeTime));
        assert forall|i: int, j: int|
            0 <= i < result.len() && 0 <= j < result.len() && i != j implies result[i]
            != result[j] by {
            let a = if i < place {
                i
            } else {
                i - 1
            };
            let b = if j < place {
                j
            } else {
                j - 1
            };
            if i != place {
                assert(result[i] == others[a]);
            }
            if j != place {
                assert(result[j] == others[b]);
            }
            if i == place {
                assert(others.contains(others[b]));
            }
            if j == place {
                assert(others.contains(others[a]));
            }
        }
        assert forall|column: TableColumn| #[trigger] result.contains(column) by {
            assert(complete.contains(column));
            if column == TableColumn::RelativeTime {
                assert(result[place] == column);
            } else {
                assert(others.contains(column));
                let k = choose|k: int| 0 <= k < others.len() && others[k] == column;
                if k < place {
                    assert(result[k] == column);
                } else {
                    assert(result[k + 1] == column);
                }
            }
        }
    }
}

/// An order of the columns stays as it is when it is put in order again.
pub proof fn lemma_normalizing_columns_twice(columns: Seq<TableColumn>)
    ensures
        normalized_columns(normalized_columns(columns)) == normalized_columns(columns),
{
    let once = normalized_columns(columns);
    lemma_normalized_columns(columns);
    assert(once.contains(TableColumn::RelativeTime));
    assert forall|i: int| 0 <= i < all_columns().len() implies once.contains(
        #[trigger] all_columns()[i],
    ) by {}
    lemma_distinct_absorbs(once, all_columns());
    lemma_distinct_keeps(once);
}

/// The columns in the given order, each once, and the missing ones.
pub fn normalize_column_order(columns: Vec<TableColumn>) -> (result: Vec<TableColumn>)
    ensures
        result@ == normalized_columns(columns@),
{
    let had_relative_time = position_of(&columns, TableColumn::RelativeTime) < columns.len();
    let mut normalized: Vec<TableColumn> = Vec::new();
    add_columns(&mut normalized, &columns, Ghost(Seq::empty()));
    assert(Seq::<TableColumn>::empty() + columns@ == columns@);
    let usual = default_column_order();
    add_columns(&mut normalized, &usual, Ghost(columns@));
    if had_relative_time {
        return normalized;
    }
    let mut others = drop_column(&normalized, TableColumn::RelativeTime);
    proof {
        lemma_complete(columns@);
        lemma_without_column(normalized@, TableColumn::RelativeTime);
        assert(normalized@.contains(TableColumn::Timestamp));
        assert(others@.contains(TableColumn::Timestamp));
    }
    assert(others@.len() == others.len());
    let place: usize = position_of(&others, TableColumn::Timestamp) + 1;
    others.insert(place, TableColumn::RelativeTime);
    others
}

/// The columns that were saved, put in order. An order that was saved before
/// there was a relative time says nothing of it.
pub fn normalize_saved_column_order(columns: Vec<TableColumn>, relative_time_column: bool) -> (
result: Vec<TableColumn>)
    ensures
        result@ == normalized_columns(
            if relative_time_column {
                columns@
            } else {
                without_column(columns@, TableColumn::RelativeTime)
            },
        ),
{
    if relative_time_column {
        normalize_column_order(columns)
    } else {
        normalize_column_order(drop_column(&columns, TableColumn::RelativeTime))
    }
}

/// The columns after one of them was moved before another or behind it.
pub open spec fn moved_column(
    columns: Seq<TableColumn>,
    source: TableColumn,
    target: TableColumn,
    insert_after: bool,
) -> Seq<TableColumn> {
    if source == target || !columns.contains(source) || !columns.contains(target) {
        columns
    } else {
        let rest = columns.remove(column_place(columns, source));
        let place = column_place(rest, target);
        rest.insert(
            if insert_after {
                place + 1
            } else {
                place
            },
            source,
        )
    }
}

/// Moves a column before another or behind it.
pub fn move_column(
    columns: &mut Vec<TableColumn>,
    source: TableColumn,
    target: TableColumn,
    insert_after: bool,
)
    ensures
        final(columns)@ == moved_column(old(columns)@, source, target, insert_after),
{
    if source == target {
        return;
    }
    let place: usize = position_of(columns, source);
    if place == columns.len() || position_of(columns, target) == columns.len() {
        return;
    }
    proof {
        lemma_column_place_found(columns@, source);
        lemma_removed_keeps(columns@, place as int, target);
    }
    let moved = columns.remove(place);
    let mut insertion: usize = position_of(columns, target);
    if insert_after {
        insertion = insertion + 1;
    }
    columns.insert(insertion, moved);
}

/// A column that is not taken away stays.
proof fn lemma_removed_keeps(columns: Seq<TableColumn>, place: int, column: TableColumn)
    requires
        0 <= place < columns.len(),
        columns[place] != column,
        columns.contains(column),
    ensures
        columns.remove(place).contains(column),
{
    let k = choose|k: int| 0 <= k < columns.len() && columns[k] == column;
    if k < place {
        assert(columns.remove(place)[k] == column);
    } else {
        assert(columns.remove(place)[k - 1] == column);
    }
}

/// Moving a column neither adds a column nor loses one.
pub proof fn lemma_moving_keeps_columns(
    columns: Seq<TableColumn>,
    source: TableColumn,
    target: TableColumn,
    insert_after: bool,
)
    ensures
        moved_column(columns, source, target, insert_after).to_multiset() == columns.to_multiset(),
{
    if source != target && columns.contains(source) && columns.contains(target) {
        lemma_column_place_found(columns, source);
        let place = column_place(columns, source);
        lemma_removed_keeps(columns, place, target);
        let rest = columns.remove(place);
        lemma_column_place_found(rest, target);
        broadcast use vstd::seq_lib::group_to_multiset_ensures;

        let back = if insert_after {
            column_place(rest, target) + 1
        } else {
            column_place(rest, target)
        };
        assert(rest.insert(back, source).to_multiset() =~= rest.to_multiset().insert(source));
        assert(columns == rest.insert(place, source));
        assert(rest.insert(place, source).to_multiset() =~= rest.to_multiset().insert(source));
    }
}

/// The facets that are shown without being asked for.
pub const DISPLAYED_FACETS: [&'static str; 9] = [
    "level",
    "source",
    "tag",
    "subsystem",
    "target",
    "event",
    "provider",
    "status",
    "correlation",
];

/// The facets that are shown without being asked for.
pub open spec fn usual_facets() -> Seq<Seq<char>> {
    DISPLAYED_FACETS@.map_values(|facet: &'static str| facet@)
}

/// The facets that are shown without being asked for.
pub fn default_facet_order() -> (facets: Vec<String>)
    ensures
        views(facets@) == usual_facets(),
{
    let usual = DISPLAYED_FACETS;
    let mut facets: Vec<String> = Vec::new();
    let mut index: usize = 0;
    while index < usual.len()
        invariant
            index <= usual@.len(),
            usual@ == DISPLAYED_FACETS@,
            views(facets@) == usual_facets().take(index as int),
        decreases usual@.len() - index,
    {
        let ghost before = views(facets@);
        facets.push(owned(usual[index]));
        assert(views(facets@) == before.push(usual_facets()[index as int]));
        index += 1;
    }
    assert(usual_facets().take(index as int) == usual_facets());
    facets
}

/// The facets in the given order, each once, the usual ones that are missing
/// behind.
pub fn normalize_facet_order(facets: Vec<String>) -> (result: Vec<String>)
    ensures
        views(result@) == distinct(views(facets@) + usual_facets()),
{
    let ghost given = views(facets@);
    let usual = default_facet_order();
    let mut result = distinct_texts(&facets);
    let mut index: usize = 0;
    assert(given + usual_facets().take(0) == given);
    while index < usual.len()
        invariant
            index <= usual.len(),
            views(usual@) == usual_facets(),
            views(result@) == distinct(given + usual_facets().take(index as int)),
        decreases usual.len() - index,
    {
        assert((given + usual_facets().take(index + 1)).drop_last() == given + usual_facets().take(
            index as int,
        ));
        assert(usual_facets()[index as int] == usual@[index as int]@);
        add_new(&mut result, usual[index].clone());
        index += 1;
    }
    assert(usual_facets().take(index as int) == usual_facets());
    result
}

/// An order of facets stays as it is when it is put in order again, and holds
/// every facet of the given ones and every usual one once.
pub proof fn lemma_normalizing_facets_twice(facets: Seq<Seq<char>>)
    ensures
        ({
            let once = distinct(facets + usual_facets());
            &&& distinct(once + usual_facets()) == once
            &&& once.no_duplicates()
            &&& once.to_set() == facets.to_set().union(usual_facets().to_set())
        }),
{
    let both = facets + usual_facets();
    let once = distinct(both);
    lemma_distinct(both);
    assert forall|facet: Seq<char>| both.contains(facet) <==> facets.contains(facet)
        || usual_facets().contains(facet) by {
        if both.contains(facet) {
            let k = choose|k: int| 0 <= k < both.len() && both[k] == facet;
            if k < facets.len() {
                assert(facets[k] == facet);
            } else {
                assert(usual_facets()[k - facets.len()] == facet);
            }
        }
        if facets.contains(facet) {
            let k = choose|k: int| 0 <= k < facets.len() && facets[k] == facet;
            assert(both[k] == facet);
        }
        if usual_facets().contains(facet) {
            let k = choose|k: int| 0 <= k < usual_facets().len() && usual_facets()[k] == facet;
            assert(both[facets.len() + k] == facet);
        }
    }
    assert(once.to_set() =~= facets.to_set().union(usual_facets().to_set()));
    assert forall|i: int| 0 <= i < usual_facets().len() implies once.contains(
        #[trigger] usual_facets()[i],
    ) by {
        assert(usual_facets().contains(usual_facets()[i]));
        assert(once.to_set().contains(usual_facets()[i]));
    }
    lemma_distinct_absorbs(once, usual_facets());
    lemma_distinct_keeps(once);
}

/// How many facets of fields are shown.
pub const SHOWN_FIELDS: usize = 20;

/// The test for facets of fields.
pub open spec fn is_field_facet() -> spec_fn(Seq<char>) -> bool {
    |facet: Seq<char>| has_prefix(facet, "fields."@)
}

/// The test for facets that are not hidden.
pub open spec fn is_not_hidden(hidden: Set<Seq<char>>) -> spec_fn(Seq<char>) -> bool {
    |facet: Seq<char>| !hidden.contains(facet)
}

/// The first items of a list.
pub open spec fn first_items<A>(items: Seq<A>, count: int) -> Seq<A> {
    if items.len() <= count {
        items
    } else {
        items.take(count)
    }
}

/// The facets that are shown: those in the order and some of the fields, without
/// the hidden ones, each once.
pub open spec fn shown_facets(
    order: Seq<Seq<char>>,
    names: Seq<Seq<char>>,
    hidden: Set<Seq<char>>,
) -> Seq<Seq<char>> {
    distinct(
        (order + first_items(names.filter(is_field_facet()), SHOWN_FIELDS as int)).filter(
            is_not_hidden(hidden),
        ),
    )
}

/// The first facets of fields.
fn field_facets(names: &Vec<String>) -> (fields: Vec<String>)
    ensures
        views(fields@) == first_items(
            views(names@).filter(is_field_facet()),
            SHOWN_FIELDS as int,
        ),
{
    let ghost all = views(names@);
    let mut fields: Vec<String> = Vec::new();
    let mut index: usize = 0;
    reveal(Seq::filter);
    assert(all.take(0) == Seq::<Seq<char>>::empty());
    assert(views(fields@) == Seq::<Seq<char>>::empty());
    while index < names.len()
        invariant
            index <= names.len(),
            all == views(names@),
            views(fields@) == first_items(
                all.take(index as int).filter(is_field_facet()),
                SHOWN_FIELDS as int,
            ),
        decreases names.len() - index,
    {
        reveal(Seq::filter);
        assert(all.take(index + 1).drop_last() == all.take(index as int));
        assert(all[index as int] == names@[index as int]@);
        let ghost before = all.take(index as int).filter(is_field_facet());
        if starts_with(names[index].as_str(), "fields.") {
            assert(all.take(index + 1).filter(is_field_facet()) == before.push(
                all[index as int],
            ));
            if fields.len() < SHOWN_FIELDS {
                let ghost shown = views(fields@);
                fields.push(names[index].clone());
                assert(views(fields@) == shown.push(all[index as int]));
            } else {
                assert(before.push(all[index as int]).take(SHOWN_FIELDS as int) == before.take(
                    SHOWN_FIELDS as int,
                ));
                assert(views(fields@) == before.take(SHOWN_FIELDS as int));
            }
        }
        index += 1;
    }
    assert(all.take(index as int) == all);
    fields
}

/// Adds the facets that are not hidden.
fn add_shown(
    shown: &mut Vec<String>,
    facets: &Vec<String>,
    hidden: &TextSet,
    Ghost(given): Ghost<Seq<Seq<char>>>,
)
    requires
        views(old(shown)@) == distinct(given.filter(is_not_hidden(hidden@))),
    ensures
        views(final(shown)@) == distinct((given + views(facets@)).filter(is_not_hidden(hidden@))),
{
    let ghost all = views(facets@);
    let mut index: usize = 0;
    assert(given + all.take(0) == given);
    while index < facets.len()
        invariant
            index <= facets.len(),
            all == views(facets@),
            views(shown@) == distinct(
                (given + all.take(index as int)).filter(is_not_hidden(hidden@)),
            ),
        decreases facets.len() - index,
    {
        reveal(Seq::filter);
        let ghost before = (given + all.take(index as int)).filter(is_not_hidden(hidden@));
        assert((given + all.take(index + 1)).drop_last() == given + all.take(index as int));
        assert((given + all.take(index + 1)).last() == all[index as int]);
        assert(all[index as int] == facets@[index as int]@);
        if !hidden.contains(facets[index].as_str()) {
            assert((given + all.take(index + 1)).filter(is_not_hidden(hidden@)) == before.push(
                all[index as int],
            ));
            assert(before.push(all[index as int]).drop_last() == before);
            add_new(shown, facets[index].clone());
        }
        index += 1;
    }
    assert(all.take(index as int) == all);
}

/// The facets that are shown.
pub fn displayed_facets(order: &Vec<String>, names: &Vec<String>, hidden: &TextSet) -> (facets: Vec<
    String,
>)
    ensures
        views(facets@) == shown_facets(views(order@), views(names@), hidden@),
{
    let fields = field_facets(names);
    let mut shown: Vec<String> = Vec::new();
    proof {
        reveal(Seq::filter);
        assert(Seq::<Seq<char>>::empty().filter(is_not_hidden(hidden@)) == Seq::<
            Seq<char>,
        >::empty());
        assert(views(shown@) == Seq::<Seq<char>>::empty());
        assert(Seq::<Seq<char>>::empty() + views(order@) == views(order@));
    }
    add_shown(&mut shown, order, hidden, Ghost(Seq::empty()));
    add_shown(&mut shown, &fields, hidden, Ghost(views(order@)));
    shown
}

/// How timestamps are shown.
#[derive(Clone, Copy, PartialEq, Eq, Structural, Debug, Default)]
pub enum TimestampDisplay {
    #[default]
    Local,
    Utc,
}

/// The text of an instant in a format, where the local time lies some seconds east of
/// Coordinated Universal Time; nothing where the format is none.
pub open spec fn shown_time(
    display: TimestampDisplay,
    timestamp: Timestamp,
    offset: int,
    format: Seq<char>,
) -> Option<Seq<char>> {
    match display {
        TimestampDisplay::Local => zoned_text(
            timestamp.seconds(),
            timestamp.nanos(),
            offset,
            format,
        ),
        TimestampDisplay::Utc => utc_text(timestamp.seconds(), timestamp.nanos(), format),
    }
}

impl TimestampDisplay {
    /// The title.
    pub fn title(self) -> (title: &'static str)
        ensures
            title@ == match self {
                TimestampDisplay::Local => "Local Time"@,
                TimestampDisplay::Utc => "UTC"@,
            },
    {
        match self {
            TimestampDisplay::Local => "Local Time",
            TimestampDisplay::Utc => "UTC",
        }
    }

    /// The text of an instant in a format. The local time lies some seconds east of
    /// Coordinated Universal Time.
    pub fn format_timestamp(self, timestamp: Timestamp, offset: i32, format: &str) -> (text: Option<
        String,
    >)
        requires
            is_offset(offset as int),
        ensures
            option_view(text) == shown_time(self, timestamp, offset as int, format@),
    {
        match self {
            TimestampDisplay::Local => timestamp.format_zoned(offset, format),
            TimestampDisplay::Utc => timestamp.format_utc(format),
        }
    }

    /// The text of the instant of an event in a format.
    pub fn format(self, event: &LogEvent, offset: i32, format: &str) -> (text: Option<String>)
        requires
            is_offset(offset as int),
        ensures
            option_view(text) == shown_time(self, event.timestamp, offset as int, format@),
    {
        self.format_timestamp(event.timestamp, offset, format)
    }
}

/// What the rows are coloured by.
#[derive(Clone, Copy, PartialEq, Eq, Structural, Debug, Default)]
pub enum ColorBy {
    #[default]
    Off,
    Source,
    Tag,
    Subsystem,
    Target,
    Event,
    Provider,
    Correlation,
}

/// The text of an event that a row is coloured by, before empty ones are left
/// out.
pub open spec fn raw_color_value(color: ColorBy, event: LogEvent) -> Option<Seq<char>> {
    match color {
        ColorBy::Off => None,
        ColorBy::Source => Some(event.source@),
        ColorBy::Tag => Some(tag_of(event.message@, event.subsystem@)),
        ColorBy::Subsystem => Some(event.subsystem@),
        ColorBy::Target => option_view(event.target),
        ColorBy::Event => Some(event.event@),
        ColorBy::Provider => option_view(event.provider),
        ColorBy::Correlation => Some(correlation_of(event)),
    }
}

/// The text of an event that a row is coloured by: not an empty one, nor a
/// hyphen.
pub open spec fn color_value(color: ColorBy, event: LogEvent) -> Option<Seq<char>> {
    match raw_color_value(color, event) {
        Some(value) => if value.len() > 0 && value != "-"@ {
            Some(value)
        } else {
            None
        },
        None => None,
    }
}

impl ColorBy {
    /// The title.
    pub fn title(self) -> (title: &'static str)
        ensures
            title@ == match self {
                ColorBy::Off => "Off"@,
                ColorBy::Source => "Source"@,
                ColorBy::Tag => "Tag"@,
                ColorBy::Subsystem => "Subsystem"@,
                ColorBy::Target => "Target"@,
                ColorBy::Event => "Event"@,
                ColorBy::Provider => "Provider"@,
                ColorBy::Correlation => "Correlation"@,
            },
    {
        match self {
            ColorBy::Off => "Off",
            ColorBy::Source => "Source",
            ColorBy::Tag => "Tag",
            ColorBy::Subsystem => "Subsystem",
            ColorBy::Target => "Target",
            ColorBy::Event => "Event",
            ColorBy::Provider => "Provider",
            ColorBy::Correlation => "Correlation",
        }
    }

    /// The text of an event that its row is coloured by.
    pub fn event_value(self, event: &LogEvent) -> (value: Option<String>)
        ensures
            option_view(value) == color_value(self, *event),
    {
        let value = match self {
            ColorBy::Off => None,
            ColorBy::Source => Some(event.source.clone()),
            ColorBy::Tag => Some(event.tag()),
            ColorBy::Subsystem => Some(event.subsystem.clone()),
            ColorBy::Target => event.target.clone(),
            ColorBy::Event => Some(event.event.clone()),
            ColorBy::Provider => event.provider.clone(),
            ColorBy::Correlation => Some(owned(event.correlation_id())),
        };
        if let Some(text) = &value {
            if text.as_str().is_empty() || same(text.as_str(), "-") {
                return None;
            }
        }
        value
    }
}

/// The number of hues.
pub const HUES: u64 = 3_600;

/// The hue that a text is shown in: the same one for the same text.
pub fn stable_value_hue(value: &str) -> (hue: u64)
    ensures
        hue == hash_of(vstd::utf8::encode_utf8(value@)) % HUES,
{
    hash(value.as_bytes()) % HUES
}

/// A column that is moved stands directly before the other one or directly behind it; the
/// other columns keep their order.
pub proof fn lemma_moved_column_stands_beside(
    columns: Seq<TableColumn>,
    source: TableColumn,
    target: TableColumn,
    insert_after: bool,
)
    requires
        source != target,
        columns.contains(source),
        columns.contains(target),
    ensures
        exists|from: int, to: int|
            {
                &&& 0 <= from < columns.len()
                &&& columns[from] == source
                &&& 0 <= to <= columns.remove(from).len()
                &&& moved_column(columns, source, target, insert_after)
                    == #[trigger] columns.remove(from).insert(to, source)
                &&& insert_after ==> to > 0 && columns.remove(from)[to - 1] == target
                &&& !insert_after ==> to < columns.remove(from).len() && columns.remove(from)[to]
                    == target
            },
{
    lemma_column_place_found(columns, source);
    let from = column_place(columns, source);
    lemma_removed_keeps(columns, from, target);
    let rest = columns.remove(from);
    lemma_column_place_found(rest, target);
    let place = column_place(rest, target);
    let to = if insert_after {
        place + 1
    } else {
        place
    };
    assert(moved_column(columns, source, target, insert_after) == columns.remove(from).insert(
        to,
        source,
    ));
}

/// Columns that cannot be moved stay where they are.
pub proof fn lemma_columns_that_stay(
    columns: Seq<TableColumn>,
    source: TableColumn,
    target: TableColumn,
    insert_after: bool,
)
    requires
        source == target || !columns.contains(source) || !columns.contains(target),
    ensures
        moved_column(columns, source, target, insert_after) == columns,
{
}

/// An order of columns is kept, with those that it lacks behind. One without the relative
/// time gets it directly behind the timestamp.
pub proof fn lemma_column_order_is_kept(columns: Seq<TableColumn>)
    requires
        columns.no_duplicates(),
    ensures
        columns.contains(TableColumn::RelativeTime) ==> normalized_columns(columns).take(
            columns.len() as int,
        ) == columns,
        !columns.contains(TableColumn::RelativeTime) ==> exists|place: int|
            {
                &&& 0 < place < normalized_columns(columns).len()
                &&& #[trigger] normalized_columns(columns)[place] == TableColumn::RelativeTime
                &&& normalized_columns(columns)[place - 1] == TableColumn::Timestamp
                &&& normalized_columns(columns).remove(place).take(columns.len() as int) == columns
            },
{
    lemma_distinct_keeps(columns);
    lemma_distinct_starts_with(columns, all_columns());
    let complete = distinct(columns + all_columns());
    if !columns.contains(TableColumn::RelativeTime) {
        lemma_complete(columns);
        let others = without_column(complete, TableColumn::RelativeTime);
        lemma_without_column(complete, TableColumn::RelativeTime);
        assert(complete.contains(TableColumn::Timestamp));
        assert(others.contains(TableColumn::Timestamp));
        lemma_column_place_found(others, TableColumn::Timestamp);
        let place = column_place(others, TableColumn::Timestamp) + 1;
        let result = normalized_columns(columns);
        assert(result == others.insert(place, TableColumn::RelativeTime));
        assert(normalized_columns(columns)[place] == TableColumn::RelativeTime);
        assert(result[place - 1] == others[place - 1]);
        assert(result.remove(place) =~= others);
        lemma_start_without(complete, columns, TableColumn::RelativeTime);
    }
}

/// The start of a list that lacks a column is the start of the list without it.
proof fn lemma_start_without(
    columns: Seq<TableColumn>,
    start: Seq<TableColumn>,
    column: TableColumn,
)
    requires
        start.len() <= columns.len(),
        columns.take(start.len() as int) == start,
        !start.contains(column),
    ensures
        without_column(columns, column).len() >= start.len(),
        without_column(columns, column).take(start.len() as int) == start,
    decreases columns.len(),
{
    reveal(Seq::filter);
    if columns.len() == start.len() {
        assert(columns =~= start);
        lemma_all_others(columns, column);
        assert(start.take(start.len() as int) == start);
    } else {
        let before = columns.drop_last();
        assert(before.take(start.len() as int) == start);
        lemma_start_without(before, start, column);
        let kept = without_column(before, column);
        assert(kept.push(columns.last()).take(start.len() as int) == kept.take(
            start.len() as int,
        ));
    }
}

proof fn lemma_all_others(columns: Seq<TableColumn>, column: TableColumn)
    requires
        !columns.contains(column),
    ensures
        without_column(columns, column) == columns,
    decreases columns.len(),
{
    reveal(Seq::filter);
    if columns.len() > 0 {
        let before = columns.drop_last();
        assert(!before.contains(column)) by {
            if before.contains(column) {
                let k = choose|k: int| 0 <= k < before.len() && before[k] == column;
                assert(columns[k] == column);
            }
        }
        lemma_all_others(before, column);
        assert(columns[columns.len() - 1] != column);
        assert(before.push(columns.last()) == columns);
    }
}

/// The facets that are shown are those of the order and the first twenty of the fields, but
/// none that is hidden, and none twice.
pub proof fn lemma_shown_facets_are_not_hidden(
    order: Seq<Seq<char>>,
    names: Seq<Seq<char>>,
    hidden: Set<Seq<char>>,
    facet: Seq<char>,
)
    ensures
        ({
            let fields = names.filter(|name: Seq<char>| has_prefix(name, "fields."@));
            let first = if fields.len() <= 20 {
                fields
            } else {
                fields.take(20)
            };
            &&& shown_facets(order, names, hidden).no_duplicates()
            &&& shown_facets(order, names, hidden).contains(facet) <==> (order.contains(facet)
                || first.contains(facet)) && !hidden.contains(facet)
        }),
{
    let fields = names.filter(|name: Seq<char>| has_prefix(name, "fields."@));
    assert(fields == names.filter(is_field_facet())) by {
        assert((|name: Seq<char>| has_prefix(name, "fields."@)) =~= is_field_facet());
    }
    let first = first_items(fields, 20);
    let all = order + first;
    let kept = all.filter(is_not_hidden(hidden));
    lemma_distinct(kept);
    assert(kept.contains(facet) <==> all.contains(facet) && !hidden.contains(facet)) by {
        lemma_filter_contains(all, is_not_hidden(hidden), facet);
    }
    assert(all.contains(facet) <==> order.contains(facet) || first.contains(facet)) by {
        if all.contains(facet) {
            let k = choose|k: int| 0 <= k < all.len() && all[k] == facet;
            if k < order.len() {
                assert(order[k] == facet);
            } else {
                assert(first[k - order.len()] == facet);
            }
        }
        if order.contains(facet) {
            let k = choose|k: int| 0 <= k < order.len() && order[k] == facet;
            assert(all[k] == facet);
        }
        if first.contains(facet) {
            let k = choose|k: int| 0 <= k < first.len() && first[k] == facet;
            assert(all[order.len() + k] == facet);
        }
    }
    assert(distinct(kept).to_set().contains(facet) <==> kept.to_set().contains(facet));
}

proof fn lemma_filter_contains(
    items: Seq<Seq<char>>,
    test: spec_fn(Seq<char>) -> bool,
    item: Seq<char>,
)
    ensures
        items.filter(test).contains(item) <==> items.contains(item) && test(item),
    decreases items.len(),
{
    reveal(Seq::filter);
    if items.len() > 0 {
        let before = items.drop_last();
        let last = items.last();
        lemma_filter_contains(before, test, item);
        let kept = before.filter(test);
        if items.contains(item) {
            let k = choose|k: int| 0 <= k < items.len() && items[k] == item;
            if k < before.len() {
                assert(before[k] == item);
            }
        }
        if before.contains(item) {
            let k = choose|k: int| 0 <= k < before.len() && before[k] == item;
            assert(items[k] == item);
        }
        if test(last) {
            let all = kept.push(last);
            if all.contains(item) {
                let k = choose|k: int| 0 <= k < all.len() && all[k] == item;
                if k < kept.len() {
                    assert(kept[k] == item);
                }
            }
            if kept.contains(item) {
                let k = choose|k: int| 0 <= k < kept.len() && kept[k] == item;
                assert(all[k] == item);
            }
            assert(all[kept.len() as int] == last);
        }
        assert(items[items.len() - 1] == last);
    }
}

/// Rows are coloured by the part of the event that is chosen, where it is there, not empty
/// and no hyphen.
pub proof fn lemma_colors_are_of_parts(event: LogEvent)
    ensures
        color_value(ColorBy::Off, event) is None,
        colors_by(ColorBy::Source, event, Some(event.source@)),
        colors_by(ColorBy::Tag, event, Some(tag_of(event.message@, event.subsystem@))),
        colors_by(ColorBy::Subsystem, event, Some(event.subsystem@)),
        colors_by(ColorBy::Target, event, option_view(event.target)),
        colors_by(ColorBy::Event, event, Some(event.event@)),
        colors_by(ColorBy::Provider, event, option_view(event.provider)),
        colors_by(ColorBy::Correlation, event, Some(correlation_of(event))),
{
}

/// Whether a choice of colour goes by a text of an event.
pub open spec fn colors_by(color: ColorBy, event: LogEvent, text: Option<Seq<char>>) -> bool {
    if text is Some && text->0.len() > 0 && text->0 != "-"@ {
        color_value(color, event) == text
    } else {
        color_value(color, event) is None
    }
}

/// Every column is a usual one.
pub proof fn lemma_every_column_is_usual(column: TableColumn)
    ensures
        all_columns().contains(column),
{
    lemma_all_columns(column);
}

/// Columns with equal titles are the same.
pub proof fn lemma_titles_tell_columns_apart(first: TableColumn, second: TableColumn)
    requires
        column_title(first) == column_title(second),
    ensures
        first == second,
{
    reveal_strlit("Timestamp");
    reveal_strlit("Relative");
    reveal_strlit("Level");
    reveal_strlit("Source");
    reveal_strlit("Tag");
    reveal_strlit("Subsystem");
    reveal_strlit("Event");
    reveal_strlit("Provider");
    reveal_strlit("Correlation");
    reveal_strlit("Duration");
    reveal_strlit("Status");
    reveal_strlit("Message");
    assert("Timestamp"@.len() == 9 && "Timestamp"@[0] == 'T');
    assert("Relative"@.len() == 8 && "Relative"@[0] == 'R');
    assert("Level"@.len() == 5 && "Level"@[0] == 'L');
    assert("Source"@.len() == 6 && "Source"@[1] == 'o');
    assert("Tag"@.len() == 3);
    assert("Subsystem"@.len() == 9 && "Subsystem"@[0] == 'S');
    assert("Event"@.len() == 5 && "Event"@[0] == 'E');
    assert("Provider"@.len() == 8 && "Provider"@[0] == 'P');
    assert("Correlation"@.len() == 11);
    assert("Duration"@.len() == 8 && "Duration"@[0] == 'D');
    assert("Status"@.len() == 6 && "Status"@[1] == 't');
    assert("Message"@.len() == 7);
}

}
