//! Saved filters, and how filters are named and changed by hand.
use std::ops::Range;

use vstd::prelude::*;

use crate::facet::{facet_is_active, same_filter, same_selection, FacetSelection, FilterState};
use crate::json::option_view;
use crate::level::level_text;
use crate::ordered::TextMap;
use crate::text::{
    byte_count, byte_length, chars_of, contains, is_blank, is_space, join, joined,
    lemma_byte_length_push, lemma_split_undoes_join, lowered, occurs_in, owned, same, split, split_at_char, text_between, to_lower, trim, trim_end,
    trim_end_spec, trim_start, trim_start_spec, trimmed, upper, views, width_of,
};

verus! {

/// A saved filter.
#[derive(Debug, Clone, PartialEq, Eq)]
pub struct FilterBookmark {
    pub name: String,
    pub filter: FilterState,
}

/// A word with its first letter in upper case.
pub open spec fn titled(word: Seq<char>) -> Seq<char> {
    if word.len() == 0 {
        word
    } else {
        seq![upper(word[0])] + word.drop_first()
    }
}

/// The title of a facet: its words with their first letters in upper case.
pub open spec fn title_of(facet: Seq<char>) -> Seq<char> {
    joined(split_at_char(facet, '_').map_values(|word: Seq<char>| titled(word)), " "@)
}

/// The title of a facet.
pub fn facet_title(facet: &str) -> (title: String)
    ensures
        title@ == title_of(facet@),
{
    let words = split(facet, '_');
    let ghost wanted = split_at_char(facet@, '_').map_values(|word: Seq<char>| titled(word));
    let mut titles: Vec<String> = Vec::new();
    let mut index: usize = 0;
    while index < words.len()
        invariant
            index <= words.len(),
            wanted == views(words@).map_values(|word: Seq<char>| titled(word)),
            views(titles@) == wanted.take(index as int),
        decreases words.len() - index,
    {
        let characters = chars_of(words[index].as_str());
        let ghost before = views(titles@);
        let ghost word = words@[index as int]@;
        let mut title = String::new();
        if characters.len() > 0 {
            let first = characters[0];
            if 'a' <= first && first <= 'z' {
                title.push(((first as u8) - 32) as char);
            } else {
                title.push(first);
            }
            let rest = text_between(characters.as_slice(), 1, characters.len());
            title.append(rest.as_str());
            assert(word.subrange(1, word.len() as int) == word.drop_first());
        }
        assert(title@ == titled(word));
        assert(views(words@)[index as int] == word);
        assert(wanted[index as int] == titled(word));
        titles.push(title);
        assert(views(titles@) == before.push(wanted[index as int]));
        index += 1;
    }
    assert(wanted.take(index as int) == wanted);
    join(&titles, " ")
}

/// A text that is cut where it is too long, with a mark at its end.
pub open spec fn shortened(text: Seq<char>, limit: int) -> Seq<char> {
    if text.len() <= limit {
        text
    } else {
        text.take(if limit > 0 {
            limit - 1
        } else {
            0
        }) + "…"@
    }
}

/// A text that is cut where it is too long.
pub fn compact_identifier(value: &str, max_characters: usize) -> (text: String)
    ensures
        text@ == shortened(value@, max_characters as int),
{
    let characters = chars_of(value);
    if characters.len() <= max_characters {
        return owned(value);
    }
    let visible: usize = if max_characters > 0 {
        max_characters - 1
    } else {
        0
    };
    let mut text = text_between(characters.as_slice(), 0, visible);
    assert(value@.subrange(0, visible as int) == value@.take(visible as int));
    text.append("…");
    text
}

/// What the name of a filter tells of the selection of a facet.
pub open spec fn selection_parts(
    facet: Seq<char>,
    included: Seq<Seq<char>>,
    excluded: Seq<Seq<char>>,
) -> Seq<Seq<char>> {
    (if included.len() > 0 {
        seq![title_of(facet) + ": "@ + joined(included, " + "@)]
    } else {
        Seq::empty()
    }) + (if excluded.len() > 0 {
        seq!["Hide "@ + title_of(facet) + ": "@ + joined(excluded, " + "@)]
    } else {
        Seq::empty()
    })
}

/// What the name of a filter tells of the selections of facets.
pub open spec fn facet_parts(
    facets: Map<Seq<char>, FacetSelection>,
    order: Seq<Seq<char>>,
) -> Seq<Seq<char>>
    decreases order.len(),
{
    if order.len() == 0 {
        Seq::empty()
    } else {
        let facet = order.last();
        facet_parts(facets, order.drop_last()) + selection_parts(
            facet,
            facets[facet].included.ordered(),
            facets[facet].excluded.ordered(),
        )
    }
}

/// What the name of a filter tells.
pub open spec fn filter_parts(filter: FilterState) -> Seq<Seq<char>> {
    let text = trimmed(filter.text@);
    (if text.len() > 0 {
        seq!["Search: "@ + text]
    } else {
        Seq::empty()
    }) + facet_parts(filter.facets@, filter.facets.ordered()) + (match filter.minimum_level {
        Some(level) => seq!["Level ≥ "@ + level_text(level)],
        None => Seq::empty(),
    }) + (match filter.correlation {
        Some(correlation) => seq!["Correlation: "@ + correlation@],
        None => Seq::empty(),
    })
}

/// The largest length of a name.
pub const LONGEST_NAME: usize = 72;

/// Adds a text to a list.
fn add_part(parts: &mut Vec<String>, part: String)
    ensures
        views(final(parts)@) == views(old(parts)@).push(part@),
{
    let ghost before = views(parts@);
    parts.push(part);
    assert(views(parts@) == before.push(part@));
}

/// Adds what is told of the selection of a facet.
fn add_selection(parts: &mut Vec<String>, facet: &str, selection: &FacetSelection)
    ensures
        views(final(parts)@) == views(old(parts)@) + selection_parts(
            facet@,
            selection.included.ordered(),
            selection.excluded.ordered(),
        ),
{
    let ghost before = views(parts@);
    let included = selection.included.items();
    let excluded = selection.excluded.items();
    if included.len() > 0 {
        let mut part = facet_title(facet);
        part.append(": ");
        let values = join(included, " + ");
        part.append(values.as_str());
        add_part(parts, part);
    }
    let ghost middle = views(parts@);
    if excluded.len() > 0 {
        let mut part = owned("Hide ");
        let title = facet_title(facet);
        part.append(title.as_str());
        part.append(": ");
        let values = join(excluded, " + ");
        part.append(values.as_str());
        add_part(parts, part);
    }
    assert(views(parts@) == before + selection_parts(
        facet@,
        selection.included.ordered(),
        selection.excluded.ordered(),
    ));
}

/// The name of a filter.
pub open spec fn name_of(filter: FilterState) -> Seq<char> {
    shortened(joined(filter_parts(filter), " · "@), LONGEST_NAME as int)
}

/// The name of a filter.
pub fn bookmark_name(filter: &FilterState) -> (name: String)
    ensures
        name@ == name_of(*filter),
{
    let mut parts: Vec<String> = Vec::new();
    let text = trim(filter.text.as_str());
    if !text.as_str().is_empty() {
        let mut part = owned("Search: ");
        part.append(text.as_str());
        add_part(&mut parts, part);
    }
    let ghost first = views(parts@);
    let ghost order = filter.facets.ordered();
    let keys = filter.facets.keys();
    let count: usize = filter.facets.len();
    let mut index: usize = 0;
    assert(order.take(0) == Seq::<Seq<char>>::empty());
    while index < count
        invariant
            index <= count,
            count == order.len(),
            order == filter.facets.ordered(),
            views(parts@) == first + facet_parts(filter.facets@, order.take(index as int)),
        decreases count - index,
    {
        assert(order.take(index + 1).drop_last() == order.take(index as int));
        let ghost before = facet_parts(filter.facets@, order.take(index as int));
        let facet = filter.facets.key_at(index);
        let selection = filter.facets.value_at(index);
        add_selection(&mut parts, facet.as_str(), selection);
        let ghost added = selection_parts(
            facet@,
            selection.included.ordered(),
            selection.excluded.ordered(),
        );
        assert((first + before) + added == first + (before + added));
        index += 1;
    }
    assert(order.take(index as int) == order);
    let ghost second = views(parts@);
    if let Some(level) = filter.minimum_level {
        let mut part = owned("Level ≥ ");
        part.append(level.name());
        add_part(&mut parts, part);
    }
    if let Some(correlation) = &filter.correlation {
        let mut part = owned("Correlation: ");
        part.append(correlation.as_str());
        add_part(&mut parts, part);
    }
    assert(views(parts@) == filter_parts(*filter));
    let name = join(&parts, " · ");
    compact_identifier(name.as_str(), LONGEST_NAME)
}

/// Whether bytes of a text end where a character ends.
pub open spec fn ends_character(text: Seq<char>, bytes: int) -> bool {
    exists|count: int|
        0 <= count <= text.len() && #[trigger] byte_length(text.take(count)) == bytes
}

/// How many characters take up bytes of a text.
pub open spec fn characters_in(text: Seq<char>, bytes: int) -> int {
    choose|count: int|
        0 <= count <= text.len() && #[trigger] byte_length(text.take(count)) == bytes
}

/// More characters take up more bytes.
proof fn lemma_more_bytes(text: Seq<char>, first: int, second: int)
    requires
        0 <= first < second <= text.len(),
    ensures
        byte_length(text.take(first)) < byte_length(text.take(second)),
    decreases second - first,
{
    assert(text.take(second) == text.take(second - 1).push(text[second - 1]));
    lemma_byte_length_push(text.take(second - 1), text[second - 1]);
    if first < second - 1 {
        lemma_more_bytes(text, first, second - 1);
    }
}

/// How many characters take up bytes of a text.
fn count_characters(characters: &Vec<char>, bytes: usize) -> (count: usize)
    requires
        ends_character(characters@, bytes as int),
    ensures
        count <= characters@.len(),
        count == characters_in(characters@, bytes as int),
        byte_length(characters@.take(count as int)) == bytes,
{
    let ghost wanted = characters_in(characters@, bytes as int);
    let mut count: usize = 0;
    let mut taken: usize = 0;
    assert(characters@.take(0) == Seq::<char>::empty());
    assert(byte_length(Seq::<char>::empty()) == 0);
    while taken < bytes
        invariant
            count <= wanted <= characters@.len(),
            taken == byte_length(characters@.take(count as int)),
            byte_length(characters@.take(wanted)) == bytes,
            taken <= bytes,
        decreases bytes - taken,
    {
        proof {
            if count == wanted {
                assert(taken == bytes);
            }
            assert(characters@.take(count + 1) == characters@.take(count as int).push(
                characters@[count as int],
            ));
            lemma_byte_length_push(characters@.take(count as int), characters@[count as int]);
            if count + 1 < wanted {
                lemma_more_bytes(characters@, count + 1, wanted);
            }
            if count < wanted {
                lemma_more_bytes(characters@, count as int, count + 1);
            }
        }
        assert(characters@.len() == characters.len());
        taken = taken + width_of(characters[count]);
        count += 1;
    }
    proof {
        if count < wanted {
            lemma_more_bytes(characters@, count as int, wanted);
        }
    }
    count
}

/// A query without a part of it: what stands before the part and behind it, with
/// one space between them.
pub open spec fn without_part(query: Seq<char>, start: int, end: int) -> Seq<char> {
    let before = trim_end_spec(query.take(start));
    let after = trim_start_spec(query.skip(end));
    if before.len() == 0 {
        after
    } else if after.len() == 0 {
        before
    } else {
        before + " "@ + after
    }
}

/// Takes a part out of a query, given by its bytes. Bytes that the query does not
/// have leave it as it is.
pub fn remove_query_expression(query: &str, range: Range<usize>) -> (result: String)
    requires
        range.start <= range.end <= byte_length(query@) ==> ends_character(
            query@,
            range.start as int,
        ) && ends_character(query@, range.end as int),
    ensures
        result@ == if range.start <= range.end <= byte_length(query@) {
            without_part(
                query@,
                characters_in(query@, range.start as int),
                characters_in(query@, range.end as int),
            )
        } else {
            query@
        },
{
    if range.start > range.end || range.end > byte_count(query) {
        return owned(query);
    }
    let characters = chars_of(query);
    let start: usize = count_characters(&characters, range.start);
    let end: usize = count_characters(&characters, range.end);
    let head = text_between(characters.as_slice(), 0, start);
    let rest = text_between(characters.as_slice(), end, characters.len());
    assert(head@ == query@.take(start as int));
    assert(rest@ == query@.skip(end as int));
    let before = trim_end(head.as_str());
    let after = trim_start(rest.as_str());
    if before.as_str().is_empty() {
        return after;
    }
    if after.as_str().is_empty() {
        return before;
    }
    let mut result = before;
    result.append(" ");
    result.append(after.as_str());
    result
}

/// A query without all of it is empty, and one without an empty part at one of its
/// ends loses white space alone.
pub proof fn lemma_removing_parts(query: Seq<char>)
    ensures
        without_part(query, 0, query.len() as int) == Seq::<char>::empty(),
        without_part(query, 0, 0) == trim_start_spec(query),
        without_part(query, query.len() as int, query.len() as int) == trim_end_spec(query),
{
    assert(query.take(0) == Seq::<char>::empty());
    assert(query.skip(query.len() as int) == Seq::<char>::empty());
    assert(query.skip(0) == query);
    assert(query.take(query.len() as int) == query);
}

/// The values that are asked for and those that are ruled out after a click on a
/// value: with the key for adding, the value is asked for too or no longer; without
/// it, the value alone is asked for, or where it was already, nothing.
pub open spec fn clicked(
    before: (Set<Seq<char>>, Set<Seq<char>>),
    value: Seq<char>,
    additive: bool,
) -> (Set<Seq<char>>, Set<Seq<char>>) {
    let (included, excluded) = before;
    let alone = Set::<Seq<char>>::empty().insert(value);
    if additive {
        (
            if included.contains(value) {
                included.remove(value)
            } else {
                included.insert(value)
            },
            excluded.remove(value),
        )
    } else if included == alone {
        (Set::empty(), excluded)
    } else {
        (alone, excluded.remove(value))
    }
}

/// A value that alone is asked for is asked for no longer once it is clicked again,
/// so that two clicks leave nothing asked for.
pub proof fn lemma_clicking_again_is_neutral(
    before: (Set<Seq<char>>, Set<Seq<char>>),
    value: Seq<char>,
)
    ensures
        before.0 == Set::<Seq<char>>::empty().insert(value) ==> clicked(before, value, false) == (
            Set::<Seq<char>>::empty(),
            before.1,
        ),
        before.0 != Set::<Seq<char>>::empty().insert(value) ==> clicked(
            clicked(before, value, false),
            value,
            false,
        ) == (Set::<Seq<char>>::empty(), before.1.remove(value)),
{
}

/// Changes the selection of a facet as a click on a value does.
pub fn apply_primary_facet_click(selection: &mut FacetSelection, value: &str, additive: bool)
    ensures
        (final(selection).included@, final(selection).excluded@) == clicked(
            (old(selection).included@, old(selection).excluded@),
            value@,
            additive,
        ),
{
    let ghost before = selection.included@;
    let ghost alone = Set::<Seq<char>>::empty().insert(value@);
    if additive {
        selection.toggle_include(owned(value));
        return;
    }
    let only = selection.included.len() == 1 && selection.included.contains(value);
    proof {
        if only {
            Set::lemma_is_singleton(before);
            assert(before =~= alone);
        }
        if before == alone {
            assert(alone.len() == 1);
        }
    }
    if only {
        selection.included.clear();
    } else {
        selection.excluded.remove(value);
        selection.include_only(owned(value));
    }
}

/// Whether a value of a facet is shown while values are searched for.
pub fn facet_value_matches_search(value: &str, normalized_search: &str) -> (result: bool)
    ensures
        result == matches_search(value@, normalized_search@),
{
    if normalized_search.is_empty() {
        return true;
    }
    let value = to_lower(value);
    contains(value.as_str(), normalized_search)
}

/// Whether the section of a facet is to be opened or closed: opened where a search
/// found values, or else as all sections are.
pub fn facet_section_open_request(
    has_search_result: bool,
    expand_collapse_all: Option<bool>,
) -> (request: Option<bool>)
    ensures
        request == if has_search_result {
            Some(true)
        } else {
            expand_collapse_all
        },
{
    if has_search_result {
        Some(true)
    } else {
        expand_collapse_all
    }
}

/// Whether the section of a facet is open before anyone opens or closes it.
pub fn facet_section_starts_open(facet: &str) -> (result: bool)
    ensures
        result == (facet@ == "level"@ || facet@ == "source"@ || facet@ == "subsystem"@),
{
    same(facet, "level") || same(facet, "source") || same(facet, "subsystem")
}

/// How many values of a facet are shown at most.
pub const SHOWN_VALUES: usize = 100;

/// Whether a value of a facet is shown while values are searched for.
pub open spec fn matches_search(value: Seq<char>, normalized_search: Seq<char>) -> bool {
    normalized_search.len() == 0 || occurs_in(lowered(value), normalized_search)
}

/// The values that are shown while values are searched for, each with its count.
pub open spec fn matching_values(
    counts: Seq<(Seq<char>, u64)>,
    normalized_search: Seq<char>,
) -> Seq<(Seq<char>, u64)> {
    counts.filter(|counted: (Seq<char>, u64)| matches_search(counted.0, normalized_search))
}

/// The first elements of a list, as many as there may be at most.
pub open spec fn at_most<T>(list: Seq<T>, limit: int) -> Seq<T> {
    if list.len() <= limit {
        list
    } else {
        list.take(limit)
    }
}

/// Values and their counts.
pub open spec fn counted_views(counts: Seq<(String, u64)>) -> Seq<(Seq<char>, u64)> {
    counts.map_values(|counted: (String, u64)| (counted.0@, counted.1))
}

/// The values of a facet that are shown: the first of those that are searched for.
pub fn shown_facet_values(counts: &Vec<(String, u64)>, normalized_search: &str) -> (shown: Vec<
    (String, u64),
>)
    ensures
        counted_views(shown@) == at_most(
            matching_values(counted_views(counts@), normalized_search@),
            SHOWN_VALUES as int,
        ),
{
    let ghost all = counted_views(counts@);
    let ghost wanted = |counted: (Seq<char>, u64)| matches_search(counted.0, normalized_search@);
    let mut shown: Vec<(String, u64)> = Vec::new();
    let mut index: usize = 0;
    assert(counted_views(shown@) == all.take(0).filter(wanted)) by {
        reveal(Seq::filter);
    }
    while index < counts.len() && shown.len() < SHOWN_VALUES
        invariant
            index <= counts.len(),
            all == counted_views(counts@),
            wanted == (|counted: (Seq<char>, u64)| matches_search(counted.0, normalized_search@)),
            shown.len() <= SHOWN_VALUES,
            counted_views(shown@) == all.take(index as int).filter(wanted),
        decreases counts.len() - index,
    {
        let ghost before = counted_views(shown@);
        assert(all[index as int] == (counts@[index as int].0@, counts@[index as int].1));
        assert(all.take(index + 1).drop_last() == all.take(index as int));
        assert(all.take(index + 1).filter(wanted) == if wanted(all[index as int]) {
            before.push(all[index as int])
        } else {
            before
        }) by {
            reveal(Seq::filter);
        }
        let (value, count) = &counts[index];
        if facet_value_matches_search(value.as_str(), normalized_search) {
            let copy: (String, u64) = (value.clone(), *count);
            shown.push(copy);
            assert(counted_views(shown@) == before.push(all[index as int]));
        }
        index += 1;
    }
    proof {
        if index == counts.len() {
            assert(all.take(index as int) == all);
        } else {
            let rest = all.skip(index as int);
            assert(all == all.take(index as int) + rest);
            Seq::filter_distributes_over_add(all.take(index as int), rest, wanted);
            let found = all.filter(wanted);
            assert(found == counted_views(shown@) + rest.filter(wanted));
            assert(counted_views(shown@).len() == SHOWN_VALUES);
            assert(at_most(found, SHOWN_VALUES as int) == counted_views(shown@));
        }
    }
    shown
}

/// The selection of a facet, or the one that selects nothing.
pub open spec fn selection_of(filter: FilterState, facet: Seq<char>) -> (
    Set<Seq<char>>,
    Set<Seq<char>>,
) {
    if filter.facets@.contains_key(facet) {
        (filter.facets@[facet].included@, filter.facets@[facet].excluded@)
    } else {
        (Set::empty(), Set::empty())
    }
}

/// Whether a filter differs from another one in a facet alone, of which it has a
/// selection.
pub open spec fn changes_facet(before: FilterState, facet: Seq<char>, after: FilterState) -> bool {
    &&& after.facets@.contains_key(facet)
    &&& after.facets@ == before.facets@.insert(facet, after.facets@[facet])
    &&& after.text == before.text
    &&& after.minimum_level == before.minimum_level
    &&& after.correlation == before.correlation
}

impl FilterState {
    /// Takes the selection of a facet out.
    fn take_selection(&mut self, facet: &str) -> (selection: FacetSelection)
        ensures
            (selection.included@, selection.excluded@) == selection_of(*old(self), facet@),
            final(self).facets@ == old(self).facets@.remove(facet@),
            final(self).text == old(self).text,
            final(self).minimum_level == old(self).minimum_level,
            final(self).correlation == old(self).correlation,
    {
        match self.facets.remove(facet) {
            Some(selection) => selection,
            None => FacetSelection::default(),
        }
    }

    /// Changes the selection of a facet as a click on one of its values does.
    pub fn click_facet_value(&mut self, facet: &str, value: &str, additive: bool)
        ensures
            changes_facet(*old(self), facet@, *final(self)),
            selection_of(*final(self), facet@) == clicked(
                selection_of(*old(self), facet@),
                value@,
                additive,
            ),
    {
        let mut selection = self.take_selection(facet);
        apply_primary_facet_click(&mut selection, value, additive);
        self.facets.insert(owned(facet), selection);
        assert(self.facets@ =~= old(self).facets@.insert(facet@, self.facets@[facet@]));
    }

    /// Rules a value of a facet out, or no longer if it was.
    pub fn hide_facet_value(&mut self, facet: &str, value: &str)
        ensures
            changes_facet(*old(self), facet@, *final(self)),
            ({
                let (included, excluded) = selection_of(*old(self), facet@);
                selection_of(*final(self), facet@) == (
                    included.remove(value@),
                    if excluded.contains(value@) {
                        excluded.remove(value@)
                    } else {
                        excluded.insert(value@)
                    },
                )
            }),
    {
        let mut selection = self.take_selection(facet);
        selection.toggle_exclude(owned(value));
        self.facets.insert(owned(facet), selection);
        assert(self.facets@ =~= old(self).facets@.insert(facet@, self.facets@[facet@]));
    }
}

/// How many of some facets are selected on.
pub open spec fn active_among(filter: FilterState, facets: Seq<Seq<char>>) -> nat
    decreases facets.len(),
{
    if facets.len() == 0 {
        0
    } else {
        active_among(filter, facets.drop_last()) + if facet_is_active(filter, facets.last()) {
            1nat
        } else {
            0nat
        }
    }
}

/// One where something holds.
pub open spec fn one_if(holds: bool) -> int {
    if holds {
        1
    } else {
        0
    }
}

/// How many parts of a filter are active.
pub fn active_filter_count(filter: &FilterState) -> (count: usize)
    requires
        filter.facets@.dom().len() <= usize::MAX - 3,
    ensures
        count == one_if(trimmed(filter.text@).len() > 0) + one_if(filter.minimum_level is Some)
            + one_if(filter.correlation is Some) + active_among(*filter, filter.facets.ordered()),
{
    let ghost order = filter.facets.ordered();
    let keys = filter.facets.keys();
    let total: usize = filter.facets.len();
    let mut count: usize = 0;
    let mut index: usize = 0;
    assert(order.take(0) == Seq::<Seq<char>>::empty());
    while index < total
        invariant
            index <= total,
            total == order.len(),
            order == filter.facets.ordered(),
            count <= index,
            count == active_among(*filter, order.take(index as int)),
        decreases total - index,
    {
        assert(order.take(index + 1).drop_last() == order.take(index as int));
        let selection = filter.facets.value_at(index);
        if !selection.is_empty() {
            count = count + 1;
        }
        index += 1;
    }
    assert(order.take(index as int) == order);
    if !is_blank(filter.text.as_str()) {
        count = count + 1;
    }
    if filter.minimum_level.is_some() {
        count = count + 1;
    }
    if filter.correlation.is_some() {
        count = count + 1;
    }
    count
}

/// Whether a filter is saved.
pub fn is_saved(bookmarks: &Vec<FilterBookmark>, filter: &FilterState) -> (result: bool)
    ensures
        result == (exists|i: int|
            0 <= i < bookmarks@.len() && same_filter(
                (#[trigger] bookmarks@[i]).filter,
                *filter,
            )),
{
    let mut index: usize = 0;
    while index < bookmarks.len()
        invariant
            index <= bookmarks.len(),
            forall|i: int|
                0 <= i < index ==> !same_filter(
                    (#[trigger] bookmarks@[i]).filter,
                    *filter,
                ),
        decreases bookmarks.len() - index,
    {
        if bookmarks[index].filter.is_same(filter) {
            return true;
        }
        index += 1;
    }
    false
}

/// Whether a bookmark has a name and saves a filter.
pub open spec fn saves(bookmark: FilterBookmark, name: Seq<char>, filter: FilterState) -> bool {
    bookmark.name@ == name && same_filter(filter, bookmark.filter)
}

/// Saves a filter under the name that it has by itself.
pub fn save_filter(bookmarks: &mut Vec<FilterBookmark>, filter: &FilterState)
    ensures
        final(bookmarks)@.len() == old(bookmarks)@.len() + 1,
        final(bookmarks)@.drop_last() == old(bookmarks)@,
        saves(final(bookmarks)@.last(), name_of(*filter), *filter),
{
    bookmarks.push(FilterBookmark { name: bookmark_name(filter), filter: filter.clone() });
    assert(bookmarks@.drop_last() == old(bookmarks)@);
}

/// Saves a filter in place of that of a bookmark. The others stay as they are.
pub fn overwrite_bookmark(bookmarks: &mut Vec<FilterBookmark>, index: usize, filter: &FilterState)
    ensures
        if index < old(bookmarks)@.len() {
            &&& final(bookmarks)@ == old(bookmarks)@.update(
                index as int,
                final(bookmarks)@[index as int],
            )
            &&& saves(
                final(bookmarks)@[index as int],
                old(bookmarks)@[index as int].name@,
                *filter,
            )
        } else {
            *final(bookmarks) == *old(bookmarks)
        },
{
    if index < bookmarks.len() {
        let name = bookmarks[index].name.clone();
        bookmarks.set(index, FilterBookmark { name, filter: filter.clone() });
    }
}

/// Gives a bookmark another name, without the white space around it. The others
/// stay as they are.
pub fn rename_bookmark(bookmarks: &mut Vec<FilterBookmark>, index: usize, name: &str)
    ensures
        if index < old(bookmarks)@.len() {
            &&& final(bookmarks)@ == old(bookmarks)@.update(
                index as int,
                final(bookmarks)@[index as int],
            )
            &&& saves(
                final(bookmarks)@[index as int],
                trimmed(name@),
                old(bookmarks)@[index as int].filter,
            )
        } else {
            *final(bookmarks) == *old(bookmarks)
        },
{
    if index < bookmarks.len() {
        let filter = bookmarks[index].filter.clone();
        bookmarks.set(index, FilterBookmark { name: trim(name), filter });
    }
}

/// A filter that was saved last is among those that are saved.
pub proof fn lemma_saved_filter_is_found(bookmarks: Seq<FilterBookmark>, filter: FilterState)
    requires
        bookmarks.len() > 0,
        saves(bookmarks.last(), name_of(filter), filter),
    ensures
        exists|i: int|
            0 <= i < bookmarks.len() && same_filter((#[trigger] bookmarks[i]).filter, filter),
{
    let saved = bookmarks[bookmarks.len() - 1].filter;
    assert forall|facet: Seq<char>| #[trigger]
        saved.facets@.contains_key(facet) implies same_selection(
        saved.facets@[facet],
        filter.facets@[facet],
    ) by {
        assert(filter.facets@.contains_key(facet));
    }
    assert(same_filter(saved, filter));
}

/// The items that are kept once those of a set of sources are put away.
pub open spec fn put_away<T>(
    scope: Option<Seq<char>>,
    items: Vec<T>,
    kept: Map<Seq<char>, Vec<T>>,
) -> Map<Seq<char>, Vec<T>> {
    match scope {
        Some(name) => kept.insert(name, items),
        None => kept,
    }
}

/// Whether the items of a set of sources are taken out of those that are kept.
pub open spec fn taken_out<T>(
    before: Map<Seq<char>, Vec<T>>,
    scope: Option<Seq<char>>,
    items: Vec<T>,
    after: Map<Seq<char>, Vec<T>>,
) -> bool {
    if scope is Some && before.contains_key(scope->0) {
        &&& items == before[scope->0]
        &&& after[scope->0]@.len() == 0
        &&& after == before.insert(scope->0, after[scope->0])
    } else {
        items@.len() == 0 && after == before
    }
}

/// Puts the items of one set of sources away and takes those of another out. The
/// items of a set stay with it.
pub fn switch_scope<T>(
    scope: &mut Option<String>,
    items: &mut Vec<T>,
    kept: &mut TextMap<Vec<T>>,
    next: Option<String>,
) -> (switched: bool)
    ensures
        switched == (option_view(*old(scope)) != option_view(next)),
        !switched ==> *final(scope) == *old(scope) && *final(items) == *old(items)
            && *final(kept) == *old(kept),
        switched ==> option_view(*final(scope)) == option_view(next) && taken_out(
            put_away(option_view(*old(scope)), *old(items), old(kept)@),
            option_view(next),
            *final(items),
            final(kept)@,
        ),
{
    let stays = match (&*scope, &next) {
        (Some(current), Some(wanted)) => same(current.as_str(), wanted.as_str()),
        (None, None) => true,
        _ => false,
    };
    if stays {
        return false;
    }
    let mut current: Option<String> = None;
    std::mem::swap(&mut current, scope);
    if let Some(name) = current {
        let mut held: Vec<T> = Vec::new();
        std::mem::swap(&mut held, items);
        kept.insert(name, held);
    } else {
        *items = Vec::new();
    }
    let ghost stored = kept@;
    assert(stored == put_away(option_view(*old(scope)), *old(items), old(kept)@));
    if let Some(name) = &next {
        if let Some(index) = kept.position(name.as_str()) {
            kept.swap_value(index, items);
        }
    }
    *scope = next;
    true
}

/// The items to begin with under a scope: those that are kept under it, or else
/// others. They are taken out; when the scope changes they are put away.
pub fn opening_items<T>(scope: &Option<String>, kept: &mut TextMap<Vec<T>>, others: Vec<T>) -> (
items: Vec<T>)
    ensures
        match scope {
            Some(name) => {
                &&& items == if old(kept)@.contains_key(name@) {
                    old(kept)@[name@]
                } else {
                    others
                }
                &&& final(kept)@ == old(kept)@.remove(name@)
            },
            None => items@.len() == 0 && *final(kept) == *old(kept),
        },
{
    match scope {
        Some(name) => match kept.remove(name.as_str()) {
            Some(items) => items,
            None => others,
        },
        None => Vec::new(),
    }
}

/// A text that fits stays as it is. One that is too long keeps its start, as much as fits
/// beside the mark at its end.
pub proof fn lemma_long_texts_are_cut(text: Seq<char>, limit: int)
    requires
        limit >= 1,
    ensures
        text.len() <= limit ==> shortened(text, limit) == text,
        text.len() > limit ==> shortened(text, limit).len() == limit && shortened(text, limit).take(
            limit - 1,
        ) == text.take(limit - 1) && shortened(text, limit)[limit - 1] == '…',
{
    reveal_strlit("…");
    if text.len() > limit {
        assert(shortened(text, limit).take(limit - 1) =~= text.take(limit - 1));
    }
}

/// The title of a facet has the words of its name, each with its first letter in upper case
/// and a space between them.
pub proof fn lemma_title_has_the_words(words: Seq<Seq<char>>)
    requires
        words.len() > 0,
        forall|i: int|
            0 <= i < words.len() ==> (#[trigger] words[i]).len() > 0 && !words[i].contains('_'),
    ensures
        title_of(joined(words, "_"@)) == joined(
            words.map_values(|word: Seq<char>| seq![upper(word[0])] + word.drop_first()),
            " "@,
        ),
{
    reveal_strlit("_");
    assert("_"@ == seq!['_']);
    lemma_split_undoes_join(words, '_');
    let title = |word: Seq<char>| seq![upper(word[0])] + word.drop_first();
    let known = |word: Seq<char>| titled(word);
    assert forall|i: int| 0 <= i < words.len() implies words.map_values(title)[i]
        == words.map_values(known)[i] by {
        assert(words[i].len() > 0);
    }
    assert(words.map_values(title) =~= words.map_values(known));
}

proof fn lemma_facet_is_told(
    facets: Map<Seq<char>, FacetSelection>,
    order: Seq<Seq<char>>,
    place: int,
    part: Seq<char>,
)
    requires
        0 <= place < order.len(),
        selection_parts(
            order[place],
            facets[order[place]].included.ordered(),
            facets[order[place]].excluded.ordered(),
        ).contains(part),
    ensures
        facet_parts(facets, order).contains(part),
    decreases order.len(),
{
    let before = facet_parts(facets, order.drop_last());
    let facet = order.last();
    let last = selection_parts(
        facet,
        facets[facet].included.ordered(),
        facets[facet].excluded.ordered(),
    );
    if place == order.len() - 1 {
        let i = choose|i: int| 0 <= i < last.len() && last[i] == part;
        assert((before + last)[before.len() + i] == part);
    } else {
        assert(order.drop_last()[place] == order[place]);
        lemma_facet_is_told(facets, order.drop_last(), place, part);
        let i = choose|i: int| 0 <= i < before.len() && before[i] == part;
        assert((before + last)[i] == part);
    }
}

/// The name of a filter tells what it asks for: the words, the values of each facet that are
/// asked for or hidden, the least level and the correlation. It has no more than 72
/// characters.
pub proof fn lemma_name_tells_the_filter(filter: FilterState, place: int)
    requires
        0 <= place < filter.facets.ordered().len(),
    ensures
        ({
            let parts = filter_parts(filter);
            let facet = filter.facets.ordered()[place];
            let selection = filter.facets@[facet];
            &&& trimmed(filter.text@).len() > 0 ==> parts.contains(
                "Search: "@ + trimmed(filter.text@),
            )
            &&& filter.minimum_level is Some ==> parts.contains(
                "Level ≥ "@ + level_text(filter.minimum_level->0),
            )
            &&& filter.correlation is Some ==> parts.contains(
                "Correlation: "@ + filter.correlation->0@,
            )
            &&& selection.included.ordered().len() > 0 ==> parts.contains(
                title_of(facet) + ": "@ + joined(selection.included.ordered(), " + "@),
            )
            &&& selection.excluded.ordered().len() > 0 ==> parts.contains(
                "Hide "@ + title_of(facet) + ": "@ + joined(selection.excluded.ordered(), " + "@),
            )
            &&& name_of(filter).len() <= 72
            &&& joined(parts, " · "@).len() <= 72 ==> name_of(filter) == joined(parts, " · "@)
        }),
{
    let text = trimmed(filter.text@);
    let words = if text.len() > 0 {
        seq!["Search: "@ + text]
    } else {
        Seq::empty()
    };
    let facets = facet_parts(filter.facets@, filter.facets.ordered());
    let level = match filter.minimum_level {
        Some(level) => seq!["Level ≥ "@ + level_text(level)],
        None => Seq::empty(),
    };
    let correlation = match filter.correlation {
        Some(correlation) => seq!["Correlation: "@ + correlation@],
        None => Seq::empty(),
    };
    let parts = filter_parts(filter);
    assert(parts == words + facets + level + correlation);
    if text.len() > 0 {
        assert(parts[0] == "Search: "@ + text);
    }
    if filter.minimum_level is Some {
        assert(parts[(words.len() + facets.len()) as int] == "Level ≥ "@ + level_text(
            filter.minimum_level->0,
        ));
    }
    if filter.correlation is Some {
        assert(parts[parts.len() - 1] == "Correlation: "@ + filter.correlation->0@);
    }
    let facet = filter.facets.ordered()[place];
    let selection = filter.facets@[facet];
    let told = selection_parts(facet, selection.included.ordered(), selection.excluded.ordered());
    if selection.included.ordered().len() > 0 {
        let part = title_of(facet) + ": "@ + joined(selection.included.ordered(), " + "@);
        assert(told[0] == part);
        lemma_facet_is_told(filter.facets@, filter.facets.ordered(), place, part);
        lemma_middle_part(words, facets, level + correlation, part);
        assert(parts == words + facets + (level + correlation));
    }
    if selection.excluded.ordered().len() > 0 {
        let part = "Hide "@ + title_of(facet) + ": "@ + joined(
            selection.excluded.ordered(),
            " + "@,
        );
        assert(told[told.len() - 1] == part);
        lemma_facet_is_told(filter.facets@, filter.facets.ordered(), place, part);
        lemma_middle_part(words, facets, level + correlation, part);
        assert(parts == words + facets + (level + correlation));
    }
    lemma_long_texts_are_cut(joined(parts, " · "@), 72);
}

proof fn lemma_middle_part(
    first: Seq<Seq<char>>,
    middle: Seq<Seq<char>>,
    last: Seq<Seq<char>>,
    part: Seq<char>,
)
    requires
        middle.contains(part),
    ensures
        (first + middle + last).contains(part),
{
    let i = choose|i: int| 0 <= i < middle.len() && middle[i] == part;
    assert((first + middle + last)[first.len() + i] == part);
}

/// Taking a part out of a query leaves what stands before and behind it, with one space
/// between.
pub proof fn lemma_removing_leaves_the_rest(
    before: Seq<char>,
    part: Seq<char>,
    after: Seq<char>,
)
    requires
        before.len() > 0 ==> !is_space(before.last()),
        after.len() > 0 ==> !is_space(after[0]),
    ensures
        before.len() > 0 && after.len() > 0 ==> without_part(
            before + " "@ + part + " "@ + after,
            before.len() as int + 1,
            (before.len() + 1 + part.len()) as int,
        ) == before + " "@ + after,
        without_part(part + " "@ + after, 0, part.len() as int) == after,
        without_part(
            before + " "@ + part,
            before.len() as int + 1,
            (before.len() + 1 + part.len()) as int,
        ) == before,
{
    reveal_strlit(" ");
    let space = " "@;
    assert(space == seq![' ']);
    let nothing = Seq::<char>::empty();
    assert(trim_end_spec(before) == before);
    assert(trim_start_spec(after) == after);
    assert((before + space).drop_last() == before);
    assert((before + space).last() == ' ');
    assert(trim_end_spec(before + space) == before);
    assert((space + after).drop_first() == after);
    assert((space + after)[0] == ' ');
    assert(trim_start_spec(space + after) == after);
    let query = before + space + part + space + after;
    let start = before.len() as int + 1;
    let end = (before.len() + 1 + part.len()) as int;
    assert(query.take(start) == before + space);
    assert(query.skip(end) == space + after);
    let first = part + space + after;
    assert(first.take(0) == nothing);
    assert(first.skip(part.len() as int) == space + after);
    let last = before + space + part;
    assert(last.take(start) == before + space);
    assert(last.skip(end) == nothing);
}

/// What a click on a value does. Without the key for adding, that value alone is asked for,
/// unless it was already; with the key, it is asked for beside the others, or no longer. What
/// is clicked on is not ruled out any more, and the other values stay as they are.
pub proof fn lemma_click_asks_for_value(
    before: (Set<Seq<char>>, Set<Seq<char>>),
    value: Seq<char>,
    other: Seq<char>,
)
    requires
        other != value,
    ensures
        ({
            let (included, excluded) = before;
            let (plain, plain_ruled_out) = clicked(before, value, false);
            let (added, added_ruled_out) = clicked(before, value, true);
            let alone = Set::<Seq<char>>::empty().insert(value);
            &&& included != alone ==> plain.contains(value) && !plain_ruled_out.contains(value)
            &&& included == alone ==> !plain.contains(value)
            &&& !plain.contains(other)
            &&& plain_ruled_out.contains(other) == excluded.contains(other)
            &&& added.contains(value) == !included.contains(value)
            &&& added.contains(other) == included.contains(other)
            &&& !added_ruled_out.contains(value)
            &&& added_ruled_out.contains(other) == excluded.contains(other)
        }),
{
}

/// A value of a facet is found by each of its parts, in any case, and by nothing that is no
/// part of it; no more than a hundred values are shown, the first ones.
pub proof fn lemma_values_are_found_by_part(
    before: Seq<char>,
    part: Seq<char>,
    after: Seq<char>,
    search: Seq<char>,
    values: Seq<(Seq<char>, u64)>,
)
    ensures
        matches_search(before + part + after, lowered(part)),
        search.len() > 0 && matches_search(part, search) ==> occurs_in(lowered(part), search),
        at_most(values, SHOWN_VALUES as int).len() <= 100,
        values.len() <= 100 ==> at_most(values, SHOWN_VALUES as int) == values,
        values.len() > 100 ==> at_most(values, SHOWN_VALUES as int) == values.take(100),
{
    let text = lowered(before + part + after);
    let position: int = before.len() as int;
    assert(text.subrange(position, position + part.len()) =~= lowered(part));
    assert(crate::text::occurs_at(text, lowered(part), position));
}

/// The facets that count as active are those with a selection.
pub proof fn lemma_active_facets_are_counted(filter: FilterState, facets: Seq<Seq<char>>)
    ensures
        active_among(filter, facets) == facets.filter(
            |facet: Seq<char>|
                filter.facets@.contains_key(facet) && !(filter.facets@[facet].included@ == Set::<
                    Seq<char>,
                >::empty() && filter.facets@[facet].excluded@ == Set::<Seq<char>>::empty()),
        ).len(),
    decreases facets.len(),
{
    reveal(Seq::filter);
    if facets.len() > 0 {
        lemma_active_facets_are_counted(filter, facets.drop_last());
    }
}

}
