//! The index from the values of facets to the rows that have them.
use roaring::RoaringBitmap;
use vstd::prelude::*;

use crate::event::LogEvent;
use crate::facet::{
    event_facets, event_value, facet_name, facet_named, facet_value, field_prefix,
    lemma_facet_names, EventFacet,
};
use crate::json::{scalar_of, scalar_text};
use crate::ordered::{increasing, TextMap};
use crate::rows::{add_row, no_rows, rows_of};
use crate::text::{has_prefix, owned, views};

verus! {

/// For each facet and each value that occurs in it, the rows with that value.
#[derive(Debug)]
pub struct FacetIndex {
    facets: TextMap<TextMap<RoaringBitmap>>,
}

impl FacetIndex {
    /// The rows of each value of each facet.
    pub closed spec fn map(self) -> Map<Seq<char>, TextMap<RoaringBitmap>> {
        self.facets@
    }

    /// Whether a row is entered under a value of a facet.
    pub open spec fn has(self, facet: Seq<char>, value: Seq<char>, row: u32) -> bool {
        &&& self.map().contains_key(facet)
        &&& self.map()[facet]@.contains_key(value)
        &&& rows_of(self.map()[facet]@[value]).contains(row)
    }

    /// Whether there is a value in every facet and a row for every value.
    pub open spec fn is_tight(self) -> bool {
        &&& forall|facet: Seq<char>| #[trigger]
            self.map().contains_key(facet) ==> exists|value: Seq<char>, row: u32|
                self.has(facet, value, row)
        &&& forall|facet: Seq<char>, value: Seq<char>|
            self.map().contains_key(facet) && #[trigger] self.map()[facet]@.contains_key(value)
                ==> exists|row: u32| self.has(facet, value, row)
    }

    /// Whether the index holds exactly the values of some events, each under the
    /// row of its event.
    pub open spec fn indexes(self, events: Seq<LogEvent>) -> bool {
        &&& self.is_tight()
        &&& forall|facet: Seq<char>, value: Seq<char>, row: u32| #[trigger]
            self.has(facet, value, row) <==> row < events.len() && facet_value(
                events[row as int],
                facet,
            ) == Some(value)
    }

    /// The index of no events.
    pub fn new() -> (index: Self)
        ensures
            index.map() == Map::<Seq<char>, TextMap<RoaringBitmap>>::empty(),
            index.indexes(Seq::empty()),
    {
        FacetIndex { facets: TextMap::new() }
    }

    /// The names of the facets in increasing order.
    pub closed spec fn ordered(self) -> Seq<Seq<char>> {
        self.facets.ordered()
    }

    /// The names of the facets in increasing order.
    pub fn names(&self) -> (names: &Vec<String>)
        ensures
            views(names@) == self.ordered(),
            increasing(self.ordered()),
            self.ordered().to_set() == self.map().dom(),
    {
        self.facets.keys()
    }

    /// The rows of each value of a facet.
    pub fn values(&self, facet: &str) -> (values: Option<&TextMap<RoaringBitmap>>)
        ensures
            match values {
                Some(values) => self.map().contains_key(facet@) && *values == self.map()[facet@],
                None => !self.map().contains_key(facet@),
            },
    {
        self.facets.get(facet)
    }

    /// Enters a row under a value of a facet.
    pub fn add(&mut self, facet: &str, value: String, row: u32)
        requires
            old(self).is_tight(),
        ensures
            final(self).is_tight(),
            forall|name: Seq<char>, text: Seq<char>, other: u32| #[trigger]
                final(self).has(name, text, other) == (old(self).has(name, text, other) || (name
                    == facet@ && text == value@ && other == row)),
    {
        let ghost before = *self;
        match self.facets.position(facet) {
            Some(place) => {
                let mut values: TextMap<RoaringBitmap> = TextMap::new();
                self.facets.swap_value(place, &mut values);
                let ghost held = values;
                assert(held == before.map()[facet@]);
                match values.position(value.as_str()) {
                    Some(spot) => {
                        let mut rows = no_rows();
                        values.swap_value(spot, &mut rows);
                        add_row(&mut rows, row);
                        values.swap_value(spot, &mut rows);
                    },
                    None => {
                        let mut rows = no_rows();
                        add_row(&mut rows, row);
                        values.insert(value, rows);
                    },
                }
                self.facets.swap_value(place, &mut values);
            },
            None => {
                let mut rows = no_rows();
                add_row(&mut rows, row);
                let mut values: TextMap<RoaringBitmap> = TextMap::new();
                values.insert(value, rows);
                self.facets.insert(owned(facet), values);
            },
        }
        proof {
            lemma_add_keeps_tight(before, *self, facet@, value@, row);
        }
    }
}

/// An index stays without empty facets and values when a row is entered.
proof fn lemma_add_keeps_tight(
    before: FacetIndex,
    after: FacetIndex,
    facet: Seq<char>,
    value: Seq<char>,
    row: u32,
)
    requires
        before.is_tight(),
        after.map().contains_key(facet),
        after.map()[facet]@.contains_key(value),
        rows_of(after.map()[facet]@[value]).contains(row),
        forall|name: Seq<char>|
            name != facet ==> (#[trigger] after.map().contains_key(name)
                == before.map().contains_key(name)),
        forall|name: Seq<char>|
            name != facet && before.map().contains_key(name) ==> #[trigger] after.map()[name]
                == before.map()[name],
        forall|text: Seq<char>|
            text != value ==> (#[trigger] after.map()[facet]@.contains_key(text) == (
            before.map().contains_key(facet) && before.map()[facet]@.contains_key(text))),
        forall|text: Seq<char>|
            text != value && before.map().contains_key(facet)
                && before.map()[facet]@.contains_key(text) ==> #[trigger] after.map()[facet]@[text]
                == before.map()[facet]@[text],
    ensures
        after.is_tight(),
{
    assert(after.has(facet, value, row));
    assert forall|name: Seq<char>| #[trigger] after.map().contains_key(name) implies exists|
        text: Seq<char>,
        other: u32,
    | after.has(name, text, other) by {
        if name != facet {
            let (text, other) = choose|text: Seq<char>, other: u32| before.has(name, text, other);
            assert(after.has(name, text, other));
        }
    }
    assert forall|name: Seq<char>, text: Seq<char>|
        after.map().contains_key(name) && #[trigger] after.map()[name]@.contains_key(
            text,
        ) implies exists|other: u32| after.has(name, text, other) by {
        if name != facet || text != value {
            let other = choose|other: u32| before.has(name, text, other);
            assert(before.has(name, text, other));
            assert(after.has(name, text, other));
        }
    }
}

/// Whether one of the first facets of an event has a value.
spec fn among_facets(event: LogEvent, count: int, facet: Seq<char>, value: Seq<char>) -> bool {
    exists|k: int|
        0 <= k < count && facet == facet_name(#[trigger] event_facets()[k]) && event_value(
            event,
            event_facets()[k],
        ) == Some(value)
}

/// Whether one of the first fields of an event has a value.
spec fn among_fields(
    event: LogEvent,
    names: Seq<Seq<char>>,
    facet: Seq<char>,
    value: Seq<char>,
) -> bool {
    exists|k: int|
        0 <= k < names.len() && facet == field_prefix() + #[trigger] names[k] && scalar_of(
            event.fields@[names[k]],
        ) == Some(value)
}

/// The facets and the fields of an event are its values.
proof fn lemma_values_of_event(
    event: LogEvent,
    names: Seq<Seq<char>>,
    facet: Seq<char>,
    value: Seq<char>,
)
    requires
        names.to_set() == event.fields@.dom(),
    ensures
        (facet_value(event, facet) == Some(value)) == (among_facets(event, 13, facet, value)
            || among_fields(event, names, facet, value)),
{
    lemma_facet_names();
    assert(event_facets().len() == 13);
    if facet_value(event, facet) == Some(value) {
        match facet_named(facet) {
            Some(part) => {
                lemma_facet_is_listed(part);
                let k = choose|k: int| 0 <= k < 13 && event_facets()[k] == part;
                assert(facet == facet_name(event_facets()[k]));
            },
            None => {
                let name = facet.skip(field_prefix().len() as int);
                assert(facet == field_prefix() + name);
                assert(names.to_set().contains(name));
                let k = choose|k: int| 0 <= k < names.len() && names[k] == name;
                assert(facet == field_prefix() + names[k]);
            },
        }
    }
    if among_facets(event, 13, facet, value) {
        let k = choose|k: int|
            0 <= k < 13 && facet == facet_name(#[trigger] event_facets()[k]) && event_value(
                event,
                event_facets()[k],
            ) == Some(value);
        assert(facet_named(facet_name(event_facets()[k])) == Some(event_facets()[k]));
    }
    if among_fields(event, names, facet, value) {
        let k = choose|k: int|
            0 <= k < names.len() && facet == field_prefix() + #[trigger] names[k] && scalar_of(
                event.fields@[names[k]],
            ) == Some(value);
        assert(facet.take(field_prefix().len() as int) == field_prefix());
        assert(has_prefix(facet, field_prefix()));
        assert(facet.skip(field_prefix().len() as int) == names[k]);
        assert(names.contains(names[k]));
        assert(names.to_set().contains(names[k]));
    }
}

proof fn lemma_facet_is_listed(facet: EventFacet)
    ensures
        exists|k: int| 0 <= k < 13 && #[trigger] event_facets()[k] == facet,
{
    let facets = event_facets();
    assert(facets[0] == EventFacet::Level);
    assert(facets[1] == EventFacet::Source);
    assert(facets[2] == EventFacet::Tag);
    assert(facets[3] == EventFacet::Subsystem);
    assert(facets[4] == EventFacet::Target);
    assert(facets[5] == EventFacet::Event);
    assert(facets[6] == EventFacet::Correlation);
    assert(facets[7] == EventFacet::AppSessionId);
    assert(facets[8] == EventFacet::PlaybackSessionId);
    assert(facets[9] == EventFacet::RequestId);
    assert(facets[10] == EventFacet::SessionId);
    assert(facets[11] == EventFacet::Provider);
    assert(facets[12] == EventFacet::Status);
}

impl FacetIndex {
    /// Enters the values of an event under a row.
    pub fn add_event(&mut self, row: u32, event: &LogEvent)
        requires
            old(self).is_tight(),
        ensures
            final(self).is_tight(),
            forall|facet: Seq<char>, value: Seq<char>, other: u32| #[trigger]
                final(self).has(facet, value, other) == (old(self).has(facet, value, other) || (other
                    == row && facet_value(*event, facet) == Some(value))),
    {
        let facets: [EventFacet; 13] = [
            EventFacet::Level,
            EventFacet::Source,
            EventFacet::Tag,
            EventFacet::Subsystem,
            EventFacet::Target,
            EventFacet::Event,
            EventFacet::Correlation,
            EventFacet::AppSessionId,
            EventFacet::PlaybackSessionId,
            EventFacet::RequestId,
            EventFacet::SessionId,
            EventFacet::Provider,
            EventFacet::Status,
        ];
        assert(facets@ == event_facets());
        let mut index: usize = 0;
        while index < 13
            invariant
                index <= 13,
                facets@ == event_facets(),
                self.is_tight(),
                forall|facet: Seq<char>, value: Seq<char>, other: u32| #[trigger]
                    self.has(facet, value, other) == (old(self).has(facet, value, other) || (other
                        == row && among_facets(*event, index as int, facet, value))),
            decreases 13 - index,
        {
            let ghost before = *self;
            let facet = facets[index];
            assert(event_facets()[index as int] == facet);
            if let Some(value) = facet.value(event) {
                self.add(facet.name(), value, row);
                assert forall|name: Seq<char>, text: Seq<char>| #[trigger]
                    among_facets(*event, index + 1, name, text) == (among_facets(
                        *event,
                        index as int,
                        name,
                        text,
                    ) || (name == facet_name(facet) && text == value@)) by {
                    if name == facet_name(facet) && text == value@ {
                        assert(name == facet_name(event_facets()[index as int]));
                    }
                }
            } else {
                assert forall|name: Seq<char>, text: Seq<char>| #[trigger]
                    among_facets(*event, index + 1, name, text) == among_facets(
                        *event,
                        index as int,
                        name,
                        text,
                    ) by {}
            }
            index += 1;
        }
        let names = event.fields.keys();
        let ghost order = event.fields.ordered();
        let mut index: usize = 0;
        assert(order.take(0).len() == 0);
        while index < names.len()
            invariant
                index <= names.len(),
                order == event.fields.ordered(),
                views(names@) == order,
                self.is_tight(),
                forall|facet: Seq<char>, value: Seq<char>, other: u32| #[trigger]
                    self.has(facet, value, other) == (old(self).has(facet, value, other) || (other
                        == row && (among_facets(*event, 13, facet, value) || among_fields(
                        *event,
                        order.take(index as int),
                        facet,
                        value,
                    )))),
            decreases names.len() - index,
        {
            assert(order[index as int] == names@[index as int]@);
            let ghost name = order[index as int];
            let ghost shorter = order.take(index as int);
            let ghost longer = order.take(index + 1);
            assert(longer[index as int] == name);
            assert forall|facet: Seq<char>, value: Seq<char>| #[trigger]
                among_fields(*event, longer, facet, value) == (among_fields(
                    *event,
                    shorter,
                    facet,
                    value,
                ) || (facet == field_prefix() + name && scalar_of(event.fields@[name]) == Some(
                    value,
                ))) by {
                if among_fields(*event, shorter, facet, value) {
                    let k = choose|k: int|
                        0 <= k < shorter.len() && facet == field_prefix() + #[trigger] shorter[k]
                            && scalar_of(event.fields@[shorter[k]]) == Some(value);
                    assert(longer[k] == shorter[k]);
                }
                if among_fields(*event, longer, facet, value) {
                    let k = choose|k: int|
                        0 <= k < longer.len() && facet == field_prefix() + #[trigger] longer[k]
                            && scalar_of(event.fields@[longer[k]]) == Some(value);
                    if k < index {
                        assert(shorter[k] == longer[k]);
                    }
                }
                if facet == field_prefix() + name && scalar_of(event.fields@[name]) == Some(value) {
                    assert(facet == field_prefix() + longer[index as int]);
                }
            }
            if let Some(value) = scalar_text(event.fields.value_at(index)) {
                let mut facet = owned("fields.");
                facet.append(names[index].as_str());
                self.add(facet.as_str(), value, row);
            }
            index += 1;
        }
        assert(order.take(index as int) == order);
        proof {
            assert forall|facet: Seq<char>, value: Seq<char>, other: u32| #[trigger]
                self.has(facet, value, other) == (old(self).has(facet, value, other) || (other
                    == row && facet_value(*event, facet) == Some(value))) by {
                lemma_values_of_event(*event, order, facet, value);
            }
        }
    }

    /// The index of some events.
    pub fn of_events(events: &Vec<LogEvent>) -> (result: Self)
        requires
            events@.len() <= u32::MAX,
        ensures
            result.indexes(events@),
    {
        let mut result = FacetIndex::new();
        let mut index: usize = 0;
        assert(events@.take(0) == Seq::<LogEvent>::empty());
        while index < events.len()
            invariant
                index <= events.len(),
                events@.len() <= u32::MAX,
                result.indexes(events@.take(index as int)),
            decreases events.len() - index,
        {
            result.add_event(index as u32, &events[index]);
            proof {
                let shorter = events@.take(index as int);
                let longer = events@.take(index + 1);
                assert forall|facet: Seq<char>, value: Seq<char>, row: u32| #[trigger]
                    result.has(facet, value, row) <==> row < longer.len() && facet_value(
                        longer[row as int],
                        facet,
                    ) == Some(value) by {
                    if row < shorter.len() {
                        assert(shorter[row as int] == longer[row as int]);
                    }
                }
            }
            index += 1;
        }
        assert(events@.take(index as int) == events@);
        result
    }
}

}
