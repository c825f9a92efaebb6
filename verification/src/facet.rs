//! The facets by which events are counted and filtered.
use vstd::prelude::*;

use crate::event::{correlation_of, tag_of, LogEvent};
use crate::json::{option_view, scalar_of, scalar_text};
use crate::level::{level_text, severity_of, Level};
use crate::ordered::{TextMap, TextSet};
use crate::text::{has_prefix, is_blank, owned, same, trimmed, views};

verus! {

/// The facets that are shown first, in their order.
pub const PRIMARY_FACETS: [&'static str; 12] = [
    "level",
    "source",
    "tag",
    "subsystem",
    "target",
    "event",
    "provider",
    "status",
    "correlation",
    "app_session_id",
    "playback_session_id",
    "request_id",
];

/// The parts of every event that are facets.
#[derive(Clone, Copy, PartialEq, Eq, Structural, Debug)]
pub enum EventFacet {
    Level,
    Source,
    Tag,
    Subsystem,
    Target,
    Event,
    Correlation,
    AppSessionId,
    PlaybackSessionId,
    RequestId,
    SessionId,
    Provider,
    Status,
}

/// All parts of events that are facets.
pub open spec fn event_facets() -> Seq<EventFacet> {
    seq![
        EventFacet::Level,
        EventFacet::Source,
        EventFacet::Tag,
        EventFacet::Subsystem,
        EventFacet::Target,
        EventFacet::Event,
        EventFacet::Correlation,
        EventFacet::AppSessionId,
        EventFacet::PlaybackSessionId,
        EventFacet::RequestId,
        EventFacet::SessionId,
        EventFacet::Provider,
        EventFacet::Status,
    ]
}

/// The name of a facet.
pub open spec fn facet_name(facet: EventFacet) -> Seq<char> {
    match facet {
        EventFacet::Level => "level"@,
        EventFacet::Source => "source"@,
        EventFacet::Tag => "tag"@,
        EventFacet::Subsystem => "subsystem"@,
        EventFacet::Target => "target"@,
        EventFacet::Event => "event"@,
        EventFacet::Correlation => "correlation"@,
        EventFacet::AppSessionId => "app_session_id"@,
        EventFacet::PlaybackSessionId => "playback_session_id"@,
        EventFacet::RequestId => "request_id"@,
        EventFacet::SessionId => "session_id"@,
        EventFacet::Provider => "provider"@,
        EventFacet::Status => "status"@,
    }
}

/// The facet with a name.
pub open spec fn facet_named(name: Seq<char>) -> Option<EventFacet> {
    if name == "level"@ {
        Some(EventFacet::Level)
    } else if name == "source"@ {
        Some(EventFacet::Source)
    } else if name == "tag"@ {
        Some(EventFacet::Tag)
    } else if name == "subsystem"@ {
        Some(EventFacet::Subsystem)
    } else if name == "target"@ {
        Some(EventFacet::Target)
    } else if name == "event"@ {
        Some(EventFacet::Event)
    } else if name == "correlation"@ {
        Some(EventFacet::Correlation)
    } else if name == "app_session_id"@ {
        Some(EventFacet::AppSessionId)
    } else if name == "playback_session_id"@ {
        Some(EventFacet::PlaybackSessionId)
    } else if name == "request_id"@ {
        Some(EventFacet::RequestId)
    } else if name == "session_id"@ {
        Some(EventFacet::SessionId)
    } else if name == "provider"@ {
        Some(EventFacet::Provider)
    } else if name == "status"@ {
        Some(EventFacet::Status)
    } else {
        None
    }
}

/// What stands before the name of a field in the name of its facet.
pub open spec fn field_prefix() -> Seq<char> {
    "fields."@
}

/// The name of a facet names that facet.
proof fn lemma_facet_name_names_facet(facet: EventFacet)
    ensures
        facet_named(facet_name(facet)) == Some(facet),
{
    reveal_strlit("level");
    reveal_strlit("source");
    reveal_strlit("tag");
    reveal_strlit("subsystem");
    reveal_strlit("target");
    reveal_strlit("event");
    reveal_strlit("correlation");
    reveal_strlit("app_session_id");
    reveal_strlit("playback_session_id");
    reveal_strlit("request_id");
    reveal_strlit("session_id");
    reveal_strlit("provider");
    reveal_strlit("status");
    assert("tag"@.len() == 3 && "target"@.len() == 6);
    assert("level"@[0] == 'l' && "level"@[1] == 'e');
    assert("source"@[0] == 's' && "source"@[1] == 'o');
    assert("tag"@[0] == 't' && "tag"@[1] == 'a');
    assert("subsystem"@[0] == 's' && "subsystem"@[1] == 'u');
    assert("target"@[0] == 't' && "target"@[1] == 'a');
    assert("event"@[0] == 'e' && "event"@[1] == 'v');
    assert("correlation"@[0] == 'c' && "correlation"@[1] == 'o');
    assert("app_session_id"@[0] == 'a' && "app_session_id"@[1] == 'p');
    assert("playback_session_id"@[0] == 'p' && "playback_session_id"@[1] == 'l');
    assert("request_id"@[0] == 'r' && "request_id"@[1] == 'e');
    assert("session_id"@[0] == 's' && "session_id"@[1] == 'e');
    assert("provider"@[0] == 'p' && "provider"@[1] == 'r');
    assert("status"@[0] == 's' && "status"@[1] == 't');
}

/// No facet of every event is that of a field.
proof fn lemma_field_facet_is_unnamed(name: Seq<char>)
    requires
        has_prefix(name, field_prefix()),
    ensures
        facet_named(name) is None,
{
    reveal_strlit("level");
    reveal_strlit("source");
    reveal_strlit("tag");
    reveal_strlit("subsystem");
    reveal_strlit("target");
    reveal_strlit("event");
    reveal_strlit("correlation");
    reveal_strlit("app_session_id");
    reveal_strlit("playback_session_id");
    reveal_strlit("request_id");
    reveal_strlit("session_id");
    reveal_strlit("provider");
    reveal_strlit("status");
    reveal_strlit("fields.");
    assert("level"@[0] == 'l' && "level"@[1] == 'e');
    assert("source"@[0] == 's' && "source"@[1] == 'o');
    assert("tag"@[0] == 't' && "tag"@[1] == 'a');
    assert("subsystem"@[0] == 's' && "subsystem"@[1] == 'u');
    assert("target"@[0] == 't' && "target"@[1] == 'a');
    assert("event"@[0] == 'e' && "event"@[1] == 'v');
    assert("correlation"@[0] == 'c' && "correlation"@[1] == 'o');
    assert("app_session_id"@[0] == 'a' && "app_session_id"@[1] == 'p');
    assert("playback_session_id"@[0] == 'p' && "playback_session_id"@[1] == 'l');
    assert("request_id"@[0] == 'r' && "request_id"@[1] == 'e');
    assert("session_id"@[0] == 's' && "session_id"@[1] == 'e');
    assert("provider"@[0] == 'p' && "provider"@[1] == 'r');
    assert("status"@[0] == 's' && "status"@[1] == 't');
    assert("fields."@[0] == 'f');
    assert(name.take(7)[0] == name[0]);
}

/// The name of a facet names that facet, and no facet of a field.
pub proof fn lemma_facet_names()
    ensures
        forall|facet: EventFacet| #[trigger] facet_named(facet_name(facet)) == Some(facet),
        forall|name: Seq<char>|
            facet_named(name) is Some ==> facet_name((#[trigger] facet_named(name))->0) == name,
        forall|name: Seq<char>|
            #[trigger] has_prefix(name, field_prefix()) ==> facet_named(name) is None,
{
    assert forall|facet: EventFacet| #[trigger] facet_named(facet_name(facet)) == Some(facet) by {
        lemma_facet_name_names_facet(facet);
    }
    assert forall|name: Seq<char>| #[trigger] has_prefix(
        name,
        field_prefix(),
    ) implies facet_named(name) is None by {
        lemma_field_facet_is_unnamed(name);
    }
}

/// A text that counts as a value: one that is there and not empty.
pub open spec fn nonempty_value(text: Option<String>) -> Option<Seq<char>> {
    match text {
        Some(text) => if text@.len() > 0 {
            Some(text@)
        } else {
            None
        },
        None => None,
    }
}

/// The value of an event in one of the facets that every event has.
pub open spec fn event_value(event: LogEvent, facet: EventFacet) -> Option<Seq<char>> {
    match facet {
        EventFacet::Level => Some(level_text(event.level)),
        EventFacet::Source => Some(event.source@),
        EventFacet::Tag => Some(tag_of(event.message@, event.subsystem@)),
        EventFacet::Subsystem => Some(event.subsystem@),
        EventFacet::Target => nonempty_value(event.target),
        EventFacet::Event => Some(event.event@),
        EventFacet::Correlation => Some(correlation_of(event)),
        EventFacet::AppSessionId => Some(event.app_session_id@),
        EventFacet::PlaybackSessionId => nonempty_value(event.playback_session_id),
        EventFacet::RequestId => nonempty_value(event.request_id),
        EventFacet::SessionId => nonempty_value(event.session_id),
        EventFacet::Provider => nonempty_value(event.provider),
        EventFacet::Status => match event.status {
            Some(status) => scalar_of(status),
            None => None,
        },
    }
}

/// The value of an event in a facet. Beside the facets of every event, each
/// field of an event is one.
pub open spec fn facet_value(event: LogEvent, facet: Seq<char>) -> Option<Seq<char>> {
    match facet_named(facet) {
        Some(part) => event_value(event, part),
        None => if has_prefix(facet, field_prefix()) {
            let name = facet.skip(field_prefix().len() as int);
            if event.fields@.contains_key(name) {
                scalar_of(event.fields@[name])
            } else {
                None
            }
        } else {
            None
        },
    }
}

/// A text that counts as a value.
fn nonempty_text(text: &Option<String>) -> (value: Option<String>)
    ensures
        option_view(value) == nonempty_value(*text),
{
    match text {
        Some(text) => if text.as_str().is_empty() {
            None
        } else {
            Some(text.clone())
        },
        None => None,
    }
}

impl EventFacet {
    /// The name of the facet.
    pub fn name(self) -> (name: &'static str)
        ensures
            name@ == facet_name(self),
    {
        match self {
            EventFacet::Level => "level",
            EventFacet::Source => "source",
            EventFacet::Tag => "tag",
            EventFacet::Subsystem => "subsystem",
            EventFacet::Target => "target",
            EventFacet::Event => "event",
            EventFacet::Correlation => "correlation",
            EventFacet::AppSessionId => "app_session_id",
            EventFacet::PlaybackSessionId => "playback_session_id",
            EventFacet::RequestId => "request_id",
            EventFacet::SessionId => "session_id",
            EventFacet::Provider => "provider",
            EventFacet::Status => "status",
        }
    }

    /// The value of an event in the facet.
    pub fn value(self, event: &LogEvent) -> (value: Option<String>)
        ensures
            option_view(value) == event_value(*event, self),
    {
        match self {
            EventFacet::Level => Some(event.level.to_string()),
            EventFacet::Source => Some(event.source.clone()),
            EventFacet::Tag => Some(event.tag()),
            EventFacet::Subsystem => Some(event.subsystem.clone()),
            EventFacet::Target => nonempty_text(&event.target),
            EventFacet::Event => Some(event.event.clone()),
            EventFacet::Correlation => Some(owned(event.correlation_id())),
            EventFacet::AppSessionId => Some(event.app_session_id.clone()),
            EventFacet::PlaybackSessionId => nonempty_text(&event.playback_session_id),
            EventFacet::RequestId => nonempty_text(&event.request_id),
            EventFacet::SessionId => nonempty_text(&event.session_id),
            EventFacet::Provider => nonempty_text(&event.provider),
            EventFacet::Status => match &event.status {
                Some(status) => scalar_text(status),
                None => None,
            },
        }
    }
}

/// The values of a facet that are asked for, and those that are ruled out.
#[derive(Debug, PartialEq, Eq)]
pub struct FacetSelection {
    pub included: TextSet,
    pub excluded: TextSet,
}

/// Whether nothing is asked for or ruled out.
pub open spec fn selects_nothing(selection: FacetSelection) -> bool {
    selection.included@ == Set::<Seq<char>>::empty() && selection.excluded@ == Set::<
        Seq<char>,
    >::empty()
}

/// Whether a value passes a selection: where values are asked for it is one of
/// them, and it is none of those that are ruled out.
pub open spec fn selection_allows(selection: FacetSelection, value: Option<Seq<char>>) -> bool {
    &&& selection.included@ != Set::<Seq<char>>::empty() ==> value is Some
        && selection.included@.contains(value->0)
    &&& value is Some ==> !selection.excluded@.contains(value->0)
}

impl Default for FacetSelection {
    fn default() -> (selection: Self)
        ensures
            selects_nothing(selection),
    {
        FacetSelection { included: TextSet::new(), excluded: TextSet::new() }
    }
}

impl FacetSelection {
    /// Asks for one value alone, in place of those asked for before.
    pub fn include_only(&mut self, value: String)
        ensures
            final(self).included@ == Set::<Seq<char>>::empty().insert(value@),
            final(self).excluded@ == old(self).excluded@,
    {
        self.included.clear();
        self.included.insert(value);
    }

    /// Asks for a value, or no longer if it was asked for; it is not ruled out
    /// any more.
    pub fn toggle_include(&mut self, value: String)
        ensures
            final(self).excluded@ == old(self).excluded@.remove(value@),
            final(self).included@ == if old(self).included@.contains(value@) {
                old(self).included@.remove(value@)
            } else {
                old(self).included@.insert(value@)
            },
    {
        self.excluded.remove(value.as_str());
        if !self.included.remove(value.as_str()) {
            assert(self.included@ == old(self).included@);
            self.included.insert(value);
        }
    }

    /// Rules a value out, or no longer if it was; it is not asked for any more.
    pub fn toggle_exclude(&mut self, value: String)
        ensures
            final(self).included@ == old(self).included@.remove(value@),
            final(self).excluded@ == if old(self).excluded@.contains(value@) {
                old(self).excluded@.remove(value@)
            } else {
                old(self).excluded@.insert(value@)
            },
    {
        self.included.remove(value.as_str());
        if !self.excluded.remove(value.as_str()) {
            assert(self.excluded@ == old(self).excluded@);
            self.excluded.insert(value);
        }
    }

    /// Whether nothing is asked for or ruled out.
    pub fn is_empty(&self) -> (result: bool)
        ensures
            result == selects_nothing(*self),
    {
        self.included.is_empty() && self.excluded.is_empty()
    }
}

/// What events are shown: the selections of the facets, a query, and the least
/// level and the correlation that are asked for.
#[derive(Debug, PartialEq, Eq)]
pub struct FilterState {
    pub facets: TextMap<FacetSelection>,
    pub text: String,
    pub minimum_level: Option<Level>,
    pub correlation: Option<String>,
}

/// Whether two selections are the same.
pub open spec fn same_selection(first: FacetSelection, second: FacetSelection) -> bool {
    first.included@ == second.included@ && first.excluded@ == second.excluded@
}

/// Whether two filters are the same.
pub open spec fn same_filter(first: FilterState, second: FilterState) -> bool {
    &&& first.facets@.dom() == second.facets@.dom()
    &&& forall|facet: Seq<char>| #[trigger]
        first.facets@.contains_key(facet) ==> same_selection(
            first.facets@[facet],
            second.facets@[facet],
        )
    &&& first.text@ == second.text@
    &&& first.minimum_level == second.minimum_level
    &&& option_view(first.correlation) == option_view(second.correlation)
}

impl Clone for FacetSelection {
    fn clone(&self) -> (copy: Self)
        ensures
            same_selection(*self, copy),
            copy.included.ordered() == self.included.ordered(),
            copy.excluded.ordered() == self.excluded.ordered(),
    {
        FacetSelection { included: self.included.clone(), excluded: self.excluded.clone() }
    }
}

impl Clone for FilterState {
    fn clone(&self) -> (copy: Self)
        ensures
            same_filter(*self, copy),
    {
        FilterState {
            facets: self.facets.clone(),
            text: self.text.clone(),
            minimum_level: self.minimum_level,
            correlation: self.correlation.clone(),
        }
    }
}

/// Whether every element of a set is one of another.
fn is_subset(first: &TextSet, second: &TextSet) -> (result: bool)
    ensures
        result == first@.subset_of(second@),
{
    let items = first.items();
    let ghost order = first.ordered();
    let mut index: usize = 0;
    while index < items.len()
        invariant
            index <= items.len(),
            views(items@) == order,
            order.to_set() == first@,
            forall|i: int| 0 <= i < index ==> second@.contains(#[trigger] order[i]),
        decreases items.len() - index,
    {
        assert(order[index as int] == items@[index as int]@);
        if !second.contains(items[index].as_str()) {
            assert(order.to_set().contains(order[index as int]));
            return false;
        }
        index += 1;
    }
    assert forall|text: Seq<char>| first@.contains(text) implies second@.contains(text) by {
        assert(order.to_set().contains(text));
        let k = choose|k: int| 0 <= k < order.len() && order[k] == text;
        assert(second@.contains(order[k]));
    }
    true
}

impl FacetSelection {
    /// Whether two selections are the same.
    pub fn is_same(&self, other: &Self) -> (result: bool)
        ensures
            result == same_selection(*self, *other),
    {
        let result = is_subset(&self.included, &other.included) && is_subset(
            &other.included,
            &self.included,
        ) && is_subset(&self.excluded, &other.excluded) && is_subset(
            &other.excluded,
            &self.excluded,
        );
        proof {
            if result {
                assert(self.included@ =~= other.included@);
                assert(self.excluded@ =~= other.excluded@);
            }
        }
        result
    }
}

/// Whether each selection of a filter is that of another.
fn selections_agree(first: &TextMap<FacetSelection>, second: &TextMap<FacetSelection>) -> (result:
    bool)
    ensures
        result == (forall|facet: Seq<char>| #[trigger]
            first@.contains_key(facet) ==> second@.contains_key(facet) && same_selection(
                first@[facet],
                second@[facet],
            )),
{
    let keys = first.keys();
    let ghost order = first.ordered();
    let count: usize = first.len();
    let mut index: usize = 0;
    while index < count
        invariant
            index <= count,
            count == order.len(),
            views(keys@) == order,
            order == first.ordered(),
            order.to_set() == first@.dom(),
            forall|i: int|
                0 <= i < index ==> second@.contains_key(#[trigger] order[i]) && same_selection(
                    first@[order[i]],
                    second@[order[i]],
                ),
        decreases count - index,
    {
        let ghost facet = order[index as int];
        assert(order.to_set().contains(facet));
        assert(first@.contains_key(facet));
        let selection = first.value_at(index);
        match second.get(first.key_at(index).as_str()) {
            Some(other) => {
                if !selection.is_same(other) {
                    return false;
                }
            },
            None => {
                return false;
            },
        }
        index += 1;
    }
    assert forall|facet: Seq<char>| #[trigger] first@.contains_key(
        facet,
    ) implies second@.contains_key(facet) && same_selection(first@[facet], second@[facet]) by {
        assert(order.to_set().contains(facet));
        let k = choose|k: int| 0 <= k < order.len() && order[k] == facet;
        assert(second@.contains_key(order[k]));
    }
    true
}

impl FilterState {
    /// Whether two filters are the same.
    pub fn is_same(&self, other: &Self) -> (result: bool)
        ensures
            result == same_filter(*self, *other),
    {
        let facets = selections_agree(&self.facets, &other.facets) && selections_agree(
            &other.facets,
            &self.facets,
        );
        let correlations = match (&self.correlation, &other.correlation) {
            (Some(left), Some(right)) => same(left.as_str(), right.as_str()),
            (None, None) => true,
            _ => false,
        };
        let levels = match (self.minimum_level, other.minimum_level) {
            (Some(left), Some(right)) => left == right,
            (None, None) => true,
            _ => false,
        };
        proof {
            if facets {
                assert(self.facets@.dom() =~= other.facets@.dom());
            }
        }
        facets && correlations && levels && same(self.text.as_str(), other.text.as_str())
    }
}

/// Whether a facet is selected on.
pub open spec fn facet_is_active(filter: FilterState, facet: Seq<char>) -> bool {
    filter.facets@.contains_key(facet) && !selects_nothing(filter.facets@[facet])
}

/// Whether a filter asks for anything.
pub open spec fn filter_is_active(filter: FilterState) -> bool {
    ||| exists|facet: Seq<char>| #[trigger] facet_is_active(filter, facet)
    ||| trimmed(filter.text@).len() > 0
    ||| filter.minimum_level is Some
    ||| filter.correlation is Some
}

impl Default for FilterState {
    fn default() -> (filter: Self)
        ensures
            filter.facets@ == Map::<Seq<char>, FacetSelection>::empty(),
            filter.text@ == Seq::<char>::empty(),
            filter.minimum_level is None,
            filter.correlation is None,
    {
        FilterState {
            facets: TextMap::new(),
            text: String::new(),
            minimum_level: None,
            correlation: None,
        }
    }
}

/// Whether a facet other than one is selected on.
pub open spec fn other_facet_active(filter: FilterState, ignored: Option<Seq<char>>) -> bool {
    exists|facet: Seq<char>| ignored != Some(facet) && #[trigger] facet_is_active(filter, facet)
}

impl FilterState {
    /// Asks for nothing any more.
    pub fn clear(&mut self)
        ensures
            final(self).facets@ == Map::<Seq<char>, FacetSelection>::empty(),
            final(self).text@ == Seq::<char>::empty(),
            final(self).minimum_level is None,
            final(self).correlation is None,
    {
        *self = FilterState::default();
    }

    /// Whether a facet other than one is selected on.
    pub fn has_active_facet(&self, ignored: Option<&str>) -> (result: bool)
        ensures
            result == other_facet_active(*self, match ignored {
                Some(name) => Some(name@),
                None => None,
            }),
    {
        let ghost passed = match ignored {
            Some(name) => Some(name@),
            None => None,
        };
        let names = self.facets.keys();
        let mut index: usize = 0;
        while index < names.len()
            invariant
                index <= names.len(),
                views(names@) == self.facets.ordered(),
                self.facets.ordered().to_set() == self.facets@.dom(),
                passed == (match ignored {
                    Some(name) => Some(name@),
                    None => None,
                }),
                forall|i: int|
                    0 <= i < index ==> passed == Some(#[trigger] self.facets.ordered()[i])
                        || !facet_is_active(*self, self.facets.ordered()[i]),
            decreases names.len() - index,
        {
            assert(self.facets.ordered()[index as int] == names@[index as int]@);
            let skipped = match ignored {
                Some(name) => same(name, names[index].as_str()),
                None => false,
            };
            if !skipped && !self.facets.value_at(index).is_empty() {
                assert(facet_is_active(*self, self.facets.ordered()[index as int]));
                return true;
            }
            index += 1;
        }
        assert forall|facet: Seq<char>| #[trigger] facet_is_active(*self, facet) implies passed
            == Some(facet) by {
            assert(self.facets.ordered().to_set().contains(facet));
            let i = choose|i: int|
                0 <= i < self.facets.ordered().len() && self.facets.ordered()[i] == facet;
            assert(self.facets.ordered()[i] == facet);
        }
        false
    }

    /// Whether the filter asks for anything.
    pub fn is_active(&self) -> (result: bool)
        ensures
            result == filter_is_active(*self),
    {
        let facets = self.has_active_facet(None);
        proof {
            if facets {
                let facet = choose|facet: Seq<char>| #[trigger] facet_is_active(*self, facet);
                assert(facet_is_active(*self, facet));
            } else {
                assert forall|facet: Seq<char>| !#[trigger] facet_is_active(*self, facet) by {
                    if facet_is_active(*self, facet) {
                        assert(None::<Seq<char>> != Some(facet));
                    }
                }
            }
        }
        facets || !is_blank(self.text.as_str()) || self.minimum_level.is_some()
            || self.correlation.is_some()
    }
}

/// Whether the level of an event is at least as severe as the one asked for.
pub open spec fn level_allows(minimum: Option<Level>, level: Level) -> bool {
    match minimum {
        Some(minimum) => severity_of(level) >= severity_of(minimum),
        None => true,
    }
}

/// Whether an event passes the facets of a filter but one, its least level and
/// its correlation.
pub open spec fn facets_allow(
    filter: FilterState,
    ignored: Option<Seq<char>>,
    event: LogEvent,
) -> bool {
    &&& forall|facet: Seq<char>| #[trigger]
        filter.facets@.contains_key(facet) && ignored != Some(facet) ==> selection_allows(
            filter.facets@[facet],
            facet_value(event, facet),
        )
    &&& level_allows(filter.minimum_level, event.level)
    &&& match filter.correlation {
        Some(correlation) => correlation_of(event) == correlation@,
        None => true,
    }
}

/// To ask for a value twice leaves the values asked for as they were.
pub proof fn lemma_toggling_twice_restores(values: Set<Seq<char>>, value: Seq<char>)
    ensures
        ({
            let once = if values.contains(value) {
                values.remove(value)
            } else {
                values.insert(value)
            };
            let twice = if once.contains(value) {
                once.remove(value)
            } else {
                once.insert(value)
            };
            twice == values
        }),
{
}

/// Values of one facet that are asked for are alternatives: one more lets through
/// what the others do, and what has it.
pub proof fn lemma_included_values_are_alternatives(
    before: FacetSelection,
    after: FacetSelection,
    value: Seq<char>,
    found: Option<Seq<char>>,
)
    requires
        before.included@ != Set::<Seq<char>>::empty(),
        after.included@ == before.included@.insert(value),
        after.excluded@ == before.excluded@,
        !before.excluded@.contains(value),
    ensures
        selection_allows(after, found) <==> selection_allows(before, found) || found == Some(value),
{
    assert(after.included@.contains(value));
    assert(after.included@ != Set::<Seq<char>>::empty());
}

/// A value that is ruled out never passes, whatever is asked for.
pub proof fn lemma_excluded_value_never_passes(selection: FacetSelection, value: Seq<char>)
    requires
        selection.excluded@.contains(value),
    ensures
        !selection_allows(selection, Some(value)),
{
}

/// The selections of different facets have to be passed all: one more lets through
/// what passes it of what the others do.
pub proof fn lemma_facets_are_combined(
    before: FilterState,
    after: FilterState,
    facet: Seq<char>,
    selection: FacetSelection,
    event: LogEvent,
)
    requires
        !before.facets@.contains_key(facet),
        after.facets@ == before.facets@.insert(facet, selection),
        after.minimum_level == before.minimum_level,
        after.correlation == before.correlation,
    ensures
        facets_allow(after, None, event) <==> facets_allow(before, None, event)
            && selection_allows(selection, facet_value(event, facet)),
{
    if facets_allow(after, None, event) {
        assert(after.facets@.contains_key(facet));
        assert forall|other: Seq<char>| #[trigger] before.facets@.contains_key(other) implies
            selection_allows(before.facets@[other], facet_value(event, other)) by {
            assert(after.facets@.contains_key(other));
        }
    }
    if facets_allow(before, None, event) && selection_allows(
        selection,
        facet_value(event, facet),
    ) {
        assert forall|other: Seq<char>| #[trigger] after.facets@.contains_key(other) implies
            selection_allows(after.facets@[other], facet_value(event, other)) by {
            if other != facet {
                assert(before.facets@.contains_key(other));
            }
        }
    }
}

/// A higher least level lets fewer events through.
pub proof fn lemma_levels_narrow(lower: Level, higher: Level, level: Level)
    requires
        severity_of(lower) <= severity_of(higher),
        level_allows(Some(higher), level),
    ensures
        level_allows(Some(lower), level),
{
}

/// The fields of an event with scalar values are facets of their own.
pub proof fn lemma_scalar_fields_are_facets(event: LogEvent, name: Seq<char>)
    requires
        event.fields@.contains_key(name),
    ensures
        facet_value(event, field_prefix() + name) == scalar_of(event.fields@[name]),
{
    let facet = field_prefix() + name;
    lemma_facet_names();
    assert(facet.take(field_prefix().len() as int) == field_prefix());
    assert(has_prefix(facet, field_prefix()));
    assert(facet.skip(field_prefix().len() as int) == name);
}

/// The value of an event in the facets that every event has, under their names. An optional
/// text that is empty is no value.
pub proof fn lemma_facets_are_parts_of_events(event: LogEvent)
    ensures
        facet_value(event, "level"@) == Some(level_text(event.level)),
        facet_value(event, "source"@) == Some(event.source@),
        facet_value(event, "tag"@) == Some(tag_of(event.message@, event.subsystem@)),
        facet_value(event, "subsystem"@) == Some(event.subsystem@),
        facet_value(event, "event"@) == Some(event.event@),
        facet_value(event, "correlation"@) == Some(correlation_of(event)),
        facet_value(event, "app_session_id"@) == Some(event.app_session_id@),
        facet_value(event, "target"@) == given_text(event.target),
        facet_value(event, "playback_session_id"@) == given_text(event.playback_session_id),
        facet_value(event, "request_id"@) == given_text(event.request_id),
        facet_value(event, "session_id"@) == given_text(event.session_id),
        facet_value(event, "provider"@) == given_text(event.provider),
        facet_value(event, "status"@) == (match event.status {
            Some(status) => scalar_of(status),
            None => None,
        }),
{
    lemma_facet_name_names_facet(EventFacet::Level);
    lemma_facet_name_names_facet(EventFacet::Source);
    lemma_facet_name_names_facet(EventFacet::Tag);
    lemma_facet_name_names_facet(EventFacet::Subsystem);
    lemma_facet_name_names_facet(EventFacet::Target);
    lemma_facet_name_names_facet(EventFacet::Event);
    lemma_facet_name_names_facet(EventFacet::Correlation);
    lemma_facet_name_names_facet(EventFacet::AppSessionId);
    lemma_facet_name_names_facet(EventFacet::PlaybackSessionId);
    lemma_facet_name_names_facet(EventFacet::RequestId);
    lemma_facet_name_names_facet(EventFacet::SessionId);
    lemma_facet_name_names_facet(EventFacet::Provider);
    lemma_facet_name_names_facet(EventFacet::Status);
}

/// A text that is given and not empty.
pub open spec fn given_text(text: Option<String>) -> Option<Seq<char>> {
    if text is Some && text->0@.len() > 0 {
        Some(text->0@)
    } else {
        None
    }
}

/// Which levels a least level lets through.
pub proof fn lemma_least_level_and_above(level: Level)
    ensures
        level_allows(None, level),
        level_allows(Some(Level::Trace), level),
        level_allows(Some(Level::Debug), level) <==> level != Level::Trace,
        level_allows(Some(Level::Info), level) <==> level != Level::Trace && level != Level::Debug,
        level_allows(Some(Level::Warn), level) <==> level == Level::Warn || level == Level::Error
            || level == Level::Fatal,
        level_allows(Some(Level::Error), level) <==> level == Level::Error || level
            == Level::Fatal,
        level_allows(Some(Level::Fatal), level) <==> level == Level::Fatal,
{
}

/// What a filter lets through: events of the level that is asked for or a more severe one,
/// of the correlation that is asked for, whose value in each facet is one of those that are
/// asked for, where some are, and none of those that are ruled out.
pub proof fn lemma_filter_has_to_be_met(filter: FilterState, event: LogEvent)
    ensures
        facets_allow(filter, None, event) <==> {
            &&& filter.minimum_level is Some ==> severity_of(event.level) >= severity_of(
                filter.minimum_level->0,
            )
            &&& filter.correlation is Some ==> correlation_of(event) == filter.correlation->0@
            &&& forall|facet: Seq<char>| #[trigger]
                filter.facets@.contains_key(facet) ==> {
                    let selection = filter.facets@[facet];
                    let value = facet_value(event, facet);
                    &&& selection.included@ == Set::<Seq<char>>::empty() || value is Some
                        && selection.included@.contains(value->0)
                    &&& value is None || !selection.excluded@.contains(value->0)
                }
        },
{
    assert forall|facet: Seq<char>| #[trigger] filter.facets@.contains_key(facet) implies ({
        let selection = filter.facets@[facet];
        let value = facet_value(event, facet);
        selection_allows(selection, value) <==> {
            &&& selection.included@ == Set::<Seq<char>>::empty() || value is Some
                && selection.included@.contains(value->0)
            &&& value is None || !selection.excluded@.contains(value->0)
        }
    }) by {}
    if facets_allow(filter, None, event) {
        assert forall|facet: Seq<char>| #[trigger] filter.facets@.contains_key(facet) implies
            selection_allows(filter.facets@[facet], facet_value(event, facet)) by {}
    }
}

/// A filter is active where it asks for a value, rules one out, or asks for words, a level or
/// a correlation, and only there.
pub proof fn lemma_active_filter_asks_for_something(filter: FilterState)
    ensures
        filter_is_active(filter) <==> {
            ||| exists|facet: Seq<char>, value: Seq<char>|
                #![trigger filter.facets@[facet].included@.contains(value)]
                #![trigger filter.facets@[facet].excluded@.contains(value)]
                filter.facets@.contains_key(facet) && (
                filter.facets@[facet].included@.contains(value)
                    || filter.facets@[facet].excluded@.contains(value))
            ||| trimmed(filter.text@).len() > 0
            ||| filter.minimum_level is Some
            ||| filter.correlation is Some
        },
{
    if exists|facet: Seq<char>| #[trigger] facet_is_active(filter, facet) {
        let facet = choose|facet: Seq<char>| #[trigger] facet_is_active(filter, facet);
        let selection = filter.facets@[facet];
        if selection.included@ != Set::<Seq<char>>::empty() {
            assert(exists|value: Seq<char>| selection.included@.contains(value)) by {
                if forall|value: Seq<char>| !selection.included@.contains(value) {
                    assert(selection.included@ =~= Set::<Seq<char>>::empty());
                }
            }
        } else {
            assert(exists|value: Seq<char>| selection.excluded@.contains(value)) by {
                if forall|value: Seq<char>| !selection.excluded@.contains(value) {
                    assert(selection.excluded@ =~= Set::<Seq<char>>::empty());
                }
            }
        }
    }
    if exists|facet: Seq<char>, value: Seq<char>|
        #![trigger filter.facets@[facet].included@.contains(value)]
        #![trigger filter.facets@[facet].excluded@.contains(value)]
        filter.facets@.contains_key(facet) && (filter.facets@[facet].included@.contains(value)
            || filter.facets@[facet].excluded@.contains(value)) {
        let (facet, value) = choose|facet: Seq<char>, value: Seq<char>|
            #![trigger filter.facets@[facet].included@.contains(value)]
            #![trigger filter.facets@[facet].excluded@.contains(value)]
            filter.facets@.contains_key(facet) && (filter.facets@[facet].included@.contains(value)
                || filter.facets@[facet].excluded@.contains(value));
        assert(facet_is_active(filter, facet));
    }
}

}
