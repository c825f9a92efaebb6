//! Events that are pinned, with notes.
use vstd::prelude::*;

use crate::sorting::{comes_before, covers, in_key_order, stable_order, Rank};
use crate::text::same;
use crate::time::{is_instant, Timestamp};

verus! {

/// A pinned event: its fingerprint, a note, its record, and its time where the
/// record can be read.
#[derive(Debug, PartialEq, Eq)]
pub struct PinnedEvent {
    pub key: String,
    pub note: String,
    pub event_json: String,
    pub timestamp: Option<Timestamp>,
}

/// A pinned event.
#[verifier::ext_equal]
pub struct PinModel {
    pub key: Seq<char>,
    pub note: Seq<char>,
    pub event_json: Seq<char>,
    pub timestamp: Option<Timestamp>,
}

impl View for PinnedEvent {
    type V = PinModel;

    open spec fn view(&self) -> PinModel {
        PinModel {
            key: self.key@,
            note: self.note@,
            event_json: self.event_json@,
            timestamp: self.timestamp,
        }
    }
}

/// The views of pinned events.
pub open spec fn pin_views(pins: Seq<PinnedEvent>) -> Seq<PinModel> {
    pins.map_values(|pin: PinnedEvent| pin@)
}

/// What a pinned event is ordered by: those without a time come first, the others
/// by their times.
pub open spec fn pin_rank(timestamp: Option<Timestamp>) -> Rank {
    match timestamp {
        Some(time) => Rank {
            first: 1,
            second: (time.seconds() * 0x1_0000_0000 + time.nanos()) as i128,
        },
        None => Rank { first: 0, second: 0 },
    }
}

/// What pinned events are ordered by.
pub open spec fn pin_ranks(pins: Seq<PinModel>) -> Seq<Rank> {
    pins.map_values(|pin: PinModel| pin_rank(pin.timestamp))
}

/// Whether a list is another one in an order of its places.
pub open spec fn is_reordered(
    before: Seq<PinModel>,
    order: Seq<usize>,
    after: Seq<PinModel>,
) -> bool {
    &&& covers(order, 0, before.len() as int)
    &&& in_key_order(pin_ranks(before), order)
    &&& order.len() == before.len()
    &&& after.len() == before.len()
    &&& forall|i: int| 0 <= i < after.len() ==> #[trigger] after[i] == before[order[i] as int]
}

/// Whether a list is another one in the order of the times; those with the same
/// time keep their order.
pub open spec fn is_in_time_order(before: Seq<PinModel>, after: Seq<PinModel>) -> bool {
    exists|order: Seq<usize>| #[trigger] is_reordered(before, order, after)
}

/// Where an event is pinned, or how many are.
pub open spec fn pin_place(pins: Seq<PinModel>, key: Seq<char>) -> int
    decreases pins.len(),
{
    if pins.len() == 0 || pins[0].key == key {
        0
    } else {
        1 + pin_place(pins.drop_first(), key)
    }
}

/// Where an event is pinned.
pub fn position_of_pin(pins: &Vec<PinnedEvent>, key: &str) -> (place: Option<usize>)
    ensures
        match place {
            Some(place) => place == pin_place(pin_views(pins@), key@) && place < pins@.len()
                && pins@[place as int].key@ == key@,
            None => pin_place(pin_views(pins@), key@) == pins@.len(),
        },
{
    let ghost all = pin_views(pins@);
    let mut index: usize = 0;
    assert(all.skip(0) == all);
    while index < pins.len()
        invariant
            index <= pins.len(),
            all == pin_views(pins@),
            pin_place(all, key@) == index + pin_place(all.skip(index as int), key@),
        decreases pins.len() - index,
    {
        assert(all.skip(index as int)[0] == pins@[index as int]@);
        assert(all.skip(index as int).drop_first() == all.skip(index + 1));
        if same(pins[index].key.as_str(), key) {
            return Some(index);
        }
        index += 1;
    }
    None
}

/// A number that orders instants.
fn instant_number(instant: Timestamp) -> (number: i128)
    ensures
        number == instant.seconds() * 0x1_0000_0000 + instant.nanos(),
{
    let (seconds, nanos) = instant.parts();
    (seconds as i128) * 0x1_0000_0000 + nanos as i128
}

impl PinnedEvent {
    /// What the event is ordered by.
    fn rank(&self) -> (rank: Rank)
        ensures
            rank == pin_rank(self.timestamp),
    {
        match self.timestamp {
            Some(time) => Rank { first: 1, second: instant_number(time) },
            None => Rank { first: 0, second: 0 },
        }
    }
}

impl Clone for PinnedEvent {
    fn clone(&self) -> (copy: Self)
        ensures
            copy@ == self@,
    {
        PinnedEvent {
            key: self.key.clone(),
            note: self.note.clone(),
            event_json: self.event_json.clone(),
            timestamp: self.timestamp,
        }
    }
}

/// Puts pinned events in the order of their times.
fn sort_pins(pins: &mut Vec<PinnedEvent>)
    ensures
        is_in_time_order(pin_views(old(pins)@), pin_views(final(pins)@)),
{
    let ghost before = pin_views(pins@);
    let mut keys: Vec<Rank> = Vec::new();
    let mut index: usize = 0;
    while index < pins.len()
        invariant
            index <= pins.len(),
            before == pin_views(pins@),
            *pins == *old(pins),
            keys@ == pin_ranks(before).take(index as int),
        decreases pins.len() - index,
    {
        assert(before[index as int] == pins@[index as int]@);
        keys.push(pins[index].rank());
        assert(keys@ == pin_ranks(before).take(index + 1));
        index += 1;
    }
    assert(pin_ranks(before).take(index as int) == pin_ranks(before));
    let order = stable_order(&keys);
    let mut sorted: Vec<PinnedEvent> = Vec::new();
    let mut place: usize = 0;
    while place < order.len()
        invariant
            place <= order.len(),
            before == pin_views(pins@),
            *pins == *old(pins),
            covers(order@, 0, before.len() as int),
            sorted@.len() == place,
            forall|i: int|
                0 <= i < place ==> (#[trigger] sorted@[i])@ == before[order@[i] as int],
        decreases order.len() - place,
    {
        let source: usize = order[place];
        assert(before[source as int] == pins@[source as int]@);
        sorted.push(pins[source].clone());
        place += 1;
    }
    assert(is_reordered(before, order@, pin_views(sorted@)));
    *pins = sorted;
}

/// Pins an event, or takes the pin of an event that is pinned away. The pinned
/// events stand in the order of their times.
pub fn toggle_pin(pins: &mut Vec<PinnedEvent>, pin: PinnedEvent) -> (pinned: bool)
    ensures
        ({
            let before = pin_views(old(pins)@);
            let after = pin_views(final(pins)@);
            let place = pin_place(before, pin@.key);
            &&& pinned == (place == before.len())
            &&& if pinned {
                is_in_time_order(before.push(pin@), after)
            } else {
                after == before.remove(place)
            }
        }),
{
    let ghost before = pin_views(pins@);
    match position_of_pin(pins, pin.key.as_str()) {
        Some(place) => {
            let removed = pins.remove(place);
            assert(pin_views(pins@) == before.remove(place as int));
            false
        },
        None => {
            pins.push(pin);
            assert(pin_views(pins@) == before.push(pin@));
            sort_pins(pins);
            true
        },
    }
}

/// Changes the note of a pinned event.
pub fn set_note(pins: &mut Vec<PinnedEvent>, key: &str, note: String)
    ensures
        ({
            let before = pin_views(old(pins)@);
            let after = pin_views(final(pins)@);
            let place = pin_place(before, key@);
            after == if place < before.len() {
                before.update(place, PinModel { note: note@, ..before[place] })
            } else {
                before
            }
        }),
{
    let ghost before = pin_views(pins@);
    if let Some(place) = position_of_pin(pins, key) {
        let mut pin = pins[place].clone();
        assert(pin@ == before[place as int]);
        pin.note = note;
        pins.set(place, pin);
        assert(pin_views(pins@) == before.update(place as int, pin@));
    }
}

/// Pinned events keep the pins of all events but one when it is pinned: none is
/// lost.
pub proof fn lemma_sorting_keeps_pins(before: Seq<PinModel>, after: Seq<PinModel>, pin: PinModel)
    requires
        is_in_time_order(before, after),
        before.len() <= usize::MAX,
    ensures
        before.contains(pin) <==> after.contains(pin),
{
    let order = choose|order: Seq<usize>| #[trigger] is_reordered(before, order, after);
    if before.contains(pin) {
        let k = choose|k: int| 0 <= k < before.len() && before[k] == pin;
        assert(order.contains(k as usize));
        let i = choose|i: int| 0 <= i < order.len() && order[i] == k as usize;
        assert(after[i] == pin);
    }
    if after.contains(pin) {
        let i = choose|i: int| 0 <= i < after.len() && after[i] == pin;
        assert(before[order[i] as int] == pin);
    }
}

/// Pinned events stand in the order of their times, those without a time first.
pub proof fn lemma_pins_stand_in_time_order(
    before: Seq<PinModel>,
    after: Seq<PinModel>,
    first: int,
    second: int,
)
    requires
        is_in_time_order(before, after),
        0 <= first < second < after.len(),
        forall|i: int|
            0 <= i < before.len() ==> ((#[trigger] before[i]).timestamp matches Some(time)
                ==> is_instant(time.seconds(), time.nanos())),
    ensures
        after.len() == before.len(),
        after[second].timestamp is None ==> after[first].timestamp is None,
        after[first].timestamp is Some && after[second].timestamp is Some ==> !(
        after[second].timestamp->0).before(after[first].timestamp->0),
{
    let order = choose|order: Seq<usize>| #[trigger] is_reordered(before, order, after);
    let (left, right) = (order[first] as int, order[second] as int);
    assert(after[first] == before[left]);
    assert(after[second] == before[right]);
    let ranks = pin_ranks(before);
    assert(comes_before(ranks, order[first] as int, order[second] as int));
    assert(ranks[left] == pin_rank(before[left].timestamp));
    assert(ranks[right] == pin_rank(before[right].timestamp));
}

/// An event is pinned where a pin has its key: the first one with it is its place.
pub proof fn lemma_pins_are_found_by_key(pins: Seq<PinModel>, key: Seq<char>)
    ensures
        0 <= pin_place(pins, key) <= pins.len(),
        pin_place(pins, key) < pins.len() <==> exists|i: int|
            0 <= i < pins.len() && (#[trigger] pins[i]).key == key,
        pin_place(pins, key) < pins.len() ==> pins[pin_place(pins, key)].key == key,
        forall|i: int| 0 <= i < pin_place(pins, key) ==> (#[trigger] pins[i]).key != key,
    decreases pins.len(),
{
    if pins.len() > 0 && pins[0].key != key {
        let rest = pins.drop_first();
        lemma_pins_are_found_by_key(rest, key);
        let place = pin_place(rest, key);
        if exists|i: int| 0 <= i < pins.len() && (#[trigger] pins[i]).key == key {
            let i = choose|i: int| 0 <= i < pins.len() && (#[trigger] pins[i]).key == key;
            assert(rest[i - 1].key == key);
        }
        if place < rest.len() {
            assert(pins[place + 1] == rest[place]);
        }
        assert forall|i: int| 0 <= i < pin_place(pins, key) implies (#[trigger] pins[i]).key
            != key by {
            if i > 0 {
                assert(rest[i - 1] == pins[i]);
            }
        }
    } else if pins.len() > 0 {
        assert(pins[0].key == key);
    }
}

}
