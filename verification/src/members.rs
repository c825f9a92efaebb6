//! Objects whose members stand in the order of their names, each name once.
use vstd::prelude::*;

use crate::json::{compact, compact_items, compact_members, same_value, JsonValue};
use crate::ordered::{increasing, lemma_increasing_no_duplicates, TextMap};
use crate::scope::lemma_one_order;

verus! {

/// The names of members.
pub open spec fn names_of(members: Seq<(String, JsonValue)>) -> Seq<Seq<char>> {
    members.map_values(|member: (String, JsonValue)| member.0@)
}

/// Whether the members of every object inside a value stand in the order of their names,
/// each name once.
pub open spec fn is_arranged(value: JsonValue) -> bool
    decreases value,
{
    match value {
        JsonValue::Array(items) => forall|i: int|
            0 <= i < items@.len() ==> is_arranged(#[trigger] items@[i]),
        JsonValue::Object(members) => {
            &&& increasing(names_of(members@))
            &&& forall|i: int| 0 <= i < members@.len() ==> is_arranged((#[trigger] members@[i]).1)
        },
        _ => true,
    }
}

/// Whether no later member has the name of one.
pub open spec fn is_last(members: Seq<(String, JsonValue)>, place: int) -> bool {
    forall|later: int|
        place < later < members.len() ==> (#[trigger] members[later]).0@ != members[place].0@
}

/// Whether a value is another one with the members of its objects in the order of their
/// names, where of members with one name the last is kept.
pub open spec fn arranges(given: JsonValue, result: JsonValue) -> bool
    decreases given,
{
    match (given, result) {
        (JsonValue::Array(items), JsonValue::Array(arranged)) => {
            &&& items@.len() == arranged@.len()
            &&& forall|i: int|
                0 <= i < items@.len() ==> arranges(#[trigger] items@[i], arranged@[i])
        },
        (JsonValue::Object(members), JsonValue::Object(kept)) => {
            &&& increasing(names_of(kept@))
            &&& names_of(kept@).to_set() == names_of(members@).to_set()
            &&& forall|i: int, j: int|
                0 <= i < members@.len() && 0 <= j < kept@.len() && is_last(members@, i)
                    && members@[i].0@ == kept@[j].0@ ==> arranges(
                    (#[trigger] members@[i]).1,
                    (#[trigger] kept@[j]).1,
                )
        },
        (JsonValue::Array(_), _) | (JsonValue::Object(_), _) => false,
        _ => same_value(given, result),
    }
}

/// Whether a map holds the value of each name among members, of members with one name the
/// last, with the members of its objects in order.
pub open spec fn gathers(
    members: Seq<(String, JsonValue)>,
    map: Map<Seq<char>, JsonValue>,
) -> bool {
    &&& map.dom() == names_of(members).to_set()
    &&& forall|i: int|
        0 <= i < members.len() && is_last(members, i) ==> arranges(
            (#[trigger] members[i]).1,
            map[members[i].0@],
        )
}

/// A map of members still gathers them once it has taken one more.
proof fn lemma_gathers_more(
    members: Seq<(String, JsonValue)>,
    map: Map<Seq<char>, JsonValue>,
    member: (String, JsonValue),
    value: JsonValue,
)
    requires
        gathers(members, map),
        arranges(member.1, value),
    ensures
        gathers(members.push(member), map.insert(member.0@, value)),
{
    let more = members.push(member);
    let names = names_of(members);
    assert(names_of(more) == names.push(member.0@));
    assert forall|name: Seq<char>| #[trigger] names.push(member.0@).to_set().contains(name)
        <==> names.to_set().insert(member.0@).contains(name) by {
        if names.contains(name) {
            let i = names.index_of(name);
            assert(names.push(member.0@)[i] == name);
        }
        assert(names.push(member.0@)[names.len() as int] == member.0@);
    }
    assert(names.push(member.0@).to_set() =~= names.to_set().insert(member.0@));
    let after = map.insert(member.0@, value);
    assert(after.dom() =~= names_of(more).to_set());
    assert forall|i: int| 0 <= i < more.len() && is_last(more, i) implies arranges(
        (#[trigger] more[i]).1,
        after[more[i].0@],
    ) by {
        if i < members.len() {
            assert(more[members.len() as int].0@ != more[i].0@);
            assert(is_last(members, i)) by {
                assert forall|later: int| i < later < members.len() implies (
                #[trigger] members[later]).0@ != members[i].0@ by {
                    assert(more[later].0@ != more[i].0@);
                }
            }
            assert(members[i] == more[i]);
        }
    }
}

/// A value with the members of its objects in the order of their names, of members with
/// one name the last.
pub fn arranged(value: &JsonValue) -> (result: JsonValue)
    ensures
        arranges(*value, result),
    decreases value,
{
    match value {
        JsonValue::Null => JsonValue::Null,
        JsonValue::Bool(flag) => JsonValue::Bool(*flag),
        JsonValue::Number(number) => JsonValue::Number(number.clone()),
        JsonValue::String(text) => JsonValue::String(text.clone()),
        JsonValue::Array(items) => {
            let mut results: Vec<JsonValue> = Vec::new();
            let mut index: usize = 0;
            while index < items.len()
                invariant
                    index <= items.len(),
                    *value == JsonValue::Array(*items),
                    results@.len() == index,
                    forall|i: int|
                        0 <= i < index ==> arranges(#[trigger] items@[i], results@[i]),
                decreases items.len() - index,
            {
                proof {
                    assert(decreases_to!(value => value->Array_0));
                    assert(decreases_to!(*items => items@));
                    assert(decreases_to!(items@ => items@[index as int]));
                }
                results.push(arranged(&items[index]));
                index += 1;
            }
            JsonValue::Array(results)
        },
        JsonValue::Object(members) => {
            proof {
                assert(decreases_to!(value => value->Object_0));
                assert(decreases_to!(*members => members@));
            }
            let gathered = gathered(members);
            let ghost map = gathered@;
            let ghost order = gathered.ordered();
            let kept = gathered.into_entries();
            proof {
                assert(names_of(kept@) =~= order);
                assert forall|i: int, j: int|
                    0 <= i < members@.len() && 0 <= j < kept@.len() && is_last(members@, i)
                        && members@[i].0@ == kept@[j].0@ implies arranges(
                    (#[trigger] members@[i]).1,
                    (#[trigger] kept@[j]).1,
                ) by {
                    assert(kept@[j].1 == map[order[j]]);
                }
            }
            JsonValue::Object(kept)
        },
    }
}

/// The values of members by their names, of members with one name the last, with the
/// members of their objects in order.
pub fn gathered(members: &Vec<(String, JsonValue)>) -> (result: TextMap<JsonValue>)
    ensures
        gathers(members@, result@),
    decreases members@,
{
    let mut result: TextMap<JsonValue> = TextMap::new();
    let mut index: usize = 0;
    assert(gathers(members@.take(0), result@)) by {
        assert(names_of(members@.take(0)).to_set() =~= Set::<Seq<char>>::empty());
        assert(result@.dom() =~= Set::<Seq<char>>::empty());
    }
    while index < members.len()
        invariant
            index <= members.len(),
            gathers(members@.take(index as int), result@),
        decreases members.len() - index,
    {
        proof {
            assert(decreases_to!(members@ => members@[index as int]));
            assert(decreases_to!(members@[index as int] => members@[index as int].1));
        }
        let value = arranged(&members[index].1);
        proof {
            lemma_gathers_more(
                members@.take(index as int),
                result@,
                members@[index as int],
                value,
            );
            assert(members@.take(index as int).push(members@[index as int]) =~= members@.take(
                index + 1,
            ));
        }
        result.insert(members[index].0.clone(), value);
        index += 1;
    }
    assert(members@.take(index as int) =~= members@);
    result
}

/// Among members with a name one is the last.
proof fn lemma_last_place(members: Seq<(String, JsonValue)>, name: Seq<char>) -> (place: int)
    requires
        names_of(members).contains(name),
    ensures
        0 <= place < members.len(),
        members[place].0@ == name,
        is_last(members, place),
    decreases members.len(),
{
    let names = names_of(members);
    let found = names.index_of(name);
    assert(members[found].0@ == name);
    if members.last().0@ == name {
        members.len() - 1
    } else {
        let shorter = members.drop_last();
        assert(names_of(shorter)[found] == name);
        let place = lemma_last_place(shorter, name);
        assert forall|later: int| place < later < members.len() implies (
        #[trigger] members[later]).0@ != members[place].0@ by {
            if later < shorter.len() {
                assert(shorter[later].0@ != shorter[place].0@);
            }
        }
        place
    }
}

/// A name that stands among some members stands among others.
proof fn lemma_shared_name(
    members: Seq<(String, JsonValue)>,
    others: Seq<(String, JsonValue)>,
    place: int,
)
    requires
        names_of(members).to_set() == names_of(others).to_set(),
        0 <= place < members.len(),
    ensures
        names_of(others).contains(members[place].0@),
{
    assert(names_of(members)[place] == members[place].0@);
    assert(names_of(members).to_set().contains(members[place].0@));
}

/// What is brought into order is in order.
pub proof fn lemma_arranged_is_in_order(given: JsonValue, result: JsonValue)
    requires
        arranges(given, result),
    ensures
        is_arranged(result),
    decreases given,
{
    match (given, result) {
        (JsonValue::Array(items), JsonValue::Array(arranged)) => {
            assert forall|i: int| 0 <= i < arranged@.len() implies is_arranged(
                #[trigger] arranged@[i],
            ) by {
                assert(arranges(items@[i], arranged@[i]));
                lemma_arranged_is_in_order(items@[i], arranged@[i]);
            }
        },
        (JsonValue::Object(members), JsonValue::Object(kept)) => {
            assert forall|j: int| 0 <= j < kept@.len() implies is_arranged(
                (#[trigger] kept@[j]).1,
            ) by {
                lemma_shared_name(kept@, members@, j);
                let i = lemma_last_place(members@, kept@[j].0@);
                assert(arranges(members@[i].1, kept@[j].1));
                lemma_arranged_is_in_order(members@[i].1, kept@[j].1);
            }
        },
        _ => {},
    }
}

/// Members in order are listed in one way.
proof fn lemma_same_names(left: Seq<(String, JsonValue)>, right: Seq<(String, JsonValue)>)
    requires
        increasing(names_of(left)),
        increasing(names_of(right)),
        names_of(left).to_set() == names_of(right).to_set(),
    ensures
        left.len() == right.len(),
        forall|i: int| 0 <= i < left.len() ==> (#[trigger] left[i]).0@ == right[i].0@,
        forall|i: int| 0 <= i < left.len() ==> #[trigger] is_last(left, i),
{
    lemma_one_order(names_of(left), names_of(right));
    lemma_increasing_no_duplicates(names_of(left));
    assert(names_of(left).len() == left.len());
    assert(names_of(right).len() == right.len());
    assert forall|i: int| 0 <= i < left.len() implies (#[trigger] left[i]).0@ == right[i].0@ by {
        assert(names_of(left)[i] == names_of(right)[i]);
    }
    assert forall|i: int| 0 <= i < left.len() implies #[trigger] is_last(left, i) by {
        assert forall|later: int| i < later < left.len() implies (#[trigger] left[later]).0@
            != left[i].0@ by {
            assert(names_of(left)[later] != names_of(left)[i]);
        }
    }
}

/// There is one way to bring a value into order.
pub proof fn lemma_one_arrangement(given: JsonValue, left: JsonValue, right: JsonValue)
    requires
        arranges(given, left),
        arranges(given, right),
    ensures
        same_value(left, right),
    decreases given,
{
    match (given, left, right) {
        (JsonValue::Array(items), JsonValue::Array(first), JsonValue::Array(second)) => {
            assert forall|i: int| 0 <= i < first@.len() implies same_value(
                #[trigger] first@[i],
                second@[i],
            ) by {
                assert(arranges(items@[i], first@[i]));
                lemma_one_arrangement(items@[i], first@[i], second@[i]);
            }
        },
        (JsonValue::Object(members), JsonValue::Object(first), JsonValue::Object(second)) => {
            lemma_same_names(first@, second@);
            assert forall|j: int| 0 <= j < first@.len() implies (#[trigger] first@[j]).0@
                == second@[j].0@ && same_value(first@[j].1, second@[j].1) by {
                lemma_shared_name(first@, members@, j);
                let i = lemma_last_place(members@, first@[j].0@);
                assert(arranges(members@[i].1, first@[j].1));
                assert(arranges(members@[i].1, second@[j].1));
                lemma_one_arrangement(members@[i].1, first@[j].1, second@[j].1);
            }
        },
        _ => {},
    }
}

/// A value whose objects are in order stays as it is.
pub proof fn lemma_arranged_stays(given: JsonValue, result: JsonValue)
    requires
        is_arranged(given),
        arranges(given, result),
    ensures
        same_value(given, result),
    decreases given,
{
    match (given, result) {
        (JsonValue::Array(items), JsonValue::Array(arranged)) => {
            assert forall|i: int| 0 <= i < items@.len() implies same_value(
                #[trigger] items@[i],
                arranged@[i],
            ) by {
                lemma_arranged_stays(items@[i], arranged@[i]);
            }
        },
        (JsonValue::Object(members), JsonValue::Object(kept)) => {
            lemma_same_names(members@, kept@);
            assert forall|i: int| 0 <= i < members@.len() implies (#[trigger] members@[i]).0@
                == kept@[i].0@ && same_value(members@[i].1, kept@[i].1) by {
                assert(is_last(members@, i));
                assert(arranges(members@[i].1, kept@[i].1));
                lemma_arranged_stays(members@[i].1, kept@[i].1);
            }
        },
        _ => {},
    }
}

/// Values that are the same have the same text.
pub proof fn lemma_same_values_have_one_text(left: JsonValue, right: JsonValue)
    requires
        same_value(left, right),
    ensures
        compact(left) == compact(right),
    decreases left,
{
    match (left, right) {
        (JsonValue::Array(first), JsonValue::Array(second)) => {
            lemma_same_items_have_one_text(first@, second@);
        },
        (JsonValue::Object(first), JsonValue::Object(second)) => {
            lemma_same_members_have_one_text(first@, second@);
        },
        _ => {},
    }
}

proof fn lemma_same_items_have_one_text(left: Seq<JsonValue>, right: Seq<JsonValue>)
    requires
        left.len() == right.len(),
        forall|i: int| 0 <= i < left.len() ==> same_value(#[trigger] left[i], right[i]),
    ensures
        compact_items(left) == compact_items(right),
    decreases left,
{
    if left.len() == 1 {
        lemma_same_values_have_one_text(left[0], right[0]);
    } else if left.len() > 1 {
        lemma_same_items_have_one_text(left.drop_last(), right.drop_last());
        lemma_same_values_have_one_text(left.last(), right.last());
    }
}

proof fn lemma_same_members_have_one_text(
    left: Seq<(String, JsonValue)>,
    right: Seq<(String, JsonValue)>,
)
    requires
        left.len() == right.len(),
        forall|i: int|
            0 <= i < left.len() ==> (#[trigger] left[i]).0@ == right[i].0@ && same_value(
                left[i].1,
                right[i].1,
            ),
    ensures
        compact_members(left) == compact_members(right),
    decreases left,
{
    if left.len() == 1 {
        lemma_same_values_have_one_text(left[0].1, right[0].1);
    } else if left.len() > 1 {
        lemma_same_members_have_one_text(left.drop_last(), right.drop_last());
        lemma_same_values_have_one_text(left.last().1, right.last().1);
    }
}

/// The values that are gathered from members are in order.
pub proof fn lemma_gathered_is_in_order(
    members: Seq<(String, JsonValue)>,
    map: Map<Seq<char>, JsonValue>,
)
    requires
        gathers(members, map),
    ensures
        forall|name: Seq<char>| #[trigger] map.contains_key(name) ==> is_arranged(map[name]),
{
    assert forall|name: Seq<char>| #[trigger] map.contains_key(name) implies is_arranged(
        map[name],
    ) by {
        assert(names_of(members).to_set().contains(name));
        let place = lemma_last_place(members, name);
        assert(arranges(members[place].1, map[members[place].0@]));
        lemma_arranged_is_in_order(members[place].1, map[name]);
    }
}

}
