//! Stable sorting by pairs of integers.
use vstd::prelude::*;

verus! {

/// What an index is ordered by: the first number, and with the same first number
/// the second one.
#[derive(Clone, Copy, PartialEq, Eq, Structural)]
pub struct Rank {
    pub first: i128,
    pub second: i128,
}

/// Whether one rank is smaller than another.
pub open spec fn ranks_below(left: Rank, right: Rank) -> bool {
    left.first < right.first || (left.first == right.first && left.second < right.second)
}

/// Whether one index comes before another: by its rank, and with the same rank by
/// itself.
pub open spec fn comes_before(keys: Seq<Rank>, first: int, second: int) -> bool {
    ranks_below(keys[first], keys[second]) || (keys[first] == keys[second] && first < second)
}

/// Indexes in the order of their keys, those with the same key in their own.
pub open spec fn in_key_order(keys: Seq<Rank>, indexes: Seq<usize>) -> bool {
    forall|i: int, j: int|
        0 <= i < j < indexes.len() ==> comes_before(
            keys,
            #[trigger] indexes[i] as int,
            #[trigger] indexes[j] as int,
        )
}

/// Whether indexes are exactly those from one number up to another.
pub open spec fn covers(indexes: Seq<usize>, start: int, end: int) -> bool {
    &&& forall|i: int| 0 <= i < indexes.len() ==> start <= #[trigger] indexes[i] < end
    &&& forall|index: usize| start <= index < end ==> indexes.contains(index)
}

/// Whether one rank is smaller than another.
fn is_below(left: Rank, right: Rank) -> (result: bool)
    ensures
        result == ranks_below(left, right),
{
    left.first < right.first || (left.first == right.first && left.second < right.second)
}

/// Merges two runs of indexes in the order of their keys.
fn merge(keys: &Vec<Rank>, first: Vec<usize>, second: Vec<usize>, Ghost(start): Ghost<int>, Ghost(
    middle,
): Ghost<int>, Ghost(end): Ghost<int>) -> (merged: Vec<usize>)
    requires
        0 <= start <= middle <= end <= keys@.len(),
        covers(first@, start, middle),
        covers(second@, middle, end),
        in_key_order(keys@, first@),
        in_key_order(keys@, second@),
        first@.len() + second@.len() <= usize::MAX,
    ensures
        covers(merged@, start, end),
        in_key_order(keys@, merged@),
        merged@.len() == first@.len() + second@.len(),
{
    let mut merged: Vec<usize> = Vec::new();
    let mut left: usize = 0;
    let mut right: usize = 0;
    while left < first.len() || right < second.len()
        invariant
            0 <= start <= middle <= end <= keys@.len(),
            covers(first@, start, middle),
            covers(second@, middle, end),
            in_key_order(keys@, first@),
            in_key_order(keys@, second@),
            first@.len() + second@.len() <= usize::MAX,
            left <= first.len(),
            right <= second.len(),
            merged@.len() == left + right,
            in_key_order(keys@, merged@),
            forall|i: int| 0 <= i < merged@.len() ==> start <= #[trigger] merged@[i] < end,
            forall|i: int| 0 <= i < left ==> merged@.contains(#[trigger] first@[i]),
            forall|i: int| 0 <= i < right ==> merged@.contains(#[trigger] second@[i]),
            forall|i: int, j: int|
                0 <= i < merged@.len() && left <= j < first@.len() ==> comes_before(
                    keys@,
                    #[trigger] merged@[i] as int,
                    #[trigger] first@[j] as int,
                ),
            forall|i: int, j: int|
                0 <= i < merged@.len() && right <= j < second@.len() ==> comes_before(
                    keys@,
                    #[trigger] merged@[i] as int,
                    #[trigger] second@[j] as int,
                ),
        decreases (first.len() - left) + (second.len() - right),
    {
        let take_left = right >= second.len() || (left < first.len() && !is_below(
            keys[second[right]],
            keys[first[left]],
        ));
        let ghost before = merged@;
        if take_left {
            let next: usize = first[left];
            merged.push(next);
            proof {
                assert(merged@[before.len() as int] == next);
                assert forall|index: usize| before.contains(index) implies merged@.contains(
                    index,
                ) by {
                    let k = choose|k: int| 0 <= k < before.len() && before[k] == index;
                    assert(merged@[k] == index);
                }
            }
            left += 1;
        } else {
            let next: usize = second[right];
            merged.push(next);
            proof {
                assert(merged@[before.len() as int] == next);
                assert forall|index: usize| before.contains(index) implies merged@.contains(
                    index,
                ) by {
                    let k = choose|k: int| 0 <= k < before.len() && before[k] == index;
                    assert(merged@[k] == index);
                }
            }
            right += 1;
        }
    }
    proof {
        assert forall|index: usize| start <= index < end implies merged@.contains(index) by {
            if index < middle {
                assert(first@.contains(index));
                let k = choose|k: int| 0 <= k < first@.len() && first@[k] == index;
                assert(merged@.contains(first@[k]));
            } else {
                assert(second@.contains(index));
                let k = choose|k: int| 0 <= k < second@.len() && second@[k] == index;
                assert(merged@.contains(second@[k]));
            }
        }
    }
    merged
}

/// The indexes from `start` up to `end` in the order of their keys.
fn order_between(keys: &Vec<Rank>, start: usize, end: usize) -> (indexes: Vec<usize>)
    requires
        start <= end <= keys@.len(),
    ensures
        covers(indexes@, start as int, end as int),
        in_key_order(keys@, indexes@),
        indexes@.len() == end - start,
    decreases end - start,
{
    if end - start <= 1 {
        let mut indexes: Vec<usize> = Vec::new();
        if start < end {
            indexes.push(start);
            assert(indexes@[0] == start);
            assert forall|index: usize| start <= index < end implies indexes@.contains(index) by {
                assert(indexes@[0] == index);
            }
        }
        return indexes;
    }
    let middle: usize = start + (end - start) / 2;
    let first = order_between(keys, start, middle);
    let second = order_between(keys, middle, end);
    merge(keys, first, second, Ghost(start as int), Ghost(middle as int), Ghost(end as int))
}

/// The indexes of some keys in the order of the keys; indexes with the same key
/// keep their order.
pub fn stable_order(keys: &Vec<Rank>) -> (indexes: Vec<usize>)
    ensures
        covers(indexes@, 0, keys@.len() as int),
        in_key_order(keys@, indexes@),
        indexes@.len() == keys@.len(),
{
    order_between(keys, 0, keys.len())
}

/// Keys in order: none stands behind a greater one, equal keys stay in the order in which they
/// were given, and each has its place.
pub proof fn lemma_keys_are_sorted(
    keys: Vec<Rank>,
    indexes: Vec<usize>,
    upper: int,
    lower: int,
    given: usize,
)
    requires
        call_ensures(stable_order, (&keys,), indexes),
        0 <= upper < lower < indexes@.len(),
        given < keys@.len(),
    ensures
        ({
            let first = keys@[indexes@[upper] as int];
            let second = keys@[indexes@[lower] as int];
            &&& first.first <= second.first
            &&& first.first == second.first ==> first.second <= second.second
            &&& first.first == second.first && first.second == second.second ==> indexes@[upper]
                < indexes@[lower]
        }),
        indexes@.len() == keys@.len(),
        indexes@.contains(given),
{
}

}
