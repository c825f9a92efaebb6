//! Sets and maps whose elements and keys are texts, kept in increasing order.
use vstd::prelude::*;

use crate::text::{chars_of, views};

verus! {

/// The order of texts: by the first character that differs, a text before its
/// own extensions.
pub open spec fn text_less(left: Seq<char>, right: Seq<char>) -> bool
    decreases left.len(),
{
    if right.len() == 0 {
        false
    } else if left.len() == 0 {
        true
    } else if left[0] != right[0] {
        left[0] < right[0]
    } else {
        text_less(left.drop_first(), right.drop_first())
    }
}

/// No text comes before itself.
pub proof fn lemma_text_less_irreflexive(text: Seq<char>)
    ensures
        !text_less(text, text),
    decreases text.len(),
{
    if text.len() > 0 {
        lemma_text_less_irreflexive(text.drop_first());
    }
}

/// The order of texts is transitive.
pub proof fn lemma_text_less_transitive(first: Seq<char>, second: Seq<char>, third: Seq<char>)
    requires
        text_less(first, second),
        text_less(second, third),
    ensures
        text_less(first, third),
    decreases first.len(),
{
    if first.len() > 0 && first[0] == second[0] && second[0] == third[0] {
        lemma_text_less_transitive(first.drop_first(), second.drop_first(), third.drop_first());
    }
}

/// Of two different texts one comes before the other.
pub proof fn lemma_text_less_total(left: Seq<char>, right: Seq<char>)
    ensures
        left == right || text_less(left, right) || text_less(right, left),
    decreases left.len(),
{
    if left.len() > 0 && right.len() > 0 && left[0] == right[0] {
        lemma_text_less_total(left.drop_first(), right.drop_first());
        if left.drop_first() == right.drop_first() {
            assert(left == seq![left[0]] + left.drop_first());
            assert(right == seq![right[0]] + right.drop_first());
        }
    } else if left.len() == 0 && right.len() == 0 {
        assert(left == right);
    }
}

/// Not both of two texts come before the other.
pub proof fn lemma_text_less_asymmetric(left: Seq<char>, right: Seq<char>)
    requires
        text_less(left, right),
    ensures
        !text_less(right, left),
        left != right,
{
    if text_less(right, left) {
        lemma_text_less_transitive(left, right, left);
    }
    lemma_text_less_irreflexive(left);
}

/// Texts in strictly increasing order.
pub open spec fn increasing(texts: Seq<Seq<char>>) -> bool {
    forall|i: int, j: int| 0 <= i < j < texts.len() ==> text_less(texts[i], texts[j])
}

/// How one text stands to another.
#[derive(Clone, Copy, PartialEq, Eq, Structural)]
pub enum Placement {
    Before,
    Same,
    After,
}

/// How one text stands to another in the order of texts.
pub fn place(left: &str, right: &str) -> (placement: Placement)
    ensures
        match placement {
            Placement::Before => text_less(left@, right@),
            Placement::Same => left@ == right@,
            Placement::After => text_less(right@, left@),
        },
{
    let first = chars_of(left);
    let second = chars_of(right);
    let mut index: usize = 0;
    assert(first@.skip(0) == first@);
    assert(second@.skip(0) == second@);
    while index < first.len() && index < second.len()
        invariant
            index <= first.len(),
            index <= second.len(),
            first@ == left@,
            second@ == right@,
            first@.take(index as int) == second@.take(index as int),
            text_less(first@, second@) == text_less(
                first@.skip(index as int),
                second@.skip(index as int),
            ),
            text_less(second@, first@) == text_less(
                second@.skip(index as int),
                first@.skip(index as int),
            ),
        decreases first.len() - index,
    {
        if first[index] != second[index] {
            return if first[index] < second[index] {
                Placement::Before
            } else {
                Placement::After
            };
        }
        assert(first@.skip(index as int).drop_first() == first@.skip(index + 1));
        assert(second@.skip(index as int).drop_first() == second@.skip(index + 1));
        assert(first@.take(index + 1) == first@.take(index as int).push(first@[index as int]));
        assert(second@.take(index + 1) == second@.take(index as int).push(second@[index as int]));
        index += 1;
    }
    if first.len() < second.len() {
        Placement::Before
    } else if first.len() > second.len() {
        Placement::After
    } else {
        assert(first@ == first@.take(index as int));
        assert(second@ == second@.take(index as int));
        Placement::Same
    }
}

/// Where a text stands, or belongs, among texts in increasing order.
fn position_of(items: &Vec<String>, text: &str) -> (result: (bool, usize))
    requires
        increasing(views(items@)),
    ensures
        result.1 <= items@.len(),
        result.0 == views(items@).contains(text@),
        result.0 ==> result.1 < items@.len() && items@[result.1 as int]@ == text@,
        forall|i: int| 0 <= i < result.1 ==> text_less(#[trigger] items@[i]@, text@),
        forall|i: int|
            result.1 <= i < items@.len() && (result.0 ==> i != result.1) ==> text_less(
                text@,
                #[trigger] items@[i]@,
            ),
{
    let ghost texts = views(items@);
    let mut low: usize = 0;
    let mut high: usize = items.len();
    while low < high
        invariant
            low <= high <= items@.len(),
            texts == views(items@),
            increasing(texts),
            forall|i: int| 0 <= i < low ==> text_less(#[trigger] items@[i]@, text@),
            forall|i: int| high <= i < items@.len() ==> text_less(text@, #[trigger] items@[i]@),
        decreases high - low,
    {
        let middle: usize = low + (high - low) / 2;
        match place(items[middle].as_str(), text) {
            Placement::Before => {
                assert forall|i: int| 0 <= i <= middle implies text_less(
                    #[trigger] items@[i]@,
                    text@,
                ) by {
                    if i < middle {
                        assert(text_less(texts[i], texts[middle as int]));
                        lemma_text_less_transitive(texts[i], texts[middle as int], text@);
                    }
                }
                low = middle + 1;
            },
            Placement::After => {
                assert forall|i: int| middle <= i < items@.len() implies text_less(
                    text@,
                    #[trigger] items@[i]@,
                ) by {
                    if middle < i {
                        assert(text_less(texts[middle as int], texts[i]));
                        lemma_text_less_transitive(text@, texts[middle as int], texts[i]);
                    }
                }
                high = middle;
            },
            Placement::Same => {
                assert(texts[middle as int] == text@);
                assert forall|i: int| 0 <= i < middle implies text_less(
                    #[trigger] items@[i]@,
                    text@,
                ) by {
                    assert(text_less(texts[i], texts[middle as int]));
                }
                assert forall|i: int| middle < i < items@.len() implies text_less(
                    text@,
                    #[trigger] items@[i]@,
                ) by {
                    assert(text_less(texts[middle as int], texts[i]));
                }
                return (true, middle);
            },
        }
    }
    assert(!texts.contains(text@)) by {
        if texts.contains(text@) {
            let i = choose|i: int| 0 <= i < texts.len() && texts[i] == text@;
            lemma_text_less_irreflexive(text@);
            assert(items@[i]@ == text@);
        }
    }
    (false, low)
}

/// A set of texts.
#[derive(Debug, PartialEq, Eq)]
pub struct TextSet {
    items: Vec<String>,
}

impl View for TextSet {
    type V = Set<Seq<char>>;

    closed spec fn view(&self) -> Set<Seq<char>> {
        views(self.items@).to_set()
    }
}

impl TextSet {
    /// The elements in increasing order.
    pub closed spec fn ordered(&self) -> Seq<Seq<char>> {
        views(self.items@)
    }

    #[verifier::type_invariant]
    spec fn in_order(self) -> bool {
        increasing(views(self.items@))
    }

    /// The set without elements.
    pub fn new() -> (result: Self)
        ensures
            result@ == Set::<Seq<char>>::empty(),
    {
        let items: Vec<String> = Vec::new();
        assert(views(items@).to_set() == Set::<Seq<char>>::empty());
        TextSet { items }
    }

    /// The elements in increasing order.
    pub fn items(&self) -> (result: &Vec<String>)
        ensures
            views(result@) == self.ordered(),
            increasing(self.ordered()),
            self.ordered().to_set() == self@,
            self.ordered().no_duplicates(),
    {
        proof {
            use_type_invariant(self);
            lemma_increasing_no_duplicates(self.ordered());
        }
        &self.items
    }

    /// The number of elements.
    pub fn len(&self) -> (result: usize)
        ensures
            result == self@.len(),
            self@.finite(),
    {
        proof {
            use_type_invariant(self);
            lemma_increasing_no_duplicates(self.ordered());
            self.ordered().unique_seq_to_set();
            vstd::seq_lib::seq_to_set_is_finite(self.ordered());
        }
        self.items.len()
    }

    /// Whether the set has no element.
    pub fn is_empty(&self) -> (result: bool)
        ensures
            result == (self@ == Set::<Seq<char>>::empty()),
    {
        proof {
            if self.items@.len() > 0 {
                assert(self.ordered()[0] == self.items@[0]@);
                assert(self.ordered().contains(self.ordered()[0]));
                assert(self@.contains(self.items@[0]@));
            } else {
                assert(self@ == Set::<Seq<char>>::empty());
            }
        }
        self.items.len() == 0
    }

    /// Whether a text is an element.
    pub fn contains(&self, text: &str) -> (result: bool)
        ensures
            result == self@.contains(text@),
    {
        proof {
            use_type_invariant(self);
        }
        position_of(&self.items, text).0
    }

    /// Adds a text; says whether it was absent.
    pub fn insert(&mut self, text: String) -> (added: bool)
        ensures
            final(self)@ == old(self)@.insert(text@),
            added == !old(self)@.contains(text@),
    {
        proof {
            use_type_invariant(&*self);
        }
        let (found, position) = position_of(&self.items, text.as_str());
        if found {
            assert(self@.insert(text@) == self@);
            return false;
        }
        let mut items: Vec<String> = Vec::new();
        std::mem::swap(&mut items, &mut self.items);
        let ghost before = views(items@);
        items.insert(position, text);
        let ghost after = views(items@);
        assert(after == before.insert(position as int, text@));
        assert(increasing(after));
        self.items = items;
        assert(after.to_set() == before.to_set().insert(text@)) by {
            before.insert_ensures(position as int, text@);
            assert forall|other: Seq<char>| after.contains(other) implies before.contains(other)
                || other == text@ by {
                let i = choose|i: int| 0 <= i < after.len() && after[i] == other;
                if i < position {
                    assert(before[i] == other);
                } else if i > position {
                    assert(before[i - 1] == other);
                }
            }
            assert forall|other: Seq<char>| before.contains(other) implies after.contains(
                other,
            ) by {
                let i = choose|i: int| 0 <= i < before.len() && before[i] == other;
                if i < position {
                    assert(after[i] == other);
                } else {
                    assert(after[i + 1] == other);
                }
            }
            assert(after[position as int] == text@);
        }
        true
    }

    /// Takes a text out; says whether it was an element.
    pub fn remove(&mut self, text: &str) -> (removed: bool)
        ensures
            final(self)@ == old(self)@.remove(text@),
            removed == old(self)@.contains(text@),
    {
        proof {
            use_type_invariant(&*self);
        }
        let (found, position) = position_of(&self.items, text);
        if !found {
            assert(self@.remove(text@) == self@);
            return false;
        }
        let mut items: Vec<String> = Vec::new();
        std::mem::swap(&mut items, &mut self.items);
        let ghost before = views(items@);
        let removed = items.remove(position);
        let ghost after = views(items@);
        assert(after == before.remove(position as int));
        assert(increasing(after));
        self.items = items;
        assert(after.to_set() == before.to_set().remove(text@)) by {
            lemma_increasing_no_duplicates(before);
            assert(before[position as int] == text@);
            assert forall|other: Seq<char>| after.contains(other) implies before.contains(other)
                && other != text@ by {
                let i = choose|i: int| 0 <= i < after.len() && after[i] == other;
                if i < position {
                    assert(before[i] == other);
                } else {
                    assert(before[i + 1] == other);
                }
            }
            assert forall|other: Seq<char>| before.contains(other) && other
                != text@ implies after.contains(other) by {
                let i = choose|i: int| 0 <= i < before.len() && before[i] == other;
                if i < position {
                    assert(after[i] == other);
                } else {
                    assert(after[i - 1] == other);
                }
            }
        }
        true
    }

    /// Takes every element out.
    pub fn clear(&mut self)
        ensures
            final(self)@ == Set::<Seq<char>>::empty(),
    {
        *self = TextSet::new();
    }
}

/// Texts in strictly increasing order are pairwise different.
pub proof fn lemma_increasing_no_duplicates(texts: Seq<Seq<char>>)
    requires
        increasing(texts),
    ensures
        texts.no_duplicates(),
{
    assert forall|i: int, j: int| 0 <= i < texts.len() && 0 <= j < texts.len() && i
        != j implies texts[i] != texts[j] by {
        if i < j {
            lemma_text_less_asymmetric(texts[i], texts[j]);
        } else {
            lemma_text_less_asymmetric(texts[j], texts[i]);
        }
    }
}

/// A map from texts.
#[derive(Debug, PartialEq, Eq)]
pub struct TextMap<V> {
    keys: Vec<String>,
    values: Vec<V>,
}

impl<V> View for TextMap<V> {
    type V = Map<Seq<char>, V>;

    closed spec fn view(&self) -> Map<Seq<char>, V> {
        Map::new(
            |key: Seq<char>| views(self.keys@).contains(key),
            |key: Seq<char>| self.values@[views(self.keys@).index_of(key)],
        )
    }
}

impl<V> TextMap<V> {
    /// The keys in increasing order.
    pub closed spec fn ordered(&self) -> Seq<Seq<char>> {
        views(self.keys@)
    }

    #[verifier::type_invariant]
    spec fn in_order(self) -> bool {
        &&& increasing(views(self.keys@))
        &&& self.keys@.len() == self.values@.len()
    }

    /// The keys that are listed are those of the map.
    pub proof fn lemma_listed_keys(self)
        ensures
            self.ordered().to_set() == self@.dom(),
    {
        assert(self.ordered().to_set() =~= self@.dom());
    }

    proof fn lemma_entry(self, index: int)
        requires
            self.in_order(),
            0 <= index < self.keys@.len(),
        ensures
            self@.contains_key(self.keys@[index]@),
            self@[self.keys@[index]@] == self.values@[index],
    {
        let keys = views(self.keys@);
        assert(keys[index] == self.keys@[index]@);
        assert(keys.contains(keys[index]));
        let first = keys.index_of(keys[index]);
        assert(0 <= first < keys.len() && keys[first] == keys[index]);
        lemma_increasing_no_duplicates(keys);
    }

    /// The map without entries.
    pub fn new() -> (result: Self)
        ensures
            result@ == Map::<Seq<char>, V>::empty(),
    {
        let result = TextMap { keys: Vec::new(), values: Vec::new() };
        assert(result@ == Map::<Seq<char>, V>::empty());
        result
    }

    /// The keys in increasing order.
    pub fn keys(&self) -> (result: &Vec<String>)
        ensures
            views(result@) == self.ordered(),
            increasing(self.ordered()),
            self.ordered().no_duplicates(),
            self.ordered().to_set() == self@.dom(),
    {
        proof {
            use_type_invariant(self);
            lemma_increasing_no_duplicates(self.ordered());
            assert(self.ordered().to_set() == self@.dom());
        }
        &self.keys
    }

    /// The number of entries.
    pub fn len(&self) -> (result: usize)
        ensures
            result == self.ordered().len(),
            result == self@.dom().len(),
            self@.dom().finite(),
    {
        proof {
            use_type_invariant(self);
            lemma_increasing_no_duplicates(self.ordered());
            self.ordered().unique_seq_to_set();
            vstd::seq_lib::seq_to_set_is_finite(self.ordered());
            assert(self.ordered().to_set() == self@.dom());
        }
        self.keys.len()
    }

    /// Whether the map has no entry.
    pub fn is_empty(&self) -> (result: bool)
        ensures
            result == (self@ == Map::<Seq<char>, V>::empty()),
    {
        proof {
            use_type_invariant(self);
            if self.keys@.len() > 0 {
                self.lemma_entry(0);
                assert(!Map::<Seq<char>, V>::empty().contains_key(self.keys@[0]@));
            } else {
                assert(self@ == Map::<Seq<char>, V>::empty());
            }
        }
        self.keys.len() == 0
    }

    /// Where a key stands in the order of the keys.
    pub fn position(&self, key: &str) -> (result: Option<usize>)
        ensures
            match result {
                Some(index) => {
                    &&& index < self.ordered().len()
                    &&& self.ordered()[index as int] == key@
                    &&& self@.contains_key(key@)
                },
                None => !self@.contains_key(key@),
            },
    {
        proof {
            use_type_invariant(self);
        }
        let (found, position) = position_of(&self.keys, key);
        if found {
            Some(position)
        } else {
            None
        }
    }

    /// The key at a place in the order of the keys.
    pub fn key_at(&self, index: usize) -> (result: &String)
        requires
            index < self.ordered().len(),
        ensures
            result@ == self.ordered()[index as int],
            self@.contains_key(result@),
    {
        proof {
            use_type_invariant(self);
            self.lemma_entry(index as int);
        }
        &self.keys[index]
    }

    /// The value whose key is at a place in the order of the keys.
    pub fn value_at(&self, index: usize) -> (result: &V)
        requires
            index < self.ordered().len(),
        ensures
            self@.contains_key(self.ordered()[index as int]),
            *result == self@[self.ordered()[index as int]],
    {
        proof {
            use_type_invariant(self);
            self.lemma_entry(index as int);
        }
        &self.values[index]
    }

    /// The value of a key.
    pub fn get(&self, key: &str) -> (result: Option<&V>)
        ensures
            match result {
                Some(value) => self@.contains_key(key@) && *value == self@[key@],
                None => !self@.contains_key(key@),
            },
    {
        match self.position(key) {
            Some(index) => Some(self.value_at(index)),
            None => None,
        }
    }

    /// Exchanges the value at a place with another value.
    pub fn swap_value(&mut self, index: usize, value: &mut V)
        requires
            index < old(self).ordered().len(),
        ensures
            final(self).ordered() == old(self).ordered(),
            *final(value) == old(self)@[old(self).ordered()[index as int]],
            final(self)@ == old(self)@.insert(old(self).ordered()[index as int], *old(value)),
    {
        proof {
            use_type_invariant(&*self);
        }
        let ghost before = *self;
        let ghost key = self.keys@[index as int]@;
        let mut current = TextMap { keys: Vec::new(), values: Vec::new() };
        std::mem::swap(&mut current, self);
        let TextMap { keys, mut values } = current;
        std::mem::swap(&mut values[index], value);
        assert(values@ == before.values@.update(index as int, *old(value)));
        *self = TextMap { keys, values };
        proof {
            let after = *self;
            before.lemma_entry(index as int);
            assert forall|other: Seq<char>| #[trigger]
                after@.contains_key(other) implies after@[other] == before@.insert(
                key,
                *old(value),
            )[other] by {
                let place = views(before.keys@).index_of(other);
                assert(0 <= place < before.keys@.len() && views(before.keys@)[place] == other);
                after.lemma_entry(place);
                before.lemma_entry(place);
                lemma_increasing_no_duplicates(views(before.keys@));
                if place == index {
                    assert(key == other);
                } else {
                    assert(views(before.keys@)[index as int] == key);
                }
            }
            assert(after@ == before@.insert(key, *old(value)));
        }
    }

    /// Gives a key a value, in place of the one it had.
    pub fn insert(&mut self, key: String, value: V)
        ensures
            final(self)@ == old(self)@.insert(key@, value),
    {
        proof {
            use_type_invariant(&*self);
        }
        let ghost before = *self;
        let (found, position) = position_of(&self.keys, key.as_str());
        if found {
            let mut value = value;
            self.swap_value(position, &mut value);
            return ;
        }
        let mut current = TextMap { keys: Vec::new(), values: Vec::new() };
        std::mem::swap(&mut current, self);
        let TextMap { mut keys, mut values } = current;
        keys.insert(position, key);
        values.insert(position, value);
        assert(views(keys@) == views(before.keys@).insert(position as int, key@));
        *self = TextMap { keys, values };
        proof {
            let after = *self;
            assert forall|other: Seq<char>| #[trigger]
                after@.contains_key(other) implies before@.insert(key@, value).contains_key(other)
                && after@[other] == before@.insert(key@, value)[other] by {
                let place = views(after.keys@).index_of(other);
                assert(0 <= place < after.keys@.len() && views(after.keys@)[place] == other);
                after.lemma_entry(place);
                if place < position {
                    before.lemma_entry(place);
                } else if place > position {
                    before.lemma_entry(place - 1);
                }
                lemma_increasing_no_duplicates(views(after.keys@));
            }
            assert forall|other: Seq<char>| before@.insert(key@, value).contains_key(
                other,
            ) implies #[trigger] after@.contains_key(other) by {
                if other == key@ {
                    after.lemma_entry(position as int);
                } else {
                    let place = views(before.keys@).index_of(other);
                    assert(0 <= place < before.keys@.len() && views(before.keys@)[place] == other);
                    if place < position {
                        after.lemma_entry(place);
                    } else {
                        after.lemma_entry(place + 1);
                    }
                }
            }
            assert(after@ == before@.insert(key@, value));
        }
    }

    /// Takes an entry out: its value, where there was one.
    pub fn remove(&mut self, key: &str) -> (removed: Option<V>)
        ensures
            final(self)@ == old(self)@.remove(key@),
            match removed {
                Some(value) => old(self)@.contains_key(key@) && value == old(self)@[key@],
                None => !old(self)@.contains_key(key@),
            },
    {
        proof {
            use_type_invariant(&*self);
        }
        let ghost before = *self;
        let (found, position) = position_of(&self.keys, key);
        if !found {
            assert(self@.remove(key@) =~= self@);
            return None;
        }
        let mut current = TextMap { keys: Vec::new(), values: Vec::new() };
        std::mem::swap(&mut current, self);
        let TextMap { mut keys, mut values } = current;
        let taken = keys.remove(position);
        let value = values.remove(position);
        assert(views(keys@) == views(before.keys@).remove(position as int));
        *self = TextMap { keys, values };
        proof {
            let after = *self;
            before.lemma_entry(position as int);
            lemma_increasing_no_duplicates(views(before.keys@));
            assert(views(before.keys@)[position as int] == key@);
            assert forall|other: Seq<char>| #[trigger]
                after@.contains_key(other) implies before@.remove(key@).contains_key(other)
                && after@[other] == before@[other] by {
                let place = views(after.keys@).index_of(other);
                assert(0 <= place < after.keys@.len() && views(after.keys@)[place] == other);
                after.lemma_entry(place);
                if place < position {
                    before.lemma_entry(place);
                    assert(views(before.keys@)[place] == other);
                } else {
                    before.lemma_entry(place + 1);
                    assert(views(before.keys@)[place + 1] == other);
                }
            }
            assert forall|other: Seq<char>| before@.remove(key@).contains_key(
                other,
            ) implies #[trigger] after@.contains_key(other) by {
                let place = views(before.keys@).index_of(other);
                assert(0 <= place < before.keys@.len() && views(before.keys@)[place] == other);
                if place < position {
                    after.lemma_entry(place);
                } else {
                    after.lemma_entry(place - 1);
                }
            }
            assert(after@ =~= before@.remove(key@));
        }
        Some(value)
    }

    /// The entries in the order of the keys.
    pub fn into_entries(self) -> (entries: Vec<(String, V)>)
        ensures
            increasing(self.ordered()),
            self.ordered().to_set() == self@.dom(),
            entries@.len() == self.ordered().len(),
            forall|i: int|
                0 <= i < entries@.len() ==> (#[trigger] entries@[i]).0@ == self.ordered()[i]
                    && self@.contains_key(self.ordered()[i]) && entries@[i].1
                    == self@[self.ordered()[i]],
    {
        proof {
            use_type_invariant(&self);
            self.lemma_listed_keys();
        }
        let ghost given = self;
        let TextMap { mut keys, mut values } = self;
        let mut reversed: Vec<(String, V)> = Vec::new();
        let ghost count = keys@.len() as int;
        loop
            invariant
                keys@.len() == values@.len(),
                keys@.len() + reversed@.len() == count,
                count == given.keys@.len(),
                count == given.values@.len(),
                keys@ == given.keys@.take(keys@.len() as int),
                values@ == given.values@.take(keys@.len() as int),
                forall|i: int|
                    0 <= i < reversed@.len() ==> (#[trigger] reversed@[i]).0 == given.keys@[count
                        - 1 - i] && reversed@[i].1 == given.values@[count - 1 - i],
            ensures
                reversed@.len() == count,
            decreases keys@.len(),
        {
            match keys.pop() {
                Some(key) => match values.pop() {
                    Some(value) => {
                        reversed.push((key, value));
                    },
                    None => {
                        break;
                    },
                },
                None => {
                    break;
                },
            }
        }
        let mut entries: Vec<(String, V)> = Vec::new();
        loop
            invariant
                entries@.len() + reversed@.len() == count,
                count == given.keys@.len(),
                count == given.values@.len(),
                forall|i: int|
                    0 <= i < reversed@.len() ==> (#[trigger] reversed@[i]).0 == given.keys@[count
                        - 1 - i] && reversed@[i].1 == given.values@[count - 1 - i],
                forall|i: int|
                    0 <= i < entries@.len() ==> (#[trigger] entries@[i]).0 == given.keys@[i]
                        && entries@[i].1 == given.values@[i],
            ensures
                entries@.len() == count,
            decreases reversed@.len(),
        {
            match reversed.pop() {
                Some(entry) => {
                    entries.push(entry);
                },
                None => {
                    break;
                },
            }
        }
        proof {
            assert forall|i: int| 0 <= i < entries@.len() implies (#[trigger] entries@[i]).0@
                == given.ordered()[i] && given@.contains_key(given.ordered()[i]) && entries@[i].1
                == given@[given.ordered()[i]] by {
                given.lemma_entry(i);
            }
        }
        entries
    }

    /// Takes every entry out.
    pub fn clear(&mut self)
        ensures
            final(self)@ == Map::<Seq<char>, V>::empty(),
    {
        *self = TextMap::new();
    }
}

impl Clone for TextSet {
    fn clone(&self) -> (copy: Self)
        ensures
            copy.ordered() == self.ordered(),
            copy@ == self@,
    {
        proof {
            use_type_invariant(self);
        }
        let items = copied_texts(&self.items);
        TextSet { items }
    }
}

/// A copy of texts.
pub fn copied_texts(texts: &Vec<String>) -> (copy: Vec<String>)
    ensures
        views(copy@) == views(texts@),
{
    let mut copy: Vec<String> = Vec::new();
    let mut index: usize = 0;
    while index < texts.len()
        invariant
            index <= texts.len(),
            views(copy@) == views(texts@).take(index as int),
        decreases texts.len() - index,
    {
        let ghost before = views(copy@);
        copy.push(texts[index].clone());
        assert(views(copy@) == before.push(views(texts@)[index as int]));
        index += 1;
    }
    assert(views(texts@).take(index as int) == views(texts@));
    copy
}

impl<V: Clone> Clone for TextMap<V> {
    fn clone(&self) -> (copy: Self)
        ensures
            copy.ordered() == self.ordered(),
            copy@.dom() == self@.dom(),
            forall|key: Seq<char>| #[trigger]
                self@.contains_key(key) ==> cloned::<V>(self@[key], copy@[key]),
    {
        proof {
            use_type_invariant(self);
        }
        let keys = copied_texts(&self.keys);
        let mut values: Vec<V> = Vec::new();
        let mut index: usize = 0;
        while index < self.values.len()
            invariant
                index <= self.values.len(),
                self.in_order(),
                views(keys@) == views(self.keys@),
                values@.len() == index,
                forall|i: int|
                    0 <= i < index ==> cloned::<V>(self.values@[i], #[trigger] values@[i]),
            decreases self.values.len() - index,
        {
            values.push(self.values[index].clone());
            index += 1;
        }
        assert(views(keys@).len() == keys@.len());
        assert(views(self.keys@).len() == self.keys@.len());
        let copy = TextMap { keys, values };
        proof {
            assert(copy@.dom() =~= self@.dom());
            assert forall|key: Seq<char>| #[trigger] self@.contains_key(key) implies cloned::<V>(
                self@[key],
                copy@[key],
            ) by {
                let place = views(self.keys@).index_of(key);
                assert(views(self.keys@).contains(key));
                assert(0 <= place < self.keys@.len());
                assert(self@[key] == self.values@[place]);
                assert(copy@[key] == values@[place]);
            }
        }
        copy
    }
}

/// Texts are ordered by the first character in which they differ, by its code point; a text
/// comes before those that it begins.
pub proof fn lemma_texts_are_ordered_by_characters(
    start: Seq<char>,
    first: char,
    second: char,
    left: Seq<char>,
    right: Seq<char>,
)
    requires
        first != second,
    ensures
        text_less(start + seq![first] + left, start + seq![second] + right) <==> (first as u32) < (
        second as u32),
        text_less(start, start + seq![first] + left),
        !text_less(start + seq![first] + left, start),
    decreases start.len(),
{
    let one = start + seq![first] + left;
    let other = start + seq![second] + right;
    if start.len() == 0 {
        assert(one[0] == first && other[0] == second);
    } else {
        let rest = start.drop_first();
        lemma_texts_are_ordered_by_characters(rest, first, second, left, right);
        assert(one[0] == start[0] && other[0] == start[0]);
        assert(one.drop_first() == rest + seq![first] + left);
        assert(other.drop_first() == rest + seq![second] + right);
    }
}

}
