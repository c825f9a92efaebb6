//! Lists without repetition.
use vstd::prelude::*;

use crate::text::{same, views};

verus! {

/// A list without the items that stand in it before.
pub open spec fn distinct<A>(items: Seq<A>) -> Seq<A>
    decreases items.len(),
{
    if items.len() == 0 {
        Seq::empty()
    } else {
        let before = distinct(items.drop_last());
        if before.contains(items.last()) {
            before
        } else {
            before.push(items.last())
        }
    }
}

/// A list without repetition holds every item of the list, and no item twice.
pub proof fn lemma_distinct<A>(items: Seq<A>)
    ensures
        distinct(items).no_duplicates(),
        distinct(items).to_set() == items.to_set(),
    decreases items.len(),
{
    if items.len() > 0 {
        lemma_distinct(items.drop_last());
        let before = distinct(items.drop_last());
        assert forall|item: A| items.contains(item) <==> (items.drop_last().contains(item) || item
            == items.last()) by {
            if items.contains(item) {
                let k = choose|k: int| 0 <= k < items.len() && items[k] == item;
                if k < items.len() - 1 {
                    assert(items.drop_last()[k] == item);
                }
            }
            if items.drop_last().contains(item) {
                let k = choose|k: int|
                    0 <= k < items.drop_last().len() && items.drop_last()[k] == item;
                assert(items[k] == item);
            }
            if item == items.last() {
                assert(items[items.len() - 1] == item);
            }
        }
        assert forall|item: A| distinct(items).contains(item) <==> items.contains(item) by {
            assert(before.to_set().contains(item) <==> items.drop_last().to_set().contains(item));
            if distinct(items).contains(item) {
                let k = choose|k: int|
                    0 <= k < distinct(items).len() && distinct(items)[k] == item;
                if k < before.len() {
                    assert(before[k] == item);
                }
            }
            if before.contains(item) {
                let k = choose|k: int| 0 <= k < before.len() && before[k] == item;
                assert(distinct(items)[k] == item);
            }
            if item == items.last() && !before.contains(item) {
                assert(distinct(items)[before.len() as int] == item);
            }
        }
        assert(distinct(items).to_set() =~= items.to_set());
    } else {
        assert(distinct(items).to_set() =~= items.to_set());
    }
}

/// A list that repeats nothing stays as it is.
pub proof fn lemma_distinct_keeps<A>(items: Seq<A>)
    requires
        items.no_duplicates(),
    ensures
        distinct(items) == items,
    decreases items.len(),
{
    if items.len() > 0 {
        let before = items.drop_last();
        assert(before.no_duplicates());
        lemma_distinct_keeps(before);
        assert(!before.contains(items.last())) by {
            if before.contains(items.last()) {
                let k = choose|k: int| 0 <= k < before.len() && before[k] == items.last();
                assert(items[k] == items[items.len() - 1]);
            }
        }
        assert(before.push(items.last()) == items);
    }
}

/// Items that a list holds already add nothing to it.
pub proof fn lemma_distinct_absorbs<A>(items: Seq<A>, more: Seq<A>)
    requires
        forall|i: int| 0 <= i < more.len() ==> items.contains(#[trigger] more[i]),
    ensures
        distinct(items + more) == distinct(items),
    decreases more.len(),
{
    if more.len() == 0 {
        assert(items + more == items);
    } else {
        assert((items + more).drop_last() == items + more.drop_last());
        lemma_distinct_absorbs(items, more.drop_last());
        lemma_distinct(items);
        assert(items.contains(more[more.len() - 1]));
        assert(items.to_set().contains(more.last()));
        assert(distinct(items).to_set().contains(more.last()));
    }
}

/// Whether a text stands in a list.
pub fn lists(texts: &Vec<String>, text: &str) -> (result: bool)
    ensures
        result == views(texts@).contains(text@),
{
    let mut index: usize = 0;
    while index < texts.len()
        invariant
            index <= texts.len(),
            forall|i: int| 0 <= i < index ==> (#[trigger] texts@[i])@ != text@,
        decreases texts.len() - index,
    {
        if same(texts[index].as_str(), text) {
            assert(views(texts@)[index as int] == text@);
            return true;
        }
        index += 1;
    }
    assert forall|i: int| 0 <= i < views(texts@).len() implies views(texts@)[i] != text@ by {
        assert(texts@[i]@ != text@);
    }
    false
}

/// Adds a text to a list that does not hold it.
pub fn add_new(texts: &mut Vec<String>, text: String)
    ensures
        views(final(texts)@) == (if views(old(texts)@).contains(text@) {
            views(old(texts)@)
        } else {
            views(old(texts)@).push(text@)
        }),
{
    if !lists(texts, text.as_str()) {
        let ghost before = views(texts@);
        texts.push(text);
        assert(views(texts@) == before.push(text@));
    }
}

/// The texts of a list without repetition.
pub fn distinct_texts(texts: &Vec<String>) -> (result: Vec<String>)
    ensures
        views(result@) == distinct(views(texts@)),
{
    let ghost items = views(texts@);
    let mut result: Vec<String> = Vec::new();
    let mut index: usize = 0;
    assert(items.take(0) == Seq::<Seq<char>>::empty());
    assert(views(result@) == Seq::<Seq<char>>::empty());
    while index < texts.len()
        invariant
            index <= texts.len(),
            items == views(texts@),
            views(result@) == distinct(items.take(index as int)),
        decreases texts.len() - index,
    {
        assert(items.take(index + 1).drop_last() == items.take(index as int));
        assert(items[index as int] == texts@[index as int]@);
        add_new(&mut result, texts[index].clone());
        index += 1;
    }
    assert(items.take(index as int) == items);
    result
}

/// What is added to a list comes behind what it holds: its items keep their places.
pub proof fn lemma_distinct_starts_with<A>(items: Seq<A>, more: Seq<A>)
    ensures
        distinct(items + more).len() >= distinct(items).len(),
        distinct(items + more).take(distinct(items).len() as int) == distinct(items),
    decreases more.len(),
{
    if more.len() == 0 {
        assert(items + more == items);
        assert(distinct(items).take(distinct(items).len() as int) == distinct(items));
    } else {
        let all = items + more;
        assert(all.drop_last() == items + more.drop_last());
        lemma_distinct_starts_with(items, more.drop_last());
        let before = distinct(all.drop_last());
        let size = distinct(items).len() as int;
        if !before.contains(all.last()) {
            assert(before.push(all.last()).take(size) == before.take(size));
        }
    }
}

}
