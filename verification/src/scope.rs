//! The name of a set of sources, under which filters are kept for them.
use vstd::prelude::*;

use crate::ordered::{increasing, lemma_text_less_asymmetric, text_less, TextMap};
use crate::text::{join, joined, views};

verus! {

/// What kind a step of a path is of, in the order in which steps are sorted.
#[derive(Clone, Copy, PartialEq, Eq, Structural, Debug)]
pub enum StepKind {
    Prefix,
    Root,
    Current,
    Parent,
    Named,
}

/// A step of a path. Its name holds no character of code zero.
pub struct PathStep {
    pub kind: StepKind,
    pub name: String,
}

/// A source: the steps that lead to it, and its path as a text.
pub struct SourcePlace {
    pub steps: Vec<PathStep>,
    pub text: String,
}

/// The character that stands for a kind of step.
pub open spec fn kind_mark(kind: StepKind) -> char {
    match kind {
        StepKind::Prefix => '0',
        StepKind::Root => '1',
        StepKind::Current => '2',
        StepKind::Parent => '3',
        StepKind::Named => '4',
    }
}

/// A text for steps: two paths are sorted as these texts are. Each step ends with
/// the smallest character, so that a name comes before its own extensions.
pub open spec fn order_text(steps: Seq<PathStep>) -> Seq<char>
    decreases steps.len(),
{
    if steps.len() == 0 {
        Seq::empty()
    } else {
        let step = steps.last();
        order_text(steps.drop_last()) + seq![kind_mark(step.kind)] + step.name@ + seq!['\0']
    }
}

/// The texts of sources by their order. Of sources that stand at one place the
/// first counts.
pub open spec fn by_place(places: Seq<SourcePlace>) -> Map<Seq<char>, Seq<char>>
    decreases places.len(),
{
    if places.len() == 0 {
        Map::empty()
    } else {
        let earlier = by_place(places.drop_last());
        let place = places.last();
        let order = order_text(place.steps@);
        if earlier.contains_key(order) {
            earlier
        } else {
            earlier.insert(order, place.text@)
        }
    }
}

/// The texts of sources, in a given order.
pub open spec fn texts_in(places: Map<Seq<char>, Seq<char>>, order: Seq<Seq<char>>) -> Seq<
    Seq<char>,
> {
    order.map_values(|place: Seq<char>| places[place])
}

/// Whether places are listed from the first to the last, each once.
pub open spec fn lists_in_order(order: Seq<Seq<char>>, places: Set<Seq<char>>) -> bool {
    &&& increasing(order)
    &&& order.to_set() == places
}

/// Whether a text names sources: it is made of their texts in their order, with a
/// separator between them.
pub open spec fn names_sources(key: Seq<char>, places: Map<Seq<char>, Seq<char>>) -> bool {
    exists|order: Seq<Seq<char>>| #[trigger]
        lists_in_order(order, places.dom()) && key == joined(texts_in(places, order), "\u{1f}"@)
}

/// The text by which a path is sorted.
fn sorting_text(steps: &Vec<PathStep>) -> (text: String)
    ensures
        text@ == order_text(steps@),
{
    let mut text = String::new();
    let mut index: usize = 0;
    assert(steps@.take(0) == Seq::<PathStep>::empty());
    while index < steps.len()
        invariant
            index <= steps.len(),
            text@ == order_text(steps@.take(index as int)),
        decreases steps.len() - index,
    {
        let ghost before = text@;
        text.push(
            match steps[index].kind {
                StepKind::Prefix => '0',
                StepKind::Root => '1',
                StepKind::Current => '2',
                StepKind::Parent => '3',
                StepKind::Named => '4',
            },
        );
        text.append(steps[index].name.as_str());
        text.push('\0');
        assert(steps@.take(index + 1).drop_last() == steps@.take(index as int));
        assert(text@ == order_text(steps@.take(index + 1)));
        index += 1;
    }
    assert(steps@.take(index as int) == steps@);
    text
}

/// The views of the texts of a map.
spec fn shown_texts(kept: Map<Seq<char>, String>) -> Map<Seq<char>, Seq<char>> {
    kept.map_values(|text: String| text@)
}

/// The name of a set of sources, where there are any: their texts, sorted by their
/// paths, each path once.
pub fn bookmark_scope_key(places: Vec<SourcePlace>) -> (key: Option<String>)
    ensures
        match key {
            Some(key) => places@.len() > 0 && names_sources(key@, by_place(places@)),
            None => places@.len() == 0,
        },
{
    let mut kept: TextMap<String> = TextMap::new();
    let mut index: usize = 0;
    assert(places@.take(0) == Seq::<SourcePlace>::empty());
    assert(shown_texts(kept@) == Map::<Seq<char>, Seq<char>>::empty());
    while index < places.len()
        invariant
            index <= places.len(),
            shown_texts(kept@) == by_place(places@.take(index as int)),
            index > 0 ==> kept@.dom() != Set::<Seq<char>>::empty(),
        decreases places.len() - index,
    {
        let ghost before = kept@;
        let order = sorting_text(&places[index].steps);
        let ghost placed = order@;
        if kept.position(order.as_str()).is_none() {
            kept.insert(order, places[index].text.clone());
        }
        proof {
            assert(places@.take(index + 1).drop_last() == places@.take(index as int));
            assert(shown_texts(before).dom() == before.dom());
            assert(kept@.contains_key(placed));
            assert(!Set::<Seq<char>>::empty().contains(placed));
            assert(shown_texts(kept@) == by_place(places@.take(index + 1)));
        }
        index += 1;
    }
    assert(places@.take(index as int) == places@);
    let ghost sources = by_place(places@);
    let ghost order = kept.ordered();
    let count = kept.keys().len();
    if places.len() == 0 {
        return None;
    }
    let mut texts: Vec<String> = Vec::new();
    let mut position: usize = 0;
    while position < count
        invariant
            position <= count,
            count == order.len(),
            order == kept.ordered(),
            sources == shown_texts(kept@),
            views(texts@) == texts_in(sources, order).take(position as int),
        decreases count - position,
    {
        let ghost before = texts@;
        let text = kept.value_at(position).clone();
        texts.push(text);
        assert(sources.contains_key(order[position as int]));
        assert(text@ == sources[order[position as int]]);
        assert(views(texts@) == views(before).push(text@));
        assert(texts_in(sources, order).len() == order.len());
        assert(views(texts@) == texts_in(sources, order).take(position + 1));
        position += 1;
    }
    assert(texts_in(sources, order).take(position as int) == texts_in(sources, order));
    let key = join(&texts, "\u{1f}");
    assert(sources.dom() == kept@.dom());
    assert(lists_in_order(order, sources.dom()));
    Some(key)
}

/// Whether a step is sorted before another: by its kind, then by its name.
pub open spec fn step_less(left: PathStep, right: PathStep) -> bool {
    if left.kind != right.kind {
        kind_mark(left.kind) < kind_mark(right.kind)
    } else {
        text_less(left.name@, right.name@)
    }
}

/// Whether a path is sorted before another: by the first step that differs, a path
/// before those that lead on from it.
pub open spec fn steps_less(left: Seq<PathStep>, right: Seq<PathStep>) -> bool
    decreases left.len(),
{
    if right.len() == 0 {
        false
    } else if left.len() == 0 {
        true
    } else if left[0].kind != right[0].kind || left[0].name@ != right[0].name@ {
        step_less(left[0], right[0])
    } else {
        steps_less(left.drop_first(), right.drop_first())
    }
}

/// Whether no name of the steps holds the character of code zero.
pub open spec fn names_are_plain(steps: Seq<PathStep>) -> bool {
    forall|i: int| 0 <= i < steps.len() ==> !(#[trigger] steps[i]).name@.contains('\0')
}

/// The text of steps begins with that of the first.
proof fn lemma_order_text_starts(steps: Seq<PathStep>)
    requires
        steps.len() > 0,
    ensures
        order_text(steps) == seq![kind_mark(steps[0].kind)] + (steps[0].name@ + (seq!['\0']
            + order_text(steps.drop_first()))),
    decreases steps.len(),
{
    let step = steps.last();
    if steps.len() == 1 {
        assert(steps.drop_last() == Seq::<PathStep>::empty());
        assert(steps.drop_first() == Seq::<PathStep>::empty());
        assert(order_text(steps.drop_last()) == Seq::<char>::empty());
        assert(order_text(steps.drop_first()) == Seq::<char>::empty());
        assert(order_text(steps) == seq![kind_mark(steps[0].kind)] + (steps[0].name@ + (seq!['\0']
            + order_text(steps.drop_first()))));
    } else {
        lemma_order_text_starts(steps.drop_last());
        assert(steps.drop_last().drop_first() == steps.drop_first().drop_last());
        assert(steps.drop_first().last() == step);
        assert(order_text(steps) == seq![kind_mark(steps[0].kind)] + (steps[0].name@ + (seq!['\0']
            + order_text(steps.drop_first()))));
    }
}

/// The character of code zero is the smallest one.
proof fn lemma_smallest(character: char)
    ensures
        character == '\0' || '\0' < character,
{
    assert(character as u32 >= 0);
}

/// Names that end with the smallest character are sorted as the names are; of equal
/// names what follows decides.
proof fn lemma_ended_names(
    left: Seq<char>,
    right: Seq<char>,
    left_rest: Seq<char>,
    right_rest: Seq<char>,
)
    requires
        !left.contains('\0'),
        !right.contains('\0'),
    ensures
        text_less(left + (seq!['\0'] + left_rest), right + (seq!['\0'] + right_rest)) == if left
            == right {
            text_less(left_rest, right_rest)
        } else {
            text_less(left, right)
        },
    decreases left.len(),
{
    let first = left + (seq!['\0'] + left_rest);
    let second = right + (seq!['\0'] + right_rest);
    if left.len() == 0 && right.len() == 0 {
        assert(left == right);
        assert(first[0] == '\0' && second[0] == '\0');
        assert(first.drop_first() == left_rest);
        assert(second.drop_first() == right_rest);
        assert(text_less(first, second) == text_less(left_rest, right_rest));
    } else if left.len() == 0 {
        assert(right.contains(right[0]));
        assert(first[0] == '\0');
        assert(second[0] == right[0]);
        assert(left != right);
        lemma_smallest(right[0]);
        assert(text_less(first, second));
    } else if right.len() == 0 {
        assert(left.contains(left[0]));
        assert(second[0] == '\0');
        assert(first[0] == left[0]);
        assert(left != right);
        lemma_smallest(left[0]);
        assert(!text_less(first, second));
    } else if left[0] == right[0] {
        assert forall|c: char| left.drop_first().contains(c) implies left.contains(c) by {
            let i = left.drop_first().index_of(c);
            assert(left[i + 1] == c);
        }
        assert forall|c: char| right.drop_first().contains(c) implies right.contains(c) by {
            let i = right.drop_first().index_of(c);
            assert(right[i + 1] == c);
        }
        lemma_ended_names(left.drop_first(), right.drop_first(), left_rest, right_rest);
        assert(first.drop_first() == left.drop_first() + (seq!['\0'] + left_rest));
        assert(second.drop_first() == right.drop_first() + (seq!['\0'] + right_rest));
        if left.drop_first() == right.drop_first() {
            assert(left == seq![left[0]] + left.drop_first());
            assert(right == seq![right[0]] + right.drop_first());
        }
    } else {
        assert(first[0] == left[0]);
        assert(second[0] == right[0]);
    }
}

/// Paths are sorted as their texts are.
pub proof fn lemma_paths_sort_as_their_texts(left: Seq<PathStep>, right: Seq<PathStep>)
    requires
        names_are_plain(left),
        names_are_plain(right),
    ensures
        text_less(order_text(left), order_text(right)) == steps_less(left, right),
    decreases left.len(),
{
    if left.len() > 0 {
        lemma_order_text_starts(left);
    }
    if right.len() > 0 {
        lemma_order_text_starts(right);
    }
    if left.len() > 0 && right.len() > 0 {
        let first = left[0].name@ + (seq!['\0'] + order_text(left.drop_first()));
        let second = right[0].name@ + (seq!['\0'] + order_text(right.drop_first()));
        assert(order_text(left).drop_first() == first);
        assert(order_text(right).drop_first() == second);
        assert(order_text(left)[0] == kind_mark(left[0].kind));
        assert(order_text(right)[0] == kind_mark(right[0].kind));
        lemma_ended_names(
            left[0].name@,
            right[0].name@,
            order_text(left.drop_first()),
            order_text(right.drop_first()),
        );
        assert forall|i: int| 0 <= i < left.drop_first().len() implies !(
        #[trigger] left.drop_first()[i]).name@.contains('\0') by {
            assert(left.drop_first()[i] == left[i + 1]);
        }
        assert forall|i: int| 0 <= i < right.drop_first().len() implies !(
        #[trigger] right.drop_first()[i]).name@.contains('\0') by {
            assert(right.drop_first()[i] == right[i + 1]);
        }
        lemma_paths_sort_as_their_texts(left.drop_first(), right.drop_first());
    }
}

/// There is one way to list texts from the first to the last.
pub proof fn lemma_one_order(first: Seq<Seq<char>>, second: Seq<Seq<char>>)
    requires
        increasing(first),
        increasing(second),
        first.to_set() == second.to_set(),
    ensures
        first == second,
    decreases first.len(),
{
    if first.len() == 0 {
        if second.len() > 0 {
            assert(second.to_set().contains(second[0]));
        }
    } else {
        assert(first.to_set().contains(first.last()));
        assert(second.contains(first.last()));
        assert(second.to_set().contains(second.last()));
        assert(first.contains(second.last()));
        let i = first.index_of(second.last());
        let j = second.index_of(first.last());
        if i < first.len() - 1 && j < second.len() - 1 {
            assert(text_less(first[i], first.last()));
            assert(text_less(second[j], second.last()));
            lemma_text_less_asymmetric(first[i], first.last());
        }
        if i == first.len() - 1 {
            assert(second.last() == first.last());
        } else {
            assert(j == second.len() - 1);
            assert(second.last() == first.last());
        }
        let greatest = first.last();
        assert forall|text: Seq<char>| first.drop_last().to_set().contains(text) <==> #[trigger]
            second.drop_last().to_set().contains(text) by {
            lemma_shorter(first, text);
            lemma_shorter(second, text);
        }
        assert(first.drop_last().to_set() == second.drop_last().to_set());
        lemma_one_order(first.drop_last(), second.drop_last());
        assert(first == first.drop_last().push(greatest));
        assert(second == second.drop_last().push(greatest));
    }
}

/// Without its last text a list in order holds the other texts.
proof fn lemma_shorter(texts: Seq<Seq<char>>, text: Seq<char>)
    requires
        increasing(texts),
        texts.len() > 0,
    ensures
        texts.drop_last().to_set().contains(text) <==> texts.to_set().contains(text) && text
            != texts.last(),
{
    if texts.drop_last().contains(text) {
        let i = texts.drop_last().index_of(text);
        assert(texts[i] == text);
        assert(texts.contains(text));
        assert(text_less(texts[i], texts.last()));
        lemma_text_less_asymmetric(texts[i], texts.last());
    }
    if texts.contains(text) && text != texts.last() {
        let i = texts.index_of(text);
        assert(texts.drop_last()[i] == text);
        assert(texts.drop_last().contains(text));
    }
}

/// What sources are kept by their places.
proof fn lemma_by_place(places: Seq<SourcePlace>, order: Seq<char>)
    ensures
        by_place(places).contains_key(order) <==> exists|i: int|
            0 <= i < places.len() && order_text((#[trigger] places[i]).steps@) == order,
        by_place(places).contains_key(order) ==> exists|i: int|
            0 <= i < places.len() && order_text((#[trigger] places[i]).steps@) == order
                && places[i].text@ == by_place(places)[order],
    decreases places.len(),
{
    if places.len() > 0 {
        let earlier = places.drop_last();
        lemma_by_place(earlier, order);
        let place = places.last();
        assert(places[places.len() - 1] == place);
        if by_place(earlier).contains_key(order) {
            let i = choose|i: int|
                0 <= i < earlier.len() && order_text((#[trigger] earlier[i]).steps@) == order
                    && earlier[i].text@ == by_place(earlier)[order];
            assert(places[i] == earlier[i]);
            if by_place(earlier).contains_key(order_text(place.steps@)) {
                assert(by_place(places)[order] == by_place(earlier)[order]);
            } else {
                assert(by_place(places)[order] == by_place(earlier)[order]);
            }
        } else {
            assert forall|i: int|
                0 <= i < places.len() - 1 implies order_text((#[trigger] places[i]).steps@)
                != order by {
                assert(earlier[i] == places[i]);
            }
        }
    }
}

/// Whether every source of a list is among others.
pub open spec fn are_among(places: Seq<SourcePlace>, others: Seq<SourcePlace>) -> bool {
    forall|i: int|
        0 <= i < places.len() ==> exists|j: int|
            0 <= j < others.len() && (#[trigger] others[j]).steps@ == (
            #[trigger] places[i]).steps@ && others[j].text@ == places[i].text@
}

/// Whether the texts of sources go by their places.
pub open spec fn told_apart(places: Seq<SourcePlace>) -> bool {
    forall|i: int, j: int|
        0 <= i < places.len() && 0 <= j < places.len() && order_text(
            (#[trigger] places[i]).steps@,
        ) == order_text((#[trigger] places[j]).steps@) ==> places[i].text@ == places[j].text@
}

/// The name of sources does not depend on the order in which they are given, nor on
/// how often one of them is given.
pub proof fn lemma_name_of_sources(
    places: Seq<SourcePlace>,
    others: Seq<SourcePlace>,
    first: Seq<char>,
    second: Seq<char>,
)
    requires
        told_apart(places),
        told_apart(others),
        are_among(places, others),
        are_among(others, places),
        names_sources(first, by_place(places)),
        names_sources(second, by_place(others)),
    ensures
        first == second,
{
    let left = by_place(places);
    let right = by_place(others);
    assert forall|order: Seq<char>| left.contains_key(order) implies #[trigger]
        right.contains_key(order) && left[order] == right[order] by {
        lemma_kept_alike(places, others, order);
    }
    assert forall|order: Seq<char>| right.contains_key(order) implies #[trigger]
        left.contains_key(order) by {
        lemma_kept_alike(others, places, order);
    }
    assert(left == right);
    let one = choose|order: Seq<Seq<char>>| #[trigger]
        lists_in_order(order, left.dom()) && first == joined(texts_in(left, order), "\u{1f}"@);
    let two = choose|order: Seq<Seq<char>>| #[trigger]
        lists_in_order(order, right.dom()) && second == joined(texts_in(right, order), "\u{1f}"@);
    lemma_one_order(one, two);
}

proof fn lemma_kept_alike(places: Seq<SourcePlace>, others: Seq<SourcePlace>, order: Seq<char>)
    requires
        told_apart(others),
        are_among(places, others),
        by_place(places).contains_key(order),
    ensures
        by_place(others).contains_key(order),
        by_place(places)[order] == by_place(others)[order],
{
    lemma_by_place(places, order);
    lemma_by_place(others, order);
    let i = choose|i: int|
        0 <= i < places.len() && order_text((#[trigger] places[i]).steps@) == order
            && places[i].text@ == by_place(places)[order];
    let j = choose|j: int|
        0 <= j < others.len() && (#[trigger] others[j]).steps@ == places[i].steps@
            && others[j].text@ == places[i].text@;
    assert(order_text(others[j].steps@) == order);
    let k = choose|k: int|
        0 <= k < others.len() && order_text((#[trigger] others[k]).steps@) == order
            && others[k].text@ == by_place(others)[order];
    assert(others[k].text@ == others[j].text@);
}

}
