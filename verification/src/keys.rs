//! What keys do in the table.
use vstd::prelude::*;

verus! {

/// Which keys are pressed, and which are held.
#[derive(Clone, Copy, Debug)]
pub struct Keys {
    pub up: bool,
    pub down: bool,
    pub f8: bool,
    pub p: bool,
    pub n: bool,
    pub control: bool,
    pub shift: bool,
}

/// What a key does.
#[derive(Clone, Copy, PartialEq, Eq, Structural, Debug)]
pub enum KeyAction {
    PreviousEvent,
    NextEvent,
    NextError,
    PreviousError,
    NextPin,
    PreviousPin,
    TogglePin,
    EditNote,
}

/// Whether the keys that are pressed ask for an action.
pub open spec fn asks_for(keys: Keys, action: KeyAction) -> bool {
    match action {
        KeyAction::PreviousEvent => keys.up && !keys.control,
        KeyAction::NextEvent => keys.down && !keys.control,
        KeyAction::NextError => keys.f8 && !keys.shift,
        KeyAction::PreviousError => keys.f8 && keys.shift,
        KeyAction::NextPin => keys.down && keys.control,
        KeyAction::PreviousPin => keys.up && keys.control,
        KeyAction::TogglePin => keys.p,
        KeyAction::EditNote => keys.n,
    }
}

/// The actions in the order in which they are done.
pub open spec fn all_actions() -> Seq<KeyAction> {
    seq![
        KeyAction::PreviousEvent,
        KeyAction::NextEvent,
        KeyAction::NextError,
        KeyAction::PreviousError,
        KeyAction::NextPin,
        KeyAction::PreviousPin,
        KeyAction::TogglePin,
        KeyAction::EditNote,
    ]
}

/// Those of some actions that the keys ask for.
pub open spec fn asked_among(keys: Keys, actions: Seq<KeyAction>) -> Seq<KeyAction> {
    actions.filter(|action: KeyAction| asks_for(keys, action))
}

/// Adds an action where it is asked for.
fn add_action(
    actions: &mut Vec<KeyAction>,
    keys: Keys,
    action: KeyAction,
    asked: bool,
    Ghost(place): Ghost<int>,
)
    requires
        0 <= place < all_actions().len(),
        action == all_actions()[place],
        asked == asks_for(keys, action),
        old(actions)@ == asked_among(keys, all_actions().take(place)),
    ensures
        final(actions)@ == asked_among(keys, all_actions().take(place + 1)),
{
    proof {
        reveal(Seq::filter);
        assert(all_actions().take(place + 1).drop_last() == all_actions().take(place));
    }
    if asked {
        actions.push(action);
    }
}

/// What the keys that are pressed do, in order.
pub fn key_actions(keys: Keys) -> (actions: Vec<KeyAction>)
    ensures
        actions@ == asked_among(keys, all_actions()),
{
    let mut actions: Vec<KeyAction> = Vec::new();
    assert(actions@ == asked_among(keys, all_actions().take(0))) by {
        reveal(Seq::filter);
    }
    let back = keys.up && !keys.control;
    add_action(&mut actions, keys, KeyAction::PreviousEvent, back, Ghost(0));
    let forth = keys.down && !keys.control;
    add_action(&mut actions, keys, KeyAction::NextEvent, forth, Ghost(1));
    add_action(&mut actions, keys, KeyAction::NextError, keys.f8 && !keys.shift, Ghost(2));
    add_action(&mut actions, keys, KeyAction::PreviousError, keys.f8 && keys.shift, Ghost(3));
    add_action(&mut actions, keys, KeyAction::NextPin, keys.down && keys.control, Ghost(4));
    add_action(&mut actions, keys, KeyAction::PreviousPin, keys.up && keys.control, Ghost(5));
    add_action(&mut actions, keys, KeyAction::TogglePin, keys.p, Ghost(6));
    add_action(&mut actions, keys, KeyAction::EditNote, keys.n, Ghost(7));
    assert(all_actions().take(8) == all_actions());
    actions
}

/// What the keys do: the arrows go to the event before and the next one, with the control key
/// to the pins; F8 goes to the next error, with the shift key to the one before; P pins an
/// event and N changes its note. Keys that are not pressed do nothing.
pub proof fn lemma_keys_do_what_they_stand_for(keys: Keys)
    ensures
        ({
            let actions = asked_among(keys, all_actions());
            &&& actions.contains(KeyAction::PreviousEvent) <==> keys.up && !keys.control
            &&& actions.contains(KeyAction::NextEvent) <==> keys.down && !keys.control
            &&& actions.contains(KeyAction::PreviousPin) <==> keys.up && keys.control
            &&& actions.contains(KeyAction::NextPin) <==> keys.down && keys.control
            &&& actions.contains(KeyAction::NextError) <==> keys.f8 && !keys.shift
            &&& actions.contains(KeyAction::PreviousError) <==> keys.f8 && keys.shift
            &&& actions.contains(KeyAction::TogglePin) <==> keys.p
            &&& actions.contains(KeyAction::EditNote) <==> keys.n
        }),
{
    let all = all_actions();
    assert(all[0] == KeyAction::PreviousEvent && all[1] == KeyAction::NextEvent);
    assert(all[2] == KeyAction::NextError && all[3] == KeyAction::PreviousError);
    assert(all[4] == KeyAction::NextPin && all[5] == KeyAction::PreviousPin);
    assert(all[6] == KeyAction::TogglePin && all[7] == KeyAction::EditNote);
    lemma_asked_is_asked(keys, all, KeyAction::PreviousEvent);
    lemma_asked_is_asked(keys, all, KeyAction::NextEvent);
    lemma_asked_is_asked(keys, all, KeyAction::PreviousPin);
    lemma_asked_is_asked(keys, all, KeyAction::NextPin);
    lemma_asked_is_asked(keys, all, KeyAction::NextError);
    lemma_asked_is_asked(keys, all, KeyAction::PreviousError);
    lemma_asked_is_asked(keys, all, KeyAction::TogglePin);
    lemma_asked_is_asked(keys, all, KeyAction::EditNote);
}

proof fn lemma_asked_is_asked(keys: Keys, actions: Seq<KeyAction>, action: KeyAction)
    ensures
        asked_among(keys, actions).contains(action) <==> actions.contains(action) && asks_for(
            keys,
            action,
        ),
    decreases actions.len(),
{
    reveal(Seq::filter);
    if actions.len() > 0 {
        let before = actions.drop_last();
        let last = actions.last();
        lemma_asked_is_asked(keys, before, action);
        let kept = asked_among(keys, before);
        let all = asked_among(keys, actions);
        assert(actions.contains(action) <==> before.contains(action) || action == last) by {
            if actions.contains(action) {
                let k = choose|k: int| 0 <= k < actions.len() && actions[k] == action;
                if k < before.len() {
                    assert(before[k] == action);
                }
            }
            if before.contains(action) {
                let k = choose|k: int| 0 <= k < before.len() && before[k] == action;
                assert(actions[k] == action);
            }
            assert(actions[actions.len() - 1] == last);
        }
        if asks_for(keys, last) {
            assert(all == kept.push(last));
            if all.contains(action) {
                let k = choose|k: int| 0 <= k < all.len() && all[k] == action;
                if k < kept.len() {
                    assert(kept[k] == action);
                }
            }
            if kept.contains(action) {
                let k = choose|k: int| 0 <= k < kept.len() && kept[k] == action;
                assert(all[k] == action);
            }
            assert(all[kept.len() as int] == last);
        }
    }
}

}
