//! What a lexer does on a text.

use vstd::prelude::*;

use crate::character_set::{holds, CharRange};
use crate::tables::{renumber_state, state_wf, table_wf, AdvanceAction, StateModel};

verus! {

/// What the lexer meets: a code point, or the end of the input.
pub type Input = Option<int>;

/// The first of the actions, from `k` on, that reads `c`.
pub open spec fn first_action(actions: Seq<(Seq<CharRange>, AdvanceAction)>, c: int, k: nat) -> nat
    decreases actions.len() - k,
{
    if k >= actions.len() {
        actions.len()
    } else if holds(actions[k as int].0, c) {
        k
    } else {
        first_action(actions, c, k + 1)
    }
}

/// What the lexer does in a state.
pub open spec fn action_on(s: StateModel, input: Input) -> Option<AdvanceAction> {
    match input {
        None => s.eof_action,
        Some(c) => {
            let k = first_action(s.advance_actions, c, 0);
            if k < s.advance_actions.len() {
                Some(s.advance_actions[k as int].1)
            } else {
                None
            }
        },
    }
}

/// The state that the lexer is in after it has read a text, starting in state `x`, if it
/// can read the text.
pub open spec fn run_table(states: Seq<StateModel>, x: int, text: Seq<Input>) -> Option<int>
    decreases text.len(),
{
    if text.len() == 0 {
        Some(x)
    } else {
        match run_table(states, x, text.drop_last()) {
            Some(y) => match action_on(states[y], text.last()) {
                Some(action) => Some(action.state as int),
                None => None,
            },
            None => None,
        }
    }
}

/// The two states accept the same, and do the same but for where their actions lead.
pub open spec fn looks_like(a: StateModel, b: StateModel) -> bool {
    &&& a.accept_action == b.accept_action
    &&& (a.eof_action is Some) == (b.eof_action is Some)
    &&& a.advance_actions.len() == b.advance_actions.len()
    &&& forall|i: int|
        0 <= i < a.advance_actions.len() ==> (#[trigger] a.advance_actions[i]).0 == b.advance_actions[i].0
            && a.advance_actions[i].1.in_main_token == b.advance_actions[i].1.in_main_token
}

/// No two actions of a state read the same character, and each reads something.
pub open spec fn is_deterministic(s: StateModel) -> bool {
    &&& forall|i: int| 0 <= i < s.advance_actions.len() ==> (#[trigger] s.advance_actions[i]).0.len() > 0
    &&& forall|i: int, j: int, c: int|
        0 <= i < s.advance_actions.len() && 0 <= j < s.advance_actions.len() && #[trigger] holds(
            s.advance_actions[i].0,
            c,
        ) && #[trigger] holds(s.advance_actions[j].0, c) ==> i == j
}

/// All states are deterministic.
pub open spec fn all_deterministic(states: Seq<StateModel>) -> bool {
    forall|x: int| 0 <= x < states.len() ==> is_deterministic(#[trigger] states[x])
}

/// Wherever the end of the input is valid, the same happens on it.
pub open spec fn one_end(states: Seq<StateModel>) -> bool {
    forall|x: int, y: int|
        0 <= x < states.len() && 0 <= y < states.len() && (#[trigger] states[x]).eof_action is Some && (
        #[trigger] states[y]).eof_action is Some ==> states[x].eof_action == states[y].eof_action
}

/// The first action that reads a character reads it, and none before it does.
pub proof fn lemma_first_action(actions: Seq<(Seq<CharRange>, AdvanceAction)>, c: int, k: nat)
    ensures
        first_action(actions, c, k) <= actions.len(),
        first_action(actions, c, k) < actions.len() ==> k <= first_action(actions, c, k) && holds(
            actions[first_action(actions, c, k) as int].0,
            c,
        ),
        forall|j: int| k <= j < first_action(actions, c, k) && j < actions.len() ==> !holds((#[trigger] actions[j]).0, c),
    decreases actions.len() - k,
{
    if k < actions.len() && !holds(actions[k as int].0, c) {
        lemma_first_action(actions, c, k + 1);
    }
}

/// The first action depends on nothing but the characters.
pub proof fn lemma_same_first_action(
    a: Seq<(Seq<CharRange>, AdvanceAction)>,
    b: Seq<(Seq<CharRange>, AdvanceAction)>,
    c: int,
    k: nat,
)
    requires
        a.len() == b.len(),
        forall|i: int| 0 <= i < a.len() ==> (#[trigger] a[i]).0 == b[i].0,
    ensures
        first_action(a, c, k) == first_action(b, c, k),
    decreases a.len() - k,
{
    if k < a.len() {
        assert(a[k as int].0 == b[k as int].0);
        lemma_same_first_action(a, b, c, k + 1);
    }
}

/// Renumbering changes nothing but where the actions lead.
pub proof fn lemma_renumbered(s: StateModel, ids: Seq<u32>, input: Input)
    ensures
        looks_like(s, renumber_state(s, ids)),
        action_on(s, input) is None ==> action_on(renumber_state(s, ids), input) is None,
        action_on(s, input) matches Some(action) ==> action_on(renumber_state(s, ids), input) == Some(
            AdvanceAction { state: ids[action.state as int], in_main_token: action.in_main_token },
        ),
{
    let r = renumber_state(s, ids);
    if let Some(c) = input {
        lemma_same_first_action(s.advance_actions, r.advance_actions, c, 0);
        lemma_first_action(s.advance_actions, c, 0);
    }
}

/// An action leads to a state of the table.
pub proof fn lemma_action_wf(states: Seq<StateModel>, x: int, input: Input)
    requires
        table_wf(states),
        0 <= x < states.len(),
    ensures
        action_on(states[x], input) matches Some(action) ==> action.state < states.len(),
{
    assert(state_wf(states[x], states.len()));
    if let Some(c) = input {
        let k = first_action(states[x].advance_actions, c, 0);
        lemma_first_action(states[x].advance_actions, c, 0);
        if k < states[x].advance_actions.len() {
            assert(states[x].advance_actions[k as int].1.state < states.len());
        }
    }
}

/// A lexer stays within its states.
pub proof fn lemma_run_table_wf(states: Seq<StateModel>, x: int, text: Seq<Input>)
    requires
        table_wf(states),
        0 <= x < states.len(),
    ensures
        run_table(states, x, text) matches Some(y) ==> 0 <= y < states.len(),
    decreases text.len(),
{
    if text.len() > 0 {
        lemma_run_table_wf(states, x, text.drop_last());
        if let Some(y) = run_table(states, x, text.drop_last()) {
            lemma_action_wf(states, y, text.last());
        }
    }
}

/// Reading one thing and then a text.
pub proof fn lemma_run_table_first(states: Seq<StateModel>, x: int, input: Input, text: Seq<Input>)
    ensures
        run_table(states, x, seq![input] + text) == (match action_on(states[x], input) {
            Some(action) => run_table(states, action.state as int, text),
            None => None,
        }),
    decreases text.len(),
{
    let all = seq![input] + text;
    if text.len() == 0 {
        assert(all.drop_last() =~= Seq::empty());
        assert(all.last() == input);
        assert(run_table(states, x, all.drop_last()) == Some(x));
    } else {
        lemma_run_table_first(states, x, input, text.drop_last());
        assert(all.drop_last() =~= seq![input] + text.drop_last());
        assert(all.last() == text.last());
    }
}

/// States that look alike read the same characters, in the same way.
pub proof fn lemma_looks_like(a: StateModel, b: StateModel, c: int)
    requires
        looks_like(a, b),
    ensures
        (action_on(a, Some(c)) is Some) == (action_on(b, Some(c)) is Some),
        action_on(a, Some(c)) is Some ==> (action_on(a, Some(c))->0).in_main_token == (action_on(
            b,
            Some(c),
        )->0).in_main_token,
        is_deterministic(a) ==> is_deterministic(b),
{
    lemma_same_first_action(a.advance_actions, b.advance_actions, c, 0);
    lemma_first_action(a.advance_actions, c, 0);
    let k = first_action(a.advance_actions, c, 0);
    if k < a.advance_actions.len() {
        assert(a.advance_actions[k as int].1.in_main_token == b.advance_actions[k as int].1.in_main_token);
    }
    if is_deterministic(a) {
        assert forall|i: int| 0 <= i < b.advance_actions.len() implies (#[trigger] b.advance_actions[i]).0.len() > 0 by {
            assert(a.advance_actions[i].0 == b.advance_actions[i].0);
        }
        assert forall|i: int, j: int, d: int|
            0 <= i < b.advance_actions.len() && 0 <= j < b.advance_actions.len() && #[trigger] holds(
                b.advance_actions[i].0,
                d,
            ) && #[trigger] holds(b.advance_actions[j].0, d) implies i == j by {
            assert(a.advance_actions[i].0 == b.advance_actions[i].0);
            assert(a.advance_actions[j].0 == b.advance_actions[j].0);
            assert(holds(a.advance_actions[i].0, d) && holds(a.advance_actions[j].0, d));
        }
    }
}

} // verus!
