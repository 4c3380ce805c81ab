//! What sorting the states of a lexer keeps.

use vstd::prelude::*;

use crate::character_set::ranges_wf;
use crate::order::{goes_before, lemma_goes_before_asymmetric};
use crate::sort_states::{
    lemma_state_order, lemma_state_order_distinct, position, sorted_ids, sorted_table, state_keys, state_order,
};
use crate::table_runs::{lemma_renumbered, lemma_run_table_wf, looks_like, run_table, Input};
use crate::tables::{renumber_state, state_wf, table_wf, StateModel};

verus! {

/// Each state gets a number of its own, and is found under that number with its actions
/// renumbered.
pub proof fn lemma_sorted_ids(states: Seq<StateModel>, x: int)
    requires
        0 <= x < states.len() <= u32::MAX + 1,
    ensures
        sorted_ids(states)[x] < states.len(),
        state_order(states)[sorted_ids(states)[x] as int] == x,
        sorted_table(states)[sorted_ids(states)[x] as int] == renumber_state(states[x], sorted_ids(states)),
{
    lemma_state_order(states);
    let order = state_order(states);
    assert(order.contains(x as usize));
    let k = position(order, x);
    let w = choose|w: int| 0 <= w < order.len() && order[w] == x as usize;
    assert(order[w] == x);
    assert(0 <= k < order.len() && order[k] == x);
}

/// Sorting gives every state a number of its own, within the table, and leaves the first
/// state where it is.
pub proof fn law_sorting_renumbers(states: Seq<StateModel>)
    requires
        0 < states.len() <= u32::MAX + 1,
    ensures
        sorted_table(states).len() == states.len(),
        sorted_ids(states).len() == states.len(),
        sorted_ids(states)[0] == 0,
        forall|x: int| 0 <= x < states.len() ==> (#[trigger] sorted_ids(states)[x]) < states.len(),
        forall|x: int, y: int|
            0 <= x < states.len() && 0 <= y < states.len() && #[trigger] sorted_ids(states)[x]
                == #[trigger] sorted_ids(states)[y] ==> x == y,
{
    lemma_state_order(states);
    let order = state_order(states);
    lemma_sorted_ids(states, 0);
    let k = sorted_ids(states)[0] as int;
    lemma_state_order_distinct(states, order, k, 0);
    assert forall|x: int| 0 <= x < states.len() implies (#[trigger] sorted_ids(states)[x]) < states.len() by {
        lemma_sorted_ids(states, x);
    }
    assert forall|x: int, y: int|
        0 <= x < states.len() && 0 <= y < states.len() && #[trigger] sorted_ids(states)[x]
            == #[trigger] sorted_ids(states)[y] implies x == y by {
        lemma_sorted_ids(states, x);
        lemma_sorted_ids(states, y);
    }
}

/// Of two states other than the first, the one with the smaller key comes first; of
/// states with the same key, the one that came first before.
pub proof fn law_sorting_orders(states: Seq<StateModel>, x: int, y: int)
    requires
        0 < states.len() <= u32::MAX + 1,
        0 < x < states.len(),
        0 < y < states.len(),
    ensures
        sorted_ids(states)[x] < sorted_ids(states)[y] <==> goes_before(state_keys(states), x, y),
{
    lemma_state_order(states);
    law_sorting_renumbers(states);
    let order = state_order(states);
    let keys = state_keys(states);
    lemma_sorted_ids(states, x);
    lemma_sorted_ids(states, y);
    let a = sorted_ids(states)[x] as int;
    let b = sorted_ids(states)[y] as int;
    assert(a > 0 && b > 0);
    if a < b {
        assert(goes_before(keys, order[a] as int, order[b] as int));
    } else if b < a {
        assert(goes_before(keys, order[b] as int, order[a] as int));
        lemma_goes_before_asymmetric(keys, y, x);
    } else {
        assert(x == y);
        if goes_before(keys, x, y) {
            lemma_goes_before_asymmetric(keys, x, y);
        }
    }
}

/// The actions of the sorted table lead to states of it.
pub proof fn lemma_sorted_wf(states: Seq<StateModel>)
    requires
        table_wf(states),
        states.len() > 0,
    ensures
        table_wf(sorted_table(states)),
{
    lemma_state_order(states);
    law_sorting_renumbers(states);
    let order = state_order(states);
    let ids = sorted_ids(states);
    let sorted = sorted_table(states);
    assert forall|i: int| 0 <= i < sorted.len() implies state_wf(#[trigger] sorted[i], sorted.len()) by {
        let s = states[order[i] as int];
        assert(order[i] < states.len());
        assert(state_wf(s, states.len()));
        assert forall|k: int| 0 <= k < sorted[i].advance_actions.len() implies ranges_wf(
            (#[trigger] sorted[i].advance_actions[k]).0,
        ) && sorted[i].advance_actions[k].1.state < sorted.len() by {
            assert(s.advance_actions[k].1.state < states.len());
            assert(ids[s.advance_actions[k].1.state as int] < states.len());
        }
        if let Some(action) = s.eof_action {
            assert(ids[action.state as int] < states.len());
        }
    }
}

/// The sorted lexer does on every text what the lexer did before, from the state that
/// the old one has become.
pub proof fn law_sorting_keeps_behaviour(states: Seq<StateModel>, x: int, text: Seq<Input>)
    requires
        table_wf(states),
        0 <= x < states.len(),
    ensures
        run_table(states, x, text) is None ==> run_table(
            sorted_table(states),
            sorted_ids(states)[x] as int,
            text,
        ) is None,
        run_table(states, x, text) matches Some(y) ==> run_table(
            sorted_table(states),
            sorted_ids(states)[x] as int,
            text,
        ) == Some(sorted_ids(states)[y] as int) && looks_like(
            states[y],
            sorted_table(states)[sorted_ids(states)[y] as int],
        ),
    decreases text.len(),
{
    let sorted = sorted_table(states);
    let ids = sorted_ids(states);
    lemma_run_table_wf(states, x, text);
    if text.len() > 0 {
        let front = text.drop_last();
        law_sorting_keeps_behaviour(states, x, front);
        lemma_run_table_wf(states, x, front);
        if let Some(y) = run_table(states, x, front) {
            lemma_sorted_ids(states, y);
            lemma_renumbered(states[y], ids, text.last());
        }
    }
    if let Some(y) = run_table(states, x, text) {
        lemma_sorted_ids(states, y);
        lemma_renumbered(states[y], ids, None);
    }
}

} // verus!
