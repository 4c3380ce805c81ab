//! Putting the states of a lexer in order.

use vstd::prelude::*;

use crate::order::{
    goes_before, is_stable_order, lemma_goes_before_asymmetric, lemma_stable_order_exists, stable_order, views,
};
use crate::tables::{
    renumber_state, same_but_lex_ids, state_key, state_wf, table_wf, LexState, LexTable, ParseTable, StateModel,
};

verus! {

/// The sort keys of the states.
pub open spec fn state_keys(states: Seq<StateModel>) -> Seq<Seq<u32>> {
    Seq::new(states.len(), |i: int| state_key(states[i]))
}

/// `order` lists every state once: state 0 first, and then the others in the order of
/// a stable sort by their keys.
pub open spec fn is_state_order(states: Seq<StateModel>, order: Seq<usize>) -> bool {
    &&& order.len() == states.len()
    &&& order.len() > 0 ==> order[0] == 0
    &&& forall|i: int| 0 <= i < order.len() ==> (#[trigger] order[i]) < states.len()
    &&& forall|i: int, j: int|
        0 < i < j < order.len() ==> goes_before(
            state_keys(states),
            #[trigger] order[i] as int,
            #[trigger] order[j] as int,
        )
    &&& forall|i: int| 0 < i < order.len() ==> (#[trigger] order[i]) > 0
    &&& forall|x: usize| x < states.len() ==> #[trigger] order.contains(x)
}

/// The old numbers of the states, by their new numbers.
pub open spec fn state_order(states: Seq<StateModel>) -> Seq<usize> {
    choose|order: Seq<usize>| is_state_order(states, order)
}

/// The position of `x` in a list.
pub open spec fn position(order: Seq<usize>, x: int) -> int {
    choose|i: int| 0 <= i < order.len() && order[i] == x
}

/// The new numbers of the states, by their old numbers.
pub open spec fn sorted_ids(states: Seq<StateModel>) -> Seq<u32> {
    Seq::new(states.len(), |x: int| position(state_order(states), x) as u32)
}

/// The table with its states in order.
pub open spec fn sorted_table(states: Seq<StateModel>) -> Seq<StateModel> {
    Seq::new(
        states.len(),
        |i: int| renumber_state(states[state_order(states)[i] as int], sorted_ids(states)),
    )
}

/// A state order lists no state twice.
pub proof fn lemma_state_order_distinct(states: Seq<StateModel>, order: Seq<usize>, i: int, j: int)
    requires
        is_state_order(states, order),
        0 <= i < order.len(),
        0 <= j < order.len(),
        order[i] == order[j],
    ensures
        i == j,
{
    if 0 < i < j {
        lemma_goes_before_asymmetric(state_keys(states), order[i] as int, order[j] as int);
    }
    if 0 < j < i {
        lemma_goes_before_asymmetric(state_keys(states), order[j] as int, order[i] as int);
    }
}

/// States can be put in order in one way only.
pub proof fn lemma_state_order_unique(states: Seq<StateModel>, a: Seq<usize>, b: Seq<usize>)
    requires
        is_state_order(states, a),
        is_state_order(states, b),
    ensures
        a == b,
{
    lemma_state_order_unique_prefix(states, a, b, a.len() as int);
    assert(a =~= b);
}

proof fn lemma_state_order_unique_prefix(states: Seq<StateModel>, a: Seq<usize>, b: Seq<usize>, n: int)
    requires
        is_state_order(states, a),
        is_state_order(states, b),
        0 <= n <= a.len(),
    ensures
        forall|i: int| 0 <= i < n ==> a[i] == b[i],
    decreases n,
{
    if n > 0 {
        lemma_state_order_unique_prefix(states, a, b, n - 1);
        let m = n - 1;
        if m > 0 && a[m] != b[m] {
            let keys = state_keys(states);
            assert(b.contains(a[m]));
            assert(a.contains(b[m]));
            let p = choose|p: int| 0 <= p < b.len() && b[p] == a[m];
            let q = choose|q: int| 0 <= q < a.len() && a[q] == b[m];
            if p < m {
                assert(a[p] == a[m]);
                lemma_state_order_distinct(states, a, p, m);
            } else if q < m {
                assert(b[q] == b[m]);
                lemma_state_order_distinct(states, b, q, m);
            } else {
                assert(goes_before(keys, b[m] as int, b[p] as int));
                assert(goes_before(keys, a[m] as int, a[q] as int));
                lemma_goes_before_asymmetric(keys, a[m] as int, b[m] as int);
            }
        }
    }
}

/// State 0, followed by the other states in the order that `tail` puts them in.
proof fn lemma_state_order_from_tail(states: Seq<StateModel>, tail: Seq<usize>, order: Seq<usize>)
    requires
        states.len() > 0,
        is_stable_order(state_keys(states).skip(1), tail),
        order.len() == states.len(),
        order[0] == 0,
        forall|k: int| 0 < k < order.len() ==> #[trigger] order[k] == tail[k - 1] + 1,
    ensures
        is_state_order(states, order),
{
    let keys = state_keys(states);
    let tks = keys.skip(1);
    assert forall|k: int| 0 <= k < order.len() implies (#[trigger] order[k]) < states.len() by {
        if k > 0 {
            assert(tail[k - 1] < tks.len());
        }
    }
    assert forall|a: int, b: int| 0 < a < b < order.len() implies goes_before(
        keys,
        #[trigger] order[a] as int,
        #[trigger] order[b] as int,
    ) by {
        assert(tail[a - 1] < tks.len() && tail[b - 1] < tks.len());
        assert(goes_before(tks, tail[a - 1] as int, tail[b - 1] as int));
        assert(tks[tail[a - 1] as int] == keys[order[a] as int]);
        assert(tks[tail[b - 1] as int] == keys[order[b] as int]);
    }
    assert forall|x: usize| x < states.len() implies #[trigger] order.contains(x) by {
        if x > 0 {
            assert(tail.contains((x - 1) as usize));
            let k = choose|k: int| 0 <= k < tail.len() && tail[k] == (x - 1) as usize;
            assert(order[k + 1] == x);
        } else {
            assert(order[0] == x);
        }
    }
}

/// The states of a lexer can always be put in order.
pub proof fn lemma_state_order(states: Seq<StateModel>)
    requires
        0 < states.len() <= u32::MAX + 1,
    ensures
        is_state_order(states, state_order(states)),
{
    let tks = state_keys(states).skip(1);
    let tail = lemma_stable_order_exists(tks);
    let order = Seq::new(
        states.len(),
        |k: int|
            if k == 0 {
                0usize
            } else {
                (tail[k - 1] + 1) as usize
            },
    );
    assert forall|k: int| 0 < k < order.len() implies #[trigger] order[k] == tail[k - 1] + 1 by {
        assert(tail[k - 1] < tks.len());
    }
    lemma_state_order_from_tail(states, tail, order);
}

/// The order of the states.
fn compute_state_order(table: &LexTable) -> (order: Vec<usize>)
    requires
        table_wf(table@),
        table@.len() > 0,
    ensures
        is_state_order(table@, order@),
{
    let ghost states = table@;
    let ghost keys = state_keys(states);
    let mut tail_keys: Vec<Vec<u32>> = Vec::new();
    let mut i: usize = 1;
    while i < table.states.len()
        invariant
            1 <= i <= table.states@.len(),
            states == table@,
            table_wf(states),
            keys == state_keys(states),
            tail_keys@.len() == i - 1,
            forall|k: int| 0 <= k < i - 1 ==> (#[trigger] tail_keys@[k])@ == keys[k + 1],
        decreases table.states.len() - i,
    {
        assert(state_wf(states[i as int], states.len()));
        let state = &table.states[i];
        assert forall|k: int| 0 <= k < state.advance_actions@.len() implies (#[trigger] state.advance_actions@[k]).0.wf() by {
            assert(state@.advance_actions[k].0 == state.advance_actions@[k].0@);
        }
        tail_keys.push(state.sort_key());
        i = i + 1;
    }
    let tail = stable_order(&tail_keys);
    assert(views(tail_keys@) =~= keys.skip(1));
    let mut order: Vec<usize> = Vec::new();
    order.push(0);
    let mut j: usize = 0;
    while j < tail.len()
        invariant
            j <= tail@.len(),
            is_stable_order(keys.skip(1), tail@),
            keys.len() == table.states@.len(),
            keys.len() > 0,
            order@.len() == j + 1,
            order@[0] == 0,
            forall|k: int| 0 < k <= j ==> #[trigger] order@[k] == tail@[k - 1] + 1,
        decreases tail.len() - j,
    {
        assert(tail@[j as int] < keys.skip(1).len());
        order.push(tail[j] + 1);
        j = j + 1;
    }
    proof {
        lemma_state_order_from_tail(states, tail@, order@);
    }
    order
}

/// Sorts the states of a lexer, all but the first, and renumbers the references to
/// them.
pub fn sort_states(table: &mut LexTable, parse_table: &mut ParseTable)
    requires
        table_wf(old(table)@),
        old(table)@.len() > 0,
        forall|i: int|
            0 <= i < old(parse_table).states@.len() ==> (#[trigger] old(parse_table).states@[i]).lex_state_id < old(table)@.len(),
    ensures
        final(table)@ == sorted_table(old(table)@),
        same_but_lex_ids(*old(parse_table), *final(parse_table)),
        forall|i: int|
            0 <= i < final(parse_table).states@.len() ==> (#[trigger] final(parse_table).states@[i]).lex_state_id
                == sorted_ids(old(table)@)[old(parse_table).states@[i].lex_state_id as int],
{
    let ghost states = table@;
    let order = compute_state_order(table);
    proof {
        lemma_state_order_unique(states, order@, state_order(states));
    }
    let n = table.states.len();

    // The inverse of the order.
    let mut ids: Vec<u32> = Vec::new();
    let mut x: usize = 0;
    while x < n
        invariant
            x <= n,
            ids@.len() == x,
        decreases n - x,
    {
        ids.push(0);
        x = x + 1;
    }
    let mut i: usize = 0;
    while i < order.len()
        invariant
            i <= order@.len(),
            is_state_order(states, order@),
            states.len() == n,
            n <= u32::MAX + 1,
            ids@.len() == n,
            forall|k: int| 0 <= k < i ==> ids@[#[trigger] order@[k] as int] == k,
        decreases order.len() - i,
    {
        let ghost before = ids@;
        assert(order@[i as int] < states.len());
        ids.set(order[i], i as u32);
        assert forall|k: int| 0 <= k < i + 1 implies ids@[#[trigger] order@[k] as int] == k by {
            if k < i {
                if order@[k] == order@[i as int] {
                    lemma_state_order_distinct(states, order@, k, i as int);
                }
                assert(order@[k] < states.len());
            }
        }
        i = i + 1;
    }
    assert(ids@ =~= sorted_ids(states)) by {
        assert forall|y: int| 0 <= y < n implies ids@[y] == sorted_ids(states)[y] by {
            assert(order@.contains(y as usize));
            let k = position(order@, y);
            assert(0 <= k < order@.len() && order@[k] == y);
            assert(ids@[order@[k] as int] == k);
        }
    }

    let mut sorted: Vec<LexState> = Vec::new();
    let mut j: usize = 0;
    while j < order.len()
        invariant
            j <= order@.len(),
            is_state_order(states, order@),
            order@ == state_order(states),
            states == table@,
            table_wf(states),
            ids@ == sorted_ids(states),
            sorted@.len() == j,
            forall|k: int| 0 <= k < j ==> (#[trigger] sorted@[k])@ == renumber_state(states[order@[k] as int], ids@),
        decreases order.len() - j,
    {
        assert(order@[j as int] < states.len());
        assert(state_wf(states[order@[j as int] as int], states.len()));
        sorted.push(table.states[order[j]].renumbered(&ids));
        j = j + 1;
    }
    table.states = sorted;
    assert(table@ =~= sorted_table(states));
    parse_table.renumber_lex_states(&ids);
}

} // verus!
