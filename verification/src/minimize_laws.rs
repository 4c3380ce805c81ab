//! What joining the states of a lexer keeps, and what it achieves.

use vstd::prelude::*;

use crate::character_set::{holds, ranges_wf};
use crate::groups::{
    differ, differing, groups_wf, in_its_group, lemma_group_count, lemma_refined, lemma_same_signature, lemma_select,
    lemma_split_from, lemma_split_group, refined, signature, split_from, split_group, Groups,
};
use crate::minimize::{
    alike, has_group, lemma_alike_groups, lemma_alike_wf, lemma_minimal_groups, minimal_groups, minimal_ids,
    minimized_table,
};
use crate::sorted::strictly_sorted;
use crate::table_runs::{
    action_on, all_deterministic, first_action, is_deterministic, lemma_action_wf, lemma_first_action, lemma_renumbered,
    lemma_run_table_first, lemma_run_table_wf, lemma_same_first_action, looks_like, one_end, run_table, Input,
};
use crate::tables::{renumber_state, state_wf, table_wf, AdvanceAction, StateModel};

verus! {

/// Groups that splitting leaves as they are cannot be split.
proof fn lemma_nothing_differs(states: Seq<StateModel>, p: Groups, g: int, h: int)
    requires
        groups_wf(states, p),
        states.len() <= u32::MAX + 1,
        0 <= g <= h < p.members.len(),
        split_from(states, p, g) == p,
    ensures
        differing(states, p, h).len() == 0,
    decreases p.members.len() - g,
{
    lemma_group_count(states, p);
    lemma_split_group(states, p, g);
    let q = split_group(states, p, g);
    lemma_split_from(states, q, g + 1);
    assert(split_from(states, p, g) == split_from(states, q, g + 1));
    assert(q == p);
    if differing(states, p, g).len() > 0 {
        assert(q.members.len() == p.members.len() + 1);
    }
    if g < h {
        lemma_nothing_differs(states, p, g + 1, h);
    }
}

/// The first state is in the first group, and splitting the others keeps it there.
proof fn lemma_first_group_split(states: Seq<StateModel>, p: Groups, g: int)
    requires
        groups_wf(states, p),
        0 < states.len() <= u32::MAX + 1,
        1 <= g,
        p.ids[0] == 0,
    ensures
        split_from(states, p, g).ids[0] == 0,
    decreases states.len() - g,
{
    lemma_group_count(states, p);
    if g < p.members.len() {
        lemma_split_group(states, p, g);
        let q = split_group(states, p, g);
        let gone = differing(states, p, g);
        lemma_select(p.members[g], |x: u32| differ(states[p.members[g][0] as int], states[x as int], p.ids));
        if gone.contains(0u32) {
            assert(p.members[g].contains(0u32));
        }
        lemma_first_group_split(states, q, g + 1);
    }
}

proof fn lemma_first_group_refined(states: Seq<StateModel>, p: Groups)
    requires
        groups_wf(states, p),
        0 < states.len() <= u32::MAX + 1,
        p.ids[0] == 0,
    ensures
        refined(states, p).ids[0] == 0,
    decreases states.len() - p.members.len(),
{
    let q = split_from(states, p, 1);
    lemma_split_from(states, p, 1);
    lemma_first_group_split(states, p, 1);
    if !(q.members.len() <= p.members.len() || q.members.len() > states.len()) {
        lemma_first_group_refined(states, q);
    }
}

proof fn lemma_first_group_alike(states: Seq<StateModel>, n: nat)
    requires
        0 < n <= states.len() <= u32::MAX + 1,
    ensures
        alike(states, n).ids.len() == n,
        alike(states, n).ids[0] == 0,
    decreases n,
{
    let m = (n - 1) as nat;
    let p = alike(states, m);
    if m > 0 {
        lemma_first_group_alike(states, m);
    } else {
        assert(p.members.len() == 0);
        assert(!has_group(states, p, 0));
    }
}

/// The first state of a lexer stays its first state when states are joined.
pub proof fn law_first_state_stays(states: Seq<StateModel>)
    requires
        0 < states.len() <= u32::MAX + 1,
    ensures
        minimal_ids(states)[0] == 0,
{
    lemma_alike_wf(states);
    lemma_first_group_alike(states, states.len());
    lemma_first_group_refined(states, alike(states, states.len()));
}

/// States that are joined have actions that lead to states that are joined.
proof fn lemma_joined_targets(states: Seq<StateModel>, x: int, y: int, k: int)
    requires
        table_wf(states),
        0 <= x < states.len(),
        0 <= y < states.len(),
        minimal_ids(states)[x] == minimal_ids(states)[y],
        0 <= k < states[x].advance_actions.len(),
    ensures
        k < states[y].advance_actions.len(),
        minimal_ids(states)[states[x].advance_actions[k].1.state as int]
            == minimal_ids(states)[states[y].advance_actions[k].1.state as int],
{
    let p = minimal_groups(states);
    let ids = minimal_ids(states);
    lemma_minimal_groups(states);
    lemma_alike_wf(states);
    lemma_refined(states, alike(states, states.len()));
    lemma_same_signature(states, x, y);
    let g = ids[x] as int;
    if g == 0 {
        law_first_state_stays(states);
        lemma_same_signature(states, 0, x);
        lemma_same_signature(states, 0, y);
    } else {
        let rep = p.members[g][0];
        assert(in_its_group(p, x as u32));
        assert(in_its_group(p, y as u32));
        lemma_nothing_differs(states, p, 1, g);
        let d = |z: u32| differ(states[rep as int], states[z as int], p.ids);
        lemma_select(p.members[g], d);
        let gone = differing(states, p, g);
        assert(!gone.contains(x as u32));
        assert(!gone.contains(y as u32));
        assert(p.members[g].contains(rep));
        assert(ids[rep as int] == ids[x]);
        lemma_same_signature(states, rep as int, x);
        lemma_same_signature(states, rep as int, y);
        assert(!differ(states[rep as int], states[x], ids));
        assert(!differ(states[rep as int], states[y], ids));
        let a = states[rep as int].advance_actions[k];
        assert(ids[a.1.state as int] == ids[states[x].advance_actions[k].1.state as int]);
        assert(ids[a.1.state as int] == ids[states[y].advance_actions[k].1.state as int]);
    }
}

/// What a state has become does what the state did.
proof fn lemma_joined_action(states: Seq<StateModel>, y: int, input: Input)
    requires
        table_wf(states),
        one_end(states),
        0 <= y < states.len(),
    ensures
        minimal_ids(states)[y] < minimized_table(states).len(),
        looks_like(states[y], minimized_table(states)[minimal_ids(states)[y] as int]),
        action_on(states[y], input) is None ==> action_on(
            minimized_table(states)[minimal_ids(states)[y] as int],
            input,
        ) is None,
        action_on(states[y], input) matches Some(action) ==> (action_on(
            minimized_table(states)[minimal_ids(states)[y] as int],
            input,
        ) matches Some(joined) && joined.state == minimal_ids(states)[action.state as int] && joined.in_main_token
            == action.in_main_token),
{
    let p = minimal_groups(states);
    let ids = minimal_ids(states);
    lemma_minimal_groups(states);
    let g = ids[y] as int;
    assert(ids[y] < minimized_table(states).len());
    let rep = p.members[g][0] as int;
    assert(p.members[g].len() > 0);
    assert(p.members[g].contains(p.members[g][0]));
    assert(ids[rep] == ids[y]);
    lemma_same_signature(states, rep, y);
    let joined = minimized_table(states)[g];
    assert(joined == renumber_state(states[rep], ids));
    lemma_renumbered(states[rep], ids, input);
    if let Some(c) = input {
        lemma_same_first_action(states[y].advance_actions, states[rep].advance_actions, c, 0);
        let k = first_action(states[y].advance_actions, c, 0);
        if k < states[y].advance_actions.len() {
            lemma_joined_targets(states, y, rep, k as int);
        }
    }
}

/// The minimized lexer does on every text what the lexer did before, from the state that
/// the old one has become, if the same happens on every end of the input.
pub proof fn law_joining_keeps_behaviour(states: Seq<StateModel>, x: int, text: Seq<Input>)
    requires
        table_wf(states),
        one_end(states),
        0 <= x < states.len(),
    ensures
        run_table(states, x, text) is None ==> run_table(
            minimized_table(states),
            minimal_ids(states)[x] as int,
            text,
        ) is None,
        run_table(states, x, text) matches Some(y) ==> run_table(
            minimized_table(states),
            minimal_ids(states)[x] as int,
            text,
        ) == Some(minimal_ids(states)[y] as int) && looks_like(
            states[y],
            minimized_table(states)[minimal_ids(states)[y] as int],
        ),
    decreases text.len(),
{
    lemma_run_table_wf(states, x, text);
    if text.len() > 0 {
        let front = text.drop_last();
        law_joining_keeps_behaviour(states, x, front);
        lemma_run_table_wf(states, x, front);
        if let Some(y) = run_table(states, x, front) {
            lemma_joined_action(states, y, text.last());
        }
    }
    if let Some(y) = run_table(states, x, text) {
        lemma_joined_action(states, y, None);
    }
}

/// One of the states is the first state and the other is not; or they accept different
/// symbols, or differ in whether they have an action at the end of the input, or in the
/// characters of their actions, or in which of those are in the main token.
pub open spec fn are_unlike(states: Seq<StateModel>, x: int, y: int) -> bool {
    (x == 0) != (y == 0) || !looks_like(states[x], states[y])
}

/// States are unlike just where their signatures are.
proof fn lemma_unlike(states: Seq<StateModel>, x: int, y: int)
    ensures
        are_unlike(states, x, y) <==> signature(states, x) != signature(states, y),
{
    if signature(states, x) == signature(states, y) {
        lemma_same_signature(states, x, y);
    }
    if !are_unlike(states, x, y) {
        let a = signature(states, x);
        let b = signature(states, y);
        assert forall|i: int| 0 <= i < a.3.len() implies a.3[i] == b.3[i] by {
            assert(states[x].advance_actions[i].0 == states[y].advance_actions[i].0);
        }
        assert(a.3 =~= b.3);
    }
}

/// After the text, which has no end of the input in it, the lexer is in states that are
/// unlike, depending on which of the two states it started in; or it
/// can read the text from one of them only.
pub open spec fn tells_apart(states: Seq<StateModel>, x: int, y: int, text: Seq<Input>) -> bool {
    &&& forall|i: int| 0 <= i < text.len() ==> (#[trigger] text[i]) is Some
    &&& match (run_table(states, x, text), run_table(states, y, text)) {
        (Some(a), Some(b)) => are_unlike(states, a, b),
        (None, None) => false,
        _ => true,
    }
}

/// Some text tells the two states from each other.
pub open spec fn can_be_told_apart(states: Seq<StateModel>, x: int, y: int) -> bool {
    exists|text: Seq<Input>| tells_apart(states, x, y, text)
}

/// States of different groups can be told from each other.
spec fn well_separated(states: Seq<StateModel>, p: Groups) -> bool {
    forall|x: int, y: int|
        0 <= x < states.len() && 0 <= y < states.len() && #[trigger] p.ids[x] != #[trigger] p.ids[y] ==> can_be_told_apart(
            states,
            x,
            y,
        )
}

/// If the states look the same but lead to states that can be told from each other, they
/// can be told from each other themselves.
proof fn lemma_told_apart_by_action(states: Seq<StateModel>, x: int, y: int, k: int)
    requires
        table_wf(states),
        all_deterministic(states),
        0 <= x < states.len(),
        0 <= y < states.len(),
        signature(states, x) == signature(states, y),
        0 <= k < states[x].advance_actions.len(),
        can_be_told_apart(
            states,
            states[x].advance_actions[k].1.state as int,
            states[y].advance_actions[k].1.state as int,
        ),
    ensures
        can_be_told_apart(states, x, y),
{
    lemma_same_signature(states, x, y);
    let a = states[x].advance_actions;
    let b = states[y].advance_actions;
    let rest = choose|text: Seq<Input>| tells_apart(states, a[k].1.state as int, b[k].1.state as int, text);
    assert(is_deterministic(states[x]));
    assert(state_wf(states[x], states.len()));
    assert(ranges_wf(a[k].0));
    let c = a[k].0[0].start as int;
    assert(a[k].0[0].start <= c < a[k].0[0].end);
    assert(holds(a[k].0, c));
    lemma_first_action(a, c, 0);
    lemma_same_first_action(a, b, c, 0);
    let f = first_action(a, c, 0) as int;
    if f != k {
        if f < a.len() {
            assert(holds(a[f].0, c));
        } else {
            assert(!holds(a[k].0, c));
        }
    }
    lemma_run_table_first(states, x, Some(c), rest);
    lemma_run_table_first(states, y, Some(c), rest);
    let text = seq![Some(c)] + rest;
    assert forall|i: int| 0 <= i < text.len() implies (#[trigger] text[i]) is Some by {
        if i > 0 {
            assert(text[i] == rest[i - 1]);
        }
    }
    assert(tells_apart(states, x, y, text));
}

proof fn lemma_symmetric(states: Seq<StateModel>, x: int, y: int)
    requires
        can_be_told_apart(states, x, y),
    ensures
        can_be_told_apart(states, y, x),
{
    let text = choose|text: Seq<Input>| tells_apart(states, x, y, text);
    assert(tells_apart(states, y, x, text));
}

proof fn lemma_separated_split(states: Seq<StateModel>, p: Groups, g: int)
    requires
        table_wf(states),
        all_deterministic(states),
        groups_wf(states, p),
        well_separated(states, p),
        0 <= g < p.members.len(),
    ensures
        well_separated(states, split_group(states, p, g)),
{
    let q = split_group(states, p, g);
    let gone = differing(states, p, g);
    if gone.len() > 0 {
        lemma_split_group(states, p, g);
        let rep = p.members[g][0] as int;
        let d = |z: u32| differ(states[rep], states[z as int], p.ids);
        lemma_select(p.members[g], d);
        assert(p.members[g].contains(p.members[g][0]));
        assert forall|x: int, y: int|
            0 <= x < states.len() && 0 <= y < states.len() && #[trigger] q.ids[x] != #[trigger] q.ids[y] implies can_be_told_apart(
            states,
            x,
            y,
        ) by {
            if p.ids[x] == p.ids[y] {
                if gone.contains(x as u32) {
                    lemma_separated_pair(states, p, g, y, x);
                    lemma_symmetric(states, y, x);
                } else {
                    lemma_separated_pair(states, p, g, x, y);
                }
            }
        }
    }
}

/// A state that leads to the same groups as the first of its group, and one that does
/// not, can be told from each other.
proof fn lemma_separated_pair(states: Seq<StateModel>, p: Groups, g: int, x: int, y: int)
    requires
        table_wf(states),
        all_deterministic(states),
        groups_wf(states, p),
        well_separated(states, p),
        0 <= g < p.members.len(),
        0 <= x < states.len(),
        0 <= y < states.len(),
        p.ids[x] == p.ids[y],
        !differing(states, p, g).contains(x as u32),
        differing(states, p, g).contains(y as u32),
    ensures
        can_be_told_apart(states, x, y),
{
    let rep = p.members[g][0] as int;
    let d = |z: u32| differ(states[rep], states[z as int], p.ids);
    lemma_select(p.members[g], d);
    assert(p.members[g].contains(y as u32));
    assert(p.ids[y] == g);
    assert(in_its_group(p, x as u32));
    assert(p.members[g].contains(x as u32));
    assert(p.members[g].contains(p.members[g][0]));
    assert(p.ids[rep] == g);
    assert(d(y as u32));
    assert(!d(x as u32));
    lemma_same_signature(states, rep, x);
    lemma_same_signature(states, rep, y);
    let r = states[rep].advance_actions;
    let k = choose|k: int|
        0 <= k < r.len() && k < states[y].advance_actions.len() && p.ids[(#[trigger] r[k]).1.state as int]
            != p.ids[states[y].advance_actions[k].1.state as int];
    let a = states[x].advance_actions[k].1.state as int;
    let b = states[y].advance_actions[k].1.state as int;
    assert(p.ids[r[k].1.state as int] == p.ids[a]);
    assert(state_wf(states[x], states.len()));
    assert(state_wf(states[y], states.len()));
    assert(p.ids[a] != p.ids[b]);
    lemma_told_apart_by_action(states, x, y, k);
}

proof fn lemma_separated_split_from(states: Seq<StateModel>, p: Groups, g: int)
    requires
        table_wf(states),
        all_deterministic(states),
        groups_wf(states, p),
        well_separated(states, p),
        0 <= g,
    ensures
        well_separated(states, split_from(states, p, g)),
    decreases states.len() - g,
{
    lemma_group_count(states, p);
    if g < p.members.len() {
        lemma_split_group(states, p, g);
        lemma_separated_split(states, p, g);
        lemma_separated_split_from(states, split_group(states, p, g), g + 1);
    }
}

proof fn lemma_separated_refined(states: Seq<StateModel>, p: Groups)
    requires
        table_wf(states),
        all_deterministic(states),
        groups_wf(states, p),
        well_separated(states, p),
    ensures
        well_separated(states, refined(states, p)),
    decreases states.len() - p.members.len(),
{
    let q = split_from(states, p, 1);
    lemma_split_from(states, p, 1);
    lemma_separated_split_from(states, p, 1);
    if !(q.members.len() <= p.members.len() || q.members.len() > states.len()) {
        lemma_separated_refined(states, q);
    }
}

/// No two states that are left apart do the same: some text tells them from each other.
/// The minimized lexer has no more states than it needs.
pub proof fn law_joining_is_thorough(states: Seq<StateModel>, x: int, y: int)
    requires
        table_wf(states),
        all_deterministic(states),
        0 <= x < states.len(),
        0 <= y < states.len(),
        minimal_ids(states)[x] != minimal_ids(states)[y],
    ensures
        can_be_told_apart(states, x, y),
{
    let p = alike(states, states.len());
    lemma_alike_wf(states);
    assert forall|x: int, y: int|
        0 <= x < states.len() && 0 <= y < states.len() && #[trigger] p.ids[x] != #[trigger] p.ids[y] implies can_be_told_apart(
        states,
        x,
        y,
    ) by {
        if signature(states, x) == signature(states, y) {
            lemma_alike_groups(states, x, y);
        }
        lemma_unlike(states, x, y);
        let none = Seq::<Input>::empty();
        assert(tells_apart(states, x, y, none));
    }
    lemma_separated_refined(states, p);
}

/// States that are joined do the same: no text tells them from each other.
pub proof fn law_joined_states_agree(states: Seq<StateModel>, x: int, y: int, text: Seq<Input>)
    requires
        table_wf(states),
        0 <= x < states.len(),
        0 <= y < states.len(),
        minimal_ids(states)[x] == minimal_ids(states)[y],
    ensures
        !tells_apart(states, x, y, text),
    decreases text.len(),
{
    lemma_minimal_groups(states);
    if forall|i: int| 0 <= i < text.len() ==> (#[trigger] text[i]) is Some {
        lemma_same_path(states, x, y, text);
        if let Some(a) = run_table(states, x, text) {
            lemma_unlike(states, a, run_table(states, y, text)->0);
        }
    }
}

/// Some state has become state `g` of the minimized lexer.
pub open spec fn has_come_about(states: Seq<StateModel>, g: int) -> bool {
    exists|y: int| 0 <= y < states.len() && #[trigger] minimal_ids(states)[y] == g
}

/// What a group of joined states becomes is its first state, with each action leading to
/// what its target has become; every state of the minimized lexer has come about like that;
/// and no state is joined with the first state of the lexer.
pub proof fn law_joined_states_become_the_first(states: Seq<StateModel>, x: int)
    requires
        table_wf(states),
        0 <= x < states.len(),
        forall|y: int| 0 <= y < x ==> #[trigger] minimal_ids(states)[y] != minimal_ids(states)[x],
    ensures
        ({
            let ids = minimal_ids(states);
            let joined = minimized_table(states)[ids[x] as int];
            &&& looks_like(states[x], joined)
            &&& states[x].eof_action matches Some(action) ==> joined.eof_action == Some(
                AdvanceAction { state: ids[action.state as int], in_main_token: action.in_main_token },
            )
            &&& forall|k: int|
                0 <= k < states[x].advance_actions.len() ==> (#[trigger] joined.advance_actions[k]).1.state
                    == ids[states[x].advance_actions[k].1.state as int]
        }),
        forall|g: int| 0 <= g < minimized_table(states).len() ==> #[trigger] has_come_about(states, g),
        x > 0 ==> minimal_ids(states)[x] != minimal_ids(states)[0],
{
    let p = minimal_groups(states);
    let ids = minimal_ids(states);
    lemma_minimal_groups(states);
    assert(in_its_group(p, x as u32));
    let group = p.members[ids[x] as int];
    let first = group[0];
    assert(group.len() > 0 && strictly_sorted(group));
    assert(group.contains(first));
    let i = choose|i: int| 0 <= i < group.len() && group[i] == x as u32;
    assert(first == x) by {
        if i > 0 {
            assert(group[0] < group[i]);
            assert(ids[first as int] != ids[x]);
        }
    }
    lemma_renumbered(states[x], ids, None);
    assert forall|g: int| 0 <= g < minimized_table(states).len() implies #[trigger] has_come_about(states, g) by {
        let y = p.members[g][0];
        assert(p.members[g].contains(y));
        assert(ids[y as int] == g);
    }
    if x > 0 {
        assert(ids[0] != ids[x]);
    }
}

proof fn lemma_same_path(states: Seq<StateModel>, x: int, y: int, text: Seq<Input>)
    requires
        table_wf(states),
        0 <= x < states.len(),
        0 <= y < states.len(),
        minimal_ids(states)[x] == minimal_ids(states)[y],
        forall|i: int| 0 <= i < text.len() ==> (#[trigger] text[i]) is Some,
    ensures
        match (run_table(states, x, text), run_table(states, y, text)) {
            (Some(a), Some(b)) => 0 <= a < states.len() && 0 <= b < states.len() && minimal_ids(states)[a]
                == minimal_ids(states)[b] && signature(states, a) == signature(states, b),
            (None, None) => true,
            _ => false,
        },
    decreases text.len(),
{
    lemma_minimal_groups(states);
    if text.len() > 0 {
        let front = text.drop_last();
        assert forall|i: int| 0 <= i < front.len() implies (#[trigger] front[i]) is Some by {
            assert(front[i] == text[i]);
        }
        lemma_same_path(states, x, y, front);
        assert(text[text.len() - 1] is Some);
        let c = text.last()->0;
        if let Some(a) = run_table(states, x, front) {
            let b = run_table(states, y, front)->0;
            lemma_same_signature(states, a, b);
            lemma_same_first_action(states[a].advance_actions, states[b].advance_actions, c, 0);
            lemma_action_wf(states, a, Some(c));
            lemma_action_wf(states, b, Some(c));
            let k = first_action(states[a].advance_actions, c, 0);
            if k < states[a].advance_actions.len() {
                lemma_joined_targets(states, a, b, k as int);
            }
        }
    }
}

} // verus!
