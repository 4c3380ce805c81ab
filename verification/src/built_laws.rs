//! What the main lexer looks like in the end: no state of it is there for nothing, no two
//! do the same, and they are in order.

use vstd::prelude::*;

use crate::build_lex_table::{
    are_built, arguments_wf, entry_number, group_configs, group_of, main_id, plain_table, state_groups, state_tokens,
    tables_fit, LexTables,
};
use crate::configs::lemma_number_of;
use crate::keywords::KeywordRules;
use crate::lexer_laws::{law_end_of_input, law_lexer_follows_automaton, law_lexer_is_deterministic};
use crate::main_laws::{law_every_state_is_reached, leads_to, lemma_plain_table};
use crate::minimize::{lemma_minimal_groups, lemma_minimized_wf, minimal_groups, minimal_ids, minimized_table};
use crate::minimize_laws::{
    are_unlike, can_be_told_apart, has_come_about, law_first_state_stays, law_joined_states_agree,
    law_joined_states_become_the_first, law_joining_is_thorough, law_joining_keeps_behaviour, tells_apart,
};
use crate::order_laws::{
    actions_part_at, chars_go_before, end_goes_before, law_sorting_puts_states_in_order, state_goes_before,
    symbol_goes_before,
};
use crate::rules::Tokens;
use crate::sort_laws::{law_sorting_keeps_behaviour, law_sorting_renumbers, lemma_sorted_ids};
use crate::sort_states::{lemma_state_order, lemma_state_order_distinct, sorted_ids, sorted_table, state_order};
use crate::table_runs::{lemma_run_table_wf, looks_like, one_end, run_table, Input};
use crate::tables::{state_wf, table_wf, ParseTable, StateModel};
use crate::token_conflicts::{CoincidentTokenIndex, TokenConflictMap};
use crate::token_groups::{grouped, is_in_group, joined_group, lemma_grouped, lemma_joined_group};

verus! {

/// The number that state `z` has after the states have been joined and sorted.
spec fn became(plain: Seq<StateModel>, z: int) -> int {
    sorted_ids(minimized_table(plain))[minimal_ids(plain)[z] as int] as int
}

/// The lexer after its states have been joined and sorted.
spec fn finished(plain: Seq<StateModel>) -> Seq<StateModel> {
    sorted_table(minimized_table(plain))
}

/// What a state has become.
proof fn lemma_became(plain: Seq<StateModel>, z: int, text: Seq<Input>)
    requires
        table_wf(plain),
        one_end(plain),
        0 <= z < plain.len(),
    ensures
        0 <= became(plain, z) < finished(plain).len(),
        (z == 0) == (became(plain, z) == 0),
        run_table(plain, z, text) is None ==> run_table(finished(plain), became(plain, z), text) is None,
        run_table(plain, z, text) matches Some(c) ==> 0 <= c < plain.len() && run_table(
            finished(plain),
            became(plain, z),
            text,
        ) == Some(became(plain, c)) && looks_like(plain[c], finished(plain)[became(plain, c)]),
{
    let small = minimized_table(plain);
    let ids = minimal_ids(plain);
    lemma_minimal_groups(plain);
    lemma_minimized_wf(plain);
    law_first_state_stays(plain);
    law_sorting_renumbers(small);
    lemma_run_table_wf(plain, z, text);
    assert(ids[z] < small.len());
    assert(sorted_ids(small)[ids[z] as int] < small.len());
    if z > 0 {
        let none = Seq::<Input>::empty();
        if ids[z] == ids[0] {
            law_joined_states_agree(plain, 0, z, none);
            assert(are_unlike(plain, 0, z));
            assert(tells_apart(plain, 0, z, none));
        }
        assert(sorted_ids(small)[ids[z] as int] != sorted_ids(small)[0]);
    }
    law_joining_keeps_behaviour(plain, z, text);
    law_sorting_keeps_behaviour(small, ids[z] as int, text);
    if let Some(c) = run_table(plain, z, text) {
        assert(ids[c] < small.len());
        let a = plain[c];
        let b = small[ids[c] as int];
        let d = finished(plain)[became(plain, c)];
        assert(looks_like(a, b) && looks_like(b, d));
        assert forall|i: int| 0 <= i < a.advance_actions.len() implies (#[trigger] a.advance_actions[i]).0
            == d.advance_actions[i].0 && a.advance_actions[i].1.in_main_token == d.advance_actions[i].1.in_main_token by {
            assert(b.advance_actions[i].0 == d.advance_actions[i].0);
        }
    }
}

/// Where a state of the sorted lexer was before.
proof fn lemma_was_sorted(small: Seq<StateModel>, x: int) -> (o: int)
    requires
        table_wf(small),
        0 <= x < small.len(),
    ensures
        0 <= o < small.len(),
        sorted_ids(small)[o] == x,
        (x == 0) == (o == 0),
        looks_like(small[o], sorted_table(small)[x]),
{
    lemma_state_order(small);
    let order = state_order(small);
    let o = order[x] as int;
    assert(order[x] < small.len());
    lemma_sorted_ids(small, o);
    lemma_state_order_distinct(small, order, x, sorted_ids(small)[o] as int);
    law_sorting_renumbers(small);
    let none = Seq::<Input>::empty();
    law_sorting_keeps_behaviour(small, o, none);
    o
}

/// Where a state of the finished lexer was at first.
proof fn lemma_was(plain: Seq<StateModel>, x: int) -> (z: int)
    requires
        table_wf(plain),
        0 < plain.len(),
        0 <= x < finished(plain).len(),
    ensures
        0 <= z < plain.len(),
        became(plain, z) == x,
{
    let small = minimized_table(plain);
    lemma_minimized_wf(plain);
    let o = lemma_was_sorted(small, x);
    law_joined_states_become_the_first(plain, 0);
    assert(has_come_about(plain, o));
    choose|z: int| 0 <= z < plain.len() && #[trigger] minimal_ids(plain)[z] == o
}

/// The lexer before its states are joined and sorted.
proof fn lemma_plain(rules: KeywordRules<'_>, index: &CoincidentTokenIndex, before: ParseTable)
    requires
        arguments_wf(rules, index, before),
        tables_fit(rules, index, before),
    ensures
        table_wf(plain_table(rules, index, before)),
        one_end(plain_table(rules, index, before)),
        0 < plain_table(rules, index, before).len(),
{
    let configs = group_configs(rules.lexical_grammar, state_groups(rules, index, before));
    lemma_plain_table(rules, index, before, 0);
    law_end_of_input(rules.lexical_grammar, configs);
}

/// No two states of the main lexer do the same: some text tells them from each other, or
/// one of them is the first state.
pub proof fn law_built_lexer_is_minimal(
    rules: KeywordRules<'_>,
    index: &CoincidentTokenIndex,
    before: ParseTable,
    after: ParseTable,
    tables: LexTables,
    x: int,
    y: int,
)
    requires
        arguments_wf(rules, index, before),
        tables_fit(rules, index, before),
        are_built(rules, index, before, after, tables),
        0 <= x < tables.main_lex_table@.len(),
        0 <= y < tables.main_lex_table@.len(),
        x != y,
    ensures
        can_be_told_apart(tables.main_lex_table@, x, y),
{
    let g = rules.lexical_grammar;
    let plain = plain_table(rules, index, before);
    let table = finished(plain);
    lemma_plain(rules, index, before);
    lemma_plain_table(rules, index, before, 0);
    law_lexer_is_deterministic(g, group_configs(g, state_groups(rules, index, before)));
    assert(tables.main_lex_table@ == table);
    let a = lemma_was(plain, x);
    let b = lemma_was(plain, y);
    law_joining_is_thorough(plain, a, b);
    let text = choose|text: Seq<Input>| tells_apart(plain, a, b, text);
    lemma_became(plain, a, text);
    lemma_became(plain, b, text);
    let none = Seq::<Input>::empty();
    if let Some(c) = run_table(plain, a, text) {
        if let Some(d) = run_table(plain, b, text) {
            lemma_became(plain, c, none);
            lemma_became(plain, d, none);
            let p = plain[c];
            let q = plain[d];
            let r = table[became(plain, c)];
            let s = table[became(plain, d)];
            assert(looks_like(p, r) && looks_like(q, s));
            if looks_like(r, s) {
                assert forall|i: int| 0 <= i < p.advance_actions.len() implies (#[trigger] p.advance_actions[i]).0
                    == q.advance_actions[i].0 && p.advance_actions[i].1.in_main_token
                    == q.advance_actions[i].1.in_main_token by {
                    assert(r.advance_actions[i].0 == s.advance_actions[i].0);
                    assert(q.advance_actions[i].0 == s.advance_actions[i].0);
                }
                assert(looks_like(p, q));
            }
            assert(are_unlike(table, became(plain, c), became(plain, d)));
        }
    }
    assert(tells_apart(table, x, y, text));
}

/// Every group has a parse state.
proof fn lemma_group_has_member(m: &TokenConflictMap, index: &CoincidentTokenIndex, sets: Seq<Tokens>, k: int) -> (i: int)
    requires
        sets.len() <= u32::MAX + 1,
        0 <= k < grouped(m, index, sets).len(),
    ensures
        0 <= i < sets.len(),
        is_in_group(grouped(m, index, sets), i, k),
    decreases sets.len(),
{
    let front = sets.drop_last();
    let last = sets.len() - 1;
    lemma_joined_group(m, index, sets, last, k);
    if k == joined_group(m, index, sets) {
        last
    } else {
        let i = lemma_group_has_member(m, index, front, k);
        lemma_joined_group(m, index, sets, i, k);
        i
    }
}

/// Parse state `i` leads to state `x` of the main lexer: some text does so from the state
/// in which the lexer starts for it.
pub open spec fn is_led_to(table: Seq<StateModel>, after: ParseTable, i: int, text: Seq<Input>, x: int) -> bool {
    0 <= i < after.states@.len() && run_table(table, after.states@[i].lex_state_id as int, text) == Some(x)
}

/// No state of the main lexer is there for nothing: from some parse state, some text leads
/// to it.
pub proof fn law_built_lexer_is_reached(
    rules: KeywordRules<'_>,
    index: &CoincidentTokenIndex,
    before: ParseTable,
    after: ParseTable,
    tables: LexTables,
    x: int,
)
    requires
        arguments_wf(rules, index, before),
        tables_fit(rules, index, before),
        are_built(rules, index, before, after, tables),
        0 <= x < tables.main_lex_table@.len(),
    ensures
        exists|i: int, text: Seq<Input>| is_led_to(tables.main_lex_table@, after, i, text, x),
{
    let g = rules.lexical_grammar;
    let sets = state_tokens(rules, before);
    let groups = state_groups(rules, index, before);
    let configs = group_configs(g, groups);
    let plain = plain_table(rules, index, before);
    lemma_plain(rules, index, before);
    let z = lemma_was(plain, x);
    law_every_state_is_reached(g, groups, z);
    let (k, text) = choose|k: int, text: Seq<Input>| leads_to(g, groups, k, text, configs[z]);
    lemma_grouped(rules.token_conflict_map, index, sets);
    let i = lemma_group_has_member(rules.token_conflict_map, index, sets, k);
    assert(is_in_group(groups, i, group_of(groups, i)));
    assert(group_of(groups, i) == k);
    lemma_plain_table(rules, index, before, i);
    let start = entry_number(g, groups, i) as int;
    law_lexer_follows_automaton(g, configs, start, text);
    lemma_number_of(g, configs, configs, configs[z]);
    assert(configs.index_of(configs[z]) == z);
    assert(run_table(plain, start, text) == Some(z));
    lemma_became(plain, start, text);
    assert(after.states@[i].lex_state_id == main_id(rules, index, before, i));
    assert(is_led_to(tables.main_lex_table@, after, i, text, x));
}

/// The states of the main lexer after the first are in order: by what they accept, then by
/// whether they have an action at the end of the input, then by the characters of their
/// first action, if they have one.
pub proof fn law_built_lexer_is_in_order(
    rules: KeywordRules<'_>,
    index: &CoincidentTokenIndex,
    before: ParseTable,
    after: ParseTable,
    tables: LexTables,
    x: int,
    y: int,
)
    requires
        arguments_wf(rules, index, before),
        tables_fit(rules, index, before),
        are_built(rules, index, before, after, tables),
        0 < x < y < tables.main_lex_table@.len(),
    ensures
        ({
            let a = tables.main_lex_table@[x];
            let b = tables.main_lex_table@[y];
            &&& !symbol_goes_before(b.accept_action, a.accept_action)
            &&& a.accept_action == b.accept_action ==> !(a.eof_action is Some && b.eof_action is None)
            &&& a.accept_action == b.accept_action && (a.eof_action is Some) == (b.eof_action is Some) ==> {
                &&& b.advance_actions.len() == 0 ==> a.advance_actions.len() == 0
                &&& a.advance_actions.len() > 0 && b.advance_actions.len() > 0 ==> !chars_go_before(
                    b.advance_actions[0].0,
                    a.advance_actions[0].0,
                )
            }
        }),
{
    let plain = plain_table(rules, index, before);
    let small = minimized_table(plain);
    lemma_plain(rules, index, before);
    lemma_minimized_wf(plain);
    let o = lemma_was_sorted(small, x);
    let p = lemma_was_sorted(small, y);
    let s = small[o];
    let t = small[p];
    assert(state_wf(s, small.len()) && state_wf(t, small.len()));
    if s.eof_action is Some && t.eof_action is Some {
        lemma_minimal_groups(plain);
        let members = minimal_groups(plain).members;
        assert(members[o].contains(members[o][0]) && members[p].contains(members[p][0]));
        assert(plain[members[o][0] as int].eof_action is Some);
        assert(plain[members[p][0] as int].eof_action is Some);
        assert(s.eof_action == t.eof_action);
    }
    if state_goes_before(t, s) {
        law_sorting_puts_states_in_order(small, p, o);
    }
    let a = tables.main_lex_table@[x];
    let b = tables.main_lex_table@[y];
    assert(looks_like(s, a) && looks_like(t, b));
    assert(symbol_goes_before(b.accept_action, a.accept_action) ==> symbol_goes_before(t.accept_action, s.accept_action));
    assert(a.eof_action is Some && b.eof_action is None ==> end_goes_before(t.eof_action, s.eof_action));
    if a.accept_action == b.accept_action && (a.eof_action is Some) == (b.eof_action is Some) {
        if b.advance_actions.len() == 0 && a.advance_actions.len() > 0 {
            assert(actions_part_at(t.advance_actions, s.advance_actions, 0));
        }
        if a.advance_actions.len() > 0 && b.advance_actions.len() > 0 && chars_go_before(
            b.advance_actions[0].0,
            a.advance_actions[0].0,
        ) {
            assert(s.advance_actions[0].0 == a.advance_actions[0].0);
            assert(t.advance_actions[0].0 == b.advance_actions[0].0);
            assert(actions_part_at(t.advance_actions, s.advance_actions, 0));
        }
    }
}

} // verus!
