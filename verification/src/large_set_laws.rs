//! What the list of large character sets holds.

use vstd::prelude::*;

use crate::build_lex_table::{are_built, group_configs, tables_fit, LexTables};
use crate::builder::numbers_fit;
use crate::character_set::{holds, lemma_canonical, ranges_wf, CharRange, END};
use crate::configs::{
    entry_config, lemma_number_of, lemma_table_for_wf, lemma_with_entry, state_for, table_for, with_entry, Config,
};
use crate::grammars::LexicalGrammar;
use crate::keywords::KeywordRules;
use crate::large_sets::{
    covers_token, is_listed, large_sets, reads_in_token, set_views, token_chars, token_configs, with_separators,
    with_set, with_state, with_states, LargeSet, LARGE_CHARACTER_RANGE_COUNT,
};
use crate::lexer_laws::{
    inputs, is_complete, law_end_of_input, law_lexer_follows_automaton, law_lexer_is_deterministic,
    law_lexer_runs_the_automaton, run_config,
};
use crate::lexing_laws::{
    are_read_alike, are_tokens, can_read, goes_on, is_read_in_token, law_configuration_after_text, lemma_does_right,
    lemma_read_alike,
};
use crate::main_laws::{law_every_state_is_reached, leads_to};
use crate::rules::{terminal_symbol, Symbol, SymbolType, Tokens};
use crate::table_runs::{action_on, first_action, is_deterministic, lemma_first_action, Input};
use crate::tables::{state_wf, AdvanceAction, ParseTable, StateModel};
use crate::token_conflicts::CoincidentTokenIndex;
use crate::token_groups::TokenGroup;

verus! {

/// Every set of the list is large, and none is there twice.
pub open spec fn is_large_list(sets: Seq<LargeSet>) -> bool {
    &&& forall|k: int| 0 <= k < sets.len() ==> (#[trigger] sets[k]).1.len() > LARGE_CHARACTER_RANGE_COUNT
    &&& forall|j: int, k: int| 0 <= j < k < sets.len() ==> (#[trigger] sets[j]).1 != (#[trigger] sets[k]).1
}

/// What is in the one list is in the other.
spec fn keeps(a: Seq<LargeSet>, b: Seq<LargeSet>) -> bool {
    forall|chars: Seq<CharRange>| #[trigger] is_listed(a, chars) ==> is_listed(b, chars)
}

proof fn lemma_with_set(sets: Seq<LargeSet>, symbol: Option<Symbol>, chars: Seq<CharRange>)
    requires
        is_large_list(sets),
    ensures
        is_large_list(with_set(sets, symbol, chars)),
        keeps(sets, with_set(sets, symbol, chars)),
        chars.len() > LARGE_CHARACTER_RANGE_COUNT ==> is_listed(with_set(sets, symbol, chars), chars),
{
    let all = with_set(sets, symbol, chars);
    assert forall|c: Seq<CharRange>| #[trigger] is_listed(sets, c) implies is_listed(all, c) by {
        let k = choose|k: int| 0 <= k < sets.len() && (#[trigger] sets[k]).1 == c;
        assert(all[k].1 == c);
    }
    if chars.len() > LARGE_CHARACTER_RANGE_COUNT && !is_listed(sets, chars) {
        assert(all[sets.len() as int].1 == chars);
    }
}

proof fn lemma_with_separators(sets: Seq<LargeSet>, actions: Seq<(Seq<CharRange>, AdvanceAction)>)
    requires
        is_large_list(sets),
    ensures
        is_large_list(with_separators(sets, actions)),
        keeps(sets, with_separators(sets, actions)),
        forall|k: int|
            0 <= k < actions.len() && !(#[trigger] actions[k]).1.in_main_token && actions[k].0.len()
                > LARGE_CHARACTER_RANGE_COUNT ==> is_listed(with_separators(sets, actions), actions[k].0),
    decreases actions.len(),
{
    if actions.len() > 0 {
        let front = actions.drop_last();
        lemma_with_separators(sets, front);
        let some = with_separators(sets, front);
        let all = with_separators(sets, actions);
        lemma_with_set(some, None, actions.last().0);
        assert(keeps(some, all));
        assert forall|k: int|
            0 <= k < actions.len() && !(#[trigger] actions[k]).1.in_main_token && actions[k].0.len()
                > LARGE_CHARACTER_RANGE_COUNT implies is_listed(all, actions[k].0) by {
            if k < front.len() {
                assert(front[k] == actions[k]);
                assert(is_listed(some, front[k].0));
            }
        }
        assert forall|c: Seq<CharRange>| #[trigger] is_listed(sets, c) implies is_listed(all, c) by {
            assert(is_listed(some, c));
        }
    }
}

/// The large sets of the state are in the list.
pub open spec fn has_sets_of(sets: Seq<LargeSet>, state: StateModel) -> bool {
    &&& forall|k: int|
        0 <= k < state.advance_actions.len() && !(#[trigger] state.advance_actions[k]).1.in_main_token
            && state.advance_actions[k].0.len() > LARGE_CHARACTER_RANGE_COUNT ==> is_listed(
            sets,
            state.advance_actions[k].0,
        )
    &&& token_chars(state.advance_actions).len() > LARGE_CHARACTER_RANGE_COUNT ==> is_listed(
        sets,
        token_chars(state.advance_actions),
    )
}

proof fn lemma_has_sets_kept(a: Seq<LargeSet>, b: Seq<LargeSet>, state: StateModel)
    requires
        keeps(a, b),
        has_sets_of(a, state),
    ensures
        has_sets_of(b, state),
{
}

proof fn lemma_with_states(sets: Seq<LargeSet>, symbol: Symbol, states: Seq<StateModel>)
    requires
        is_large_list(sets),
    ensures
        is_large_list(with_states(sets, symbol, states)),
        keeps(sets, with_states(sets, symbol, states)),
        forall|x: int| 0 <= x < states.len() ==> has_sets_of(with_states(sets, symbol, states), #[trigger] states[x]),
    decreases states.len(),
{
    if states.len() > 0 {
        let front = states.drop_last();
        let last = states.last();
        lemma_with_states(sets, symbol, front);
        let some = with_states(sets, symbol, front);
        let middle = with_separators(some, last.advance_actions);
        let all = with_states(sets, symbol, states);
        lemma_with_separators(some, last.advance_actions);
        lemma_with_set(middle, Some(symbol), token_chars(last.advance_actions));
        assert(all == with_state(some, symbol, last));
        assert forall|c: Seq<CharRange>| #[trigger] is_listed(some, c) implies is_listed(all, c) by {
            assert(is_listed(middle, c));
        }
        assert forall|c: Seq<CharRange>| #[trigger] is_listed(sets, c) implies is_listed(all, c) by {
            assert(is_listed(some, c));
        }
        assert forall|x: int| 0 <= x < states.len() implies has_sets_of(all, #[trigger] states[x]) by {
            if x < front.len() {
                assert(front[x] == states[x]);
                lemma_has_sets_kept(some, all, states[x]);
            }
        }
    }
}

proof fn lemma_large_sets(g: &LexicalGrammar, n: nat)
    ensures
        is_large_list(large_sets(g, n)),
        forall|v: int, x: int|
            0 <= v < n && 0 <= x < table_for(g, token_configs(g, v)).len() ==> has_sets_of(
                large_sets(g, n),
                #[trigger] table_for(g, token_configs(g, v))[x],
            ),
    decreases n,
{
    if n > 0 {
        let m = (n - 1) as nat;
        lemma_large_sets(g, m);
        let states = table_for(g, token_configs(g, m as int));
        lemma_with_states(large_sets(g, m), terminal_symbol(m as int), states);
        assert forall|v: int, x: int| 0 <= v < n && 0 <= x < table_for(g, token_configs(g, v)).len() implies has_sets_of(
            large_sets(g, n),
            #[trigger] table_for(g, token_configs(g, v))[x],
        ) by {
            if v < m {
                lemma_has_sets_kept(large_sets(g, m), large_sets(g, n), table_for(g, token_configs(g, v))[x]);
            }
        }
    }
}

/// Every set in the list is large, and none is there twice.
pub proof fn law_listed_sets_are_large(g: &LexicalGrammar, n: nat)
    ensures
        is_large_list(large_sets(g, n)),
{
    lemma_large_sets(g, n);
}

/// No large set is left out: for each token, the list has every large set by which its
/// lexer skips separators, and every large set of characters that a state of its lexer
/// reads as part of the token.
pub proof fn law_all_large_sets_are_listed(g: &LexicalGrammar, n: nat, token: int, x: int)
    requires
        0 <= token < n,
        0 <= x < table_for(g, token_configs(g, token)).len(),
    ensures
        has_sets_of(large_sets(g, n), table_for(g, token_configs(g, token))[x]),
{
    lemma_large_sets(g, n);
}

/// The characters below `n` for which `wanted` holds make up a set.
proof fn lemma_set_of(wanted: spec_fn(int) -> bool, n: nat) -> (chars: Seq<CharRange>)
    requires
        n <= END,
    ensures
        ranges_wf(chars),
        chars.len() > 0 ==> chars.last().end <= n,
        forall|c: int| #[trigger] holds(chars, c) <==> 0 <= c < n && wanted(c),
    decreases n,
{
    if n == 0 {
        Seq::empty()
    } else {
        let m = (n - 1) as nat;
        let some = lemma_set_of(wanted, m);
        if !wanted(m as int) {
            assert forall|c: int| #[trigger] holds(some, c) <==> 0 <= c < n && wanted(c) by {
                assert(holds(some, c) <==> 0 <= c < m && wanted(c));
            }
            some
        } else if some.len() > 0 && some.last().end == m {
            let last = some.len() - 1;
            let all = some.update(last, CharRange { start: some[last].start, end: n as u32 });
            assert forall|c: int| #[trigger] holds(all, c) <==> 0 <= c < n && wanted(c) by {
                assert(holds(some, c) <==> 0 <= c < m && wanted(c));
                if holds(some, c) {
                    let i = choose|i: int| 0 <= i < some.len() && (#[trigger] some[i]).start <= c < some[i].end;
                    assert(all[i].start <= c < all[i].end);
                }
                if c == m {
                    assert(all[last].start <= c < all[last].end);
                }
                if holds(all, c) && c != m {
                    let i = choose|i: int| 0 <= i < all.len() && (#[trigger] all[i]).start <= c < all[i].end;
                    assert(some[i].start <= c < some[i].end);
                }
            }
            all
        } else {
            let one = CharRange { start: m as u32, end: n as u32 };
            let all = some.push(one);
            let last = some.len() as int;
            assert forall|i: int| 0 <= i < last implies (#[trigger] some[i]).end < m by {
                if i < last - 1 {
                    assert(some[i].end < some[last - 1].start);
                    assert(some[last - 1].start < some[last - 1].end);
                }
            }
            assert forall|c: int| #[trigger] holds(all, c) <==> 0 <= c < n && wanted(c) by {
                assert(holds(some, c) <==> 0 <= c < m && wanted(c));
                if holds(some, c) {
                    let i = choose|i: int| 0 <= i < some.len() && (#[trigger] some[i]).start <= c < some[i].end;
                    assert(all[i].start <= c < all[i].end);
                }
                if c == m {
                    assert(all[last].start <= c < all[last].end);
                }
                if holds(all, c) && c != m {
                    let i = choose|i: int| 0 <= i < all.len() && (#[trigger] all[i]).start <= c < all[i].end;
                    assert(some[i].start <= c < some[i].end);
                }
            }
            all
        }
    }
}

/// What a state reads as part of a token makes up a set, and just one.
proof fn lemma_token_chars(actions: Seq<(Seq<CharRange>, AdvanceAction)>)
    requires
        forall|k: int| 0 <= k < actions.len() ==> ranges_wf((#[trigger] actions[k]).0),
    ensures
        covers_token(actions, token_chars(actions)),
        forall|chars: Seq<CharRange>| #[trigger] covers_token(actions, chars) ==> chars == token_chars(actions),
{
    let chars = lemma_set_of(|c: int| reads_in_token(actions, c), END as nat);
    assert forall|c: int| #[trigger] holds(chars, c) <==> reads_in_token(actions, c) by {
        if reads_in_token(actions, c) {
            let k = choose|k: int|
                0 <= k < actions.len() && (#[trigger] actions[k]).1.in_main_token && holds(actions[k].0, c);
            let i = choose|i: int|
                0 <= i < actions[k].0.len() && (#[trigger] actions[k].0[i]).start <= c < actions[k].0[i].end;
            assert(actions[k].0[i].end <= END);
        }
    }
    assert(covers_token(actions, chars));
    let all = token_chars(actions);
    assert forall|other: Seq<CharRange>| #[trigger] covers_token(actions, other) implies other == all by {
        assert forall|c: int| #[trigger] holds(other, c) == holds(all, c) by {
            assert(holds(all, c) <==> reads_in_token(actions, c));
        }
        lemma_canonical(other, all);
    }
}

/// A place where a set can be found: a token; a state of the lexer that looks for just
/// that token; and one of the actions of the state, or the number of its actions for what
/// the state reads as part of the token.
pub type Place = (int, int, int);

/// The places are looked at token by token, state by state, action by action.
pub open spec fn comes_before(p: Place, q: Place) -> bool {
    p.0 < q.0 || (p.0 == q.0 && (p.1 < q.1 || (p.1 == q.1 && p.2 < q.2)))
}

/// What is found at a place: for an action that reads separators, its characters; for the
/// state as a whole, what it reads as part of the token, together with the token.
pub open spec fn is_found_at(g: &LexicalGrammar, p: Place, found: LargeSet) -> bool {
    let states = table_for(g, token_configs(g, p.0));
    let actions = states[p.1].advance_actions;
    &&& 0 <= p.0 && 0 <= p.1 < states.len()
    &&& {
        ||| 0 <= p.2 < actions.len() && !actions[p.2].1.in_main_token && found == (None::<Symbol>, actions[p.2].0)
        ||| {
            &&& p.2 == actions.len()
            &&& found.0 == Some(Symbol { kind: SymbolType::Terminal, index: p.0 as u32 })
            &&& covers_token(actions, found.1)
        }
    }
}

/// The set is in the list, for a place that is not after `p`.
pub open spec fn is_listed_by(sets: Seq<LargeSet>, at: Seq<Place>, chars: Seq<CharRange>, p: Place) -> bool {
    exists|k: int| 0 <= k < sets.len() && (#[trigger] sets[k]).1 == chars && !comes_before(p, at[k])
}

/// The list holds each large set that is found before `end`, as it is found at the first
/// place that has it, in the order of those places `at`; and nothing else.
pub open spec fn lists_up_to(g: &LexicalGrammar, sets: Seq<LargeSet>, at: Seq<Place>, end: Place) -> bool {
    &&& at.len() == sets.len()
    &&& forall|k: int|
        0 <= k < sets.len() ==> is_found_at(g, at[k], #[trigger] sets[k]) && comes_before(at[k], end) && sets[k].1.len() > 8
    &&& forall|j: int, k: int|
        0 <= j < k < sets.len() ==> comes_before(#[trigger] at[j], #[trigger] at[k]) && sets[j].1 != sets[k].1
    &&& forall|p: Place, found: LargeSet|
        #[trigger] is_found_at(g, p, found) && comes_before(p, end) && found.1.len() > 8 ==> is_listed_by(
            sets,
            at,
            found.1,
            p,
        )
}

proof fn lemma_list_passes(g: &LexicalGrammar, sets: Seq<LargeSet>, at: Seq<Place>, end: Place, next: Place)
    requires
        lists_up_to(g, sets, at, end),
        comes_before(end, next),
        forall|p: Place, found: LargeSet|
            #[trigger] is_found_at(g, p, found) && comes_before(p, next) ==> comes_before(p, end),
    ensures
        lists_up_to(g, sets, at, next),
{
    assert forall|k: int| 0 <= k < sets.len() implies is_found_at(g, at[k], #[trigger] sets[k]) && comes_before(
        at[k],
        next,
    ) && sets[k].1.len() > 8 by {
        let entry = sets[k];
        assert(is_found_at(g, at[k], entry) && comes_before(at[k], end));
    }
    assert forall|p: Place, found: LargeSet|
        #[trigger] is_found_at(g, p, found) && comes_before(p, next) && found.1.len() > 8 implies is_listed_by(
        sets,
        at,
        found.1,
        p,
    ) by {
        assert(comes_before(p, end));
    }
}

proof fn lemma_list_grows(
    g: &LexicalGrammar,
    sets: Seq<LargeSet>,
    at: Seq<Place>,
    p: Place,
    found: LargeSet,
    next: Place,
) -> (places: Seq<Place>)
    requires
        lists_up_to(g, sets, at, p),
        is_found_at(g, p, found),
        forall|other: LargeSet| #[trigger] is_found_at(g, p, other) ==> other == found,
        comes_before(p, next),
        forall|q: Place, other: LargeSet|
            #[trigger] is_found_at(g, q, other) && comes_before(q, next) ==> comes_before(q, p) || q == p,
    ensures
        lists_up_to(g, with_set(sets, found.0, found.1), places, next),
{
    let all = with_set(sets, found.0, found.1);
    if found.1.len() > LARGE_CHARACTER_RANGE_COUNT && !is_listed(sets, found.1) {
        let places = at.push(p);
        assert forall|q: Place, other: LargeSet|
            #[trigger] is_found_at(g, q, other) && comes_before(q, next) && other.1.len() > 8 implies is_listed_by(
            all,
            places,
            other.1,
            q,
        ) by {
            if q == p {
                assert(all[sets.len() as int] == found);
                assert(places[sets.len() as int] == p);
            } else {
                assert(is_listed_by(sets, at, other.1, q));
                let k = choose|k: int| 0 <= k < sets.len() && (#[trigger] sets[k]).1 == other.1 && !comes_before(q, at[k]);
                assert(all[k] == sets[k] && places[k] == at[k]);
            }
        }
        assert forall|j: int, k: int| 0 <= j < k < all.len() implies comes_before(
            #[trigger] places[j],
            #[trigger] places[k],
        ) && all[j].1 != all[k].1 by {
            assert(all[j] == sets[j] && places[j] == at[j]);
            if k < sets.len() {
                assert(all[k] == sets[k] && places[k] == at[k]);
            }
        }
        assert forall|k: int| 0 <= k < all.len() implies is_found_at(g, places[k], #[trigger] all[k]) && comes_before(
            places[k],
            next,
        ) && all[k].1.len() > 8 by {
            if k < sets.len() {
                assert(all[k] == sets[k] && places[k] == at[k]);
            }
        }
        places
    } else {
        assert forall|q: Place, other: LargeSet|
            #[trigger] is_found_at(g, q, other) && comes_before(q, next) && other.1.len() > 8 implies is_listed_by(
            all,
            at,
            other.1,
            q,
        ) by {
            if q == p {
                let k = choose|k: int| 0 <= k < sets.len() && (#[trigger] sets[k]).1 == found.1;
                assert(is_found_at(g, at[k], sets[k]) && comes_before(at[k], p));
            }
        }
        assert forall|k: int| 0 <= k < all.len() implies is_found_at(g, at[k], #[trigger] all[k]) && comes_before(
            at[k],
            next,
        ) && all[k].1.len() > 8 by {
            assert(is_found_at(g, at[k], sets[k]) && comes_before(at[k], p));
        }
        at
    }
}

/// The actions of each state read proper sets.
spec fn are_proper(states: Seq<StateModel>) -> bool {
    forall|x: int, k: int|
        0 <= x < states.len() && 0 <= k < states[x].advance_actions.len() ==> ranges_wf(
            (#[trigger] states[x].advance_actions[k]).0,
        )
}

proof fn lemma_separators_listed(
    g: &LexicalGrammar,
    sets: Seq<LargeSet>,
    at: Seq<Place>,
    v: int,
    x: int,
    n: nat,
) -> (places: Seq<Place>)
    requires
        0 <= v,
        0 <= x < table_for(g, token_configs(g, v)).len(),
        n <= table_for(g, token_configs(g, v))[x].advance_actions.len(),
        lists_up_to(g, sets, at, (v, x, 0)),
    ensures
        lists_up_to(
            g,
            with_separators(sets, table_for(g, token_configs(g, v))[x].advance_actions.take(n as int)),
            places,
            (v, x, n as int),
        ),
    decreases n,
{
    let actions = table_for(g, token_configs(g, v))[x].advance_actions;
    let some = actions.take(n as int);
    if n == 0 {
        at
    } else {
        let m = (n - 1) as nat;
        let front = lemma_separators_listed(g, sets, at, v, x, m);
        assert(some.drop_last() =~= actions.take(m as int));
        assert(some.last() == actions[m as int]);
        let listed = with_separators(sets, actions.take(m as int));
        let p = (v, x, m as int);
        let next = (v, x, n as int);
        if actions[m as int].1.in_main_token {
            assert forall|q: Place, other: LargeSet| #[trigger] is_found_at(g, q, other) && comes_before(q, next) implies
                comes_before(q, p) by {}
            lemma_list_passes(g, listed, front, p, next);
            front
        } else {
            let found: LargeSet = (None, actions[m as int].0);
            assert(is_found_at(g, p, found));
            lemma_list_grows(g, listed, front, p, found, next)
        }
    }
}

proof fn lemma_state_listed(g: &LexicalGrammar, sets: Seq<LargeSet>, at: Seq<Place>, v: int, x: int) -> (places: Seq<Place>)
    requires
        0 <= v,
        0 <= x < table_for(g, token_configs(g, v)).len(),
        are_proper(table_for(g, token_configs(g, v))),
        lists_up_to(g, sets, at, (v, x, 0)),
    ensures
        lists_up_to(
            g,
            with_state(sets, terminal_symbol(v), table_for(g, token_configs(g, v))[x]),
            places,
            (v, x + 1, 0),
        ),
{
    let state = table_for(g, token_configs(g, v))[x];
    let actions = state.advance_actions;
    let front = lemma_separators_listed(g, sets, at, v, x, actions.len());
    assert(actions.take(actions.len() as int) =~= actions);
    assert forall|k: int| 0 <= k < actions.len() implies ranges_wf((#[trigger] actions[k]).0) by {
        assert(ranges_wf(table_for(g, token_configs(g, v))[x].advance_actions[k].0));
    }
    lemma_token_chars(actions);
    let p = (v, x, actions.len() as int);
    let found: LargeSet = (Some(terminal_symbol(v)), token_chars(actions));
    assert(is_found_at(g, p, found));
    lemma_list_grows(g, with_separators(sets, actions), front, p, found, (v, x + 1, 0))
}

proof fn lemma_states_listed(
    g: &LexicalGrammar,
    sets: Seq<LargeSet>,
    at: Seq<Place>,
    v: int,
    n: nat,
) -> (places: Seq<Place>)
    requires
        0 <= v,
        n <= table_for(g, token_configs(g, v)).len(),
        are_proper(table_for(g, token_configs(g, v))),
        lists_up_to(g, sets, at, (v, 0, 0)),
    ensures
        lists_up_to(
            g,
            with_states(sets, terminal_symbol(v), table_for(g, token_configs(g, v)).take(n as int)),
            places,
            (v, n as int, 0),
        ),
    decreases n,
{
    let states = table_for(g, token_configs(g, v));
    if n == 0 {
        at
    } else {
        let m = (n - 1) as nat;
        let some = states.take(n as int);
        let front = lemma_states_listed(g, sets, at, v, m);
        assert(some.drop_last() =~= states.take(m as int));
        assert(some.last() == states[m as int]);
        lemma_state_listed(g, with_states(sets, terminal_symbol(v), states.take(m as int)), front, v, m as int)
    }
}

/// The lexers that look for just one of the first `n` tokens can be numbered with 32 bits.
pub open spec fn lexers_fit(g: &LexicalGrammar, n: nat) -> bool {
    forall|v: int| 0 <= v < n ==> numbers_fit(#[trigger] token_configs(g, v))
}

/// The list of large sets is in order: it holds each large set once, as it is found at the
/// first place that has it, in the order of those places.
pub proof fn law_large_sets_in_order(g: &LexicalGrammar, n: nat) -> (at: Seq<Place>)
    requires
        g.wf(),
        n <= g.variables@.len(),
        lexers_fit(g, n),
    ensures
        lists_up_to(g, large_sets(g, n), at, (n as int, 0, 0)),
    decreases n,
{
    if n == 0 {
        let none = Seq::<Place>::empty();
        assert forall|p: Place, found: LargeSet| #[trigger] is_found_at(g, p, found) implies !comes_before(p, (0, 0, 0)) by {}
        none
    } else {
        let m = (n - 1) as nat;
        let v = m as int;
        let front = law_large_sets_in_order(g, m);
        let states = table_for(g, token_configs(g, v));
        lemma_token_configs(g, v);
        lemma_table_for_wf(g, token_configs(g, v));
        assert forall|x: int, k: int| 0 <= x < states.len() && 0 <= k < states[x].advance_actions.len() implies ranges_wf(
            (#[trigger] states[x].advance_actions[k]).0,
        ) by {
            assert(state_wf(states[x], states.len()));
        }
        let places = lemma_states_listed(g, large_sets(g, m), front, v, states.len());
        assert(states.take(states.len() as int) =~= states);
        assert forall|p: Place, found: LargeSet|
            #[trigger] is_found_at(g, p, found) && comes_before(p, (n as int, 0, 0)) implies comes_before(
            p,
            (v, states.len() as int, 0),
        ) by {}
        lemma_list_passes(g, large_sets(g, n), places, (v, states.len() as int, 0), (n as int, 0, 0));
        places
    }
}

/// The lexer for just one token has all states that it needs.
proof fn lemma_token_configs(g: &LexicalGrammar, v: int)
    requires
        g.wf(),
        0 <= v < g.variables@.len(),
        numbers_fit(token_configs(g, v)),
    ensures
        is_complete(g, token_configs(g, v)),
        token_configs(g, v).contains(entry_config(g, only(v))),
        token_configs(g, v) == with_entry(g, Seq::empty(), only(v)),
        are_tokens(g, only(v)),
{
    assert(Tokens::none().with(terminal_symbol(v)) == only(v));
    lemma_with_entry(g, Seq::empty(), only(v));
}

/// Just the one token.
pub open spec fn only(v: int) -> Tokens {
    Tokens {
        terminals: Set::empty().insert(v),
        externals: Set::empty(),
        eof: false,
        end_of_nonterminal_extra: false,
    }
}

/// The set is what the lexer that looks for just token `v` goes on with, after the text,
/// as part of the token.
pub open spec fn is_token_set(g: &LexicalGrammar, v: int, text: Seq<int>, chars: Seq<CharRange>) -> bool {
    &&& can_read(g, only(v), text)
    &&& ranges_wf(chars)
    &&& forall|c: int|
        #[trigger] holds(chars, c) <==> goes_on(g, only(v), text, c) && is_read_in_token(g, only(v), text, c)
}

/// The set is one of those by which the lexer that looks for just token `v` goes on, after
/// the text, with separators: it holds all characters that are read like one of them.
pub open spec fn is_separator_set(g: &LexicalGrammar, v: int, text: Seq<int>, chars: Seq<CharRange>) -> bool {
    &&& can_read(g, only(v), text)
    &&& ranges_wf(chars)
    &&& exists|c: int|
        goes_on(g, only(v), text, c) && !is_read_in_token(g, only(v), text, c) && is_class_of(g, v, text, chars, c)
}

/// The set holds what is read like `c`.
pub open spec fn is_class_of(g: &LexicalGrammar, v: int, text: Seq<int>, chars: Seq<CharRange>, c: int) -> bool {
    forall|d: int| #[trigger] holds(chars, d) <==> are_read_alike(g, only(v), text, c, d)
}

/// Once the end of the input is not valid, it stays so.
proof fn lemma_no_end(g: &LexicalGrammar, config: Config, text: Seq<Input>)
    requires
        !config.1,
        run_config(g, config, text) is Some,
    ensures
        !(run_config(g, config, text)->0).1,
        forall|i: int| 0 <= i < text.len() ==> (#[trigger] text[i]) is Some,
    decreases text.len(),
{
    if text.len() > 0 {
        let front = text.drop_last();
        lemma_no_end(g, config, front);
        assert forall|i: int| 0 <= i < text.len() implies (#[trigger] text[i]) is Some by {
            if i < front.len() {
                assert(front[i] == text[i]);
            }
        }
    }
}

/// Some text leads to each state of the lexer for just one token.
proof fn lemma_text_for(g: &LexicalGrammar, v: int, x: int) -> (text: Seq<int>)
    requires
        g.wf(),
        0 <= v < g.variables@.len(),
        numbers_fit(token_configs(g, v)),
        0 <= x < token_configs(g, v).len(),
    ensures
        can_read(g, only(v), text),
        run_config(g, entry_config(g, only(v)), inputs(text)) == Some(token_configs(g, v)[x]),
{
    lemma_token_configs(g, v);
    let group: TokenGroup = (only(v), Seq::empty());
    let groups = seq![group];
    let configs = token_configs(g, v);
    assert(groups.drop_last() =~= Seq::empty());
    assert(groups.last() == group);
    assert(group_configs(g, groups.drop_last()) == Seq::<Config>::empty());
    assert(group_configs(g, groups) == configs);
    law_every_state_is_reached(g, groups, x);
    let (k, read) = choose|k: int, read: Seq<Input>| leads_to(g, groups, k, read, configs[x]);
    let entry = entry_config(g, only(v));
    assert(groups[k] == group);
    lemma_no_end(g, entry, read);
    let text = Seq::new(read.len(), |i: int| read[i]->0);
    assert(inputs(text) =~= read);
    law_configuration_after_text(g, only(v), text);
    text
}

/// The state of the lexer for just one token after a text.
proof fn lemma_state_after(g: &LexicalGrammar, v: int, text: Seq<int>) -> (x: int)
    requires
        g.wf(),
        0 <= v < g.variables@.len(),
        numbers_fit(token_configs(g, v)),
        can_read(g, only(v), text),
    ensures
        0 <= x < token_configs(g, v).len(),
        run_config(g, entry_config(g, only(v)), inputs(text)) == Some(token_configs(g, v)[x]),
{
    lemma_token_configs(g, v);
    let configs = token_configs(g, v);
    let entry = entry_config(g, only(v));
    law_configuration_after_text(g, only(v), text);
    lemma_number_of(g, configs, configs, entry);
    law_lexer_follows_automaton(g, configs, configs.index_of(entry), inputs(text));
    let config = run_config(g, entry, inputs(text))->0;
    lemma_number_of(g, configs, configs, config);
    configs.index_of(config)
}

/// What the state after a text reads as part of the token, and what it reads as
/// separators.
proof fn lemma_sets_of_state(g: &LexicalGrammar, v: int, x: int, text: Seq<int>)
    requires
        g.wf(),
        0 <= v < g.variables@.len(),
        numbers_fit(token_configs(g, v)),
        0 <= x < token_configs(g, v).len(),
        run_config(g, entry_config(g, only(v)), inputs(text)) == Some(token_configs(g, v)[x]),
    ensures
        forall|chars: Seq<CharRange>|
            #[trigger] covers_token(table_for(g, token_configs(g, v))[x].advance_actions, chars) <==> is_token_set(
                g,
                v,
                text,
                chars,
            ),
        forall|a: int|
            #![trigger table_for(g, token_configs(g, v))[x].advance_actions[a]]
            0 <= a < table_for(g, token_configs(g, v))[x].advance_actions.len() && !table_for(
                g,
                token_configs(g, v),
            )[x].advance_actions[a].1.in_main_token ==> is_separator_set(
                g,
                v,
                text,
                table_for(g, token_configs(g, v))[x].advance_actions[a].0,
            ),
        forall|chars: Seq<CharRange>|
            #[trigger] is_separator_set(g, v, text, chars) ==> exists|a: int|
                0 <= a < table_for(g, token_configs(g, v))[x].advance_actions.len() && (#[trigger] table_for(
                    g,
                    token_configs(g, v),
                )[x].advance_actions[a]).0 == chars && !table_for(g, token_configs(g, v))[x].advance_actions[a].1.in_main_token,
{
    let configs = token_configs(g, v);
    let table = table_for(g, configs);
    let config = configs[x];
    let actions = table[x].advance_actions;
    let tokens = only(v);
    lemma_token_configs(g, v);
    lemma_table_for_wf(g, configs);
    assert(state_wf(table[x], table.len()));
    law_configuration_after_text(g, tokens, text);
    law_lexer_runs_the_automaton(g, entry_config(g, tokens), text);
    assert(can_read(g, tokens, text));
    law_end_of_input(g, configs);
    assert(configs.contains(configs[x]));
    assert(table[x] == state_for(g, configs, config));
    lemma_no_end(g, entry_config(g, tokens), inputs(text));
    lemma_does_right(g, tokens, text, configs, table, x);
    assert forall|c: int| #[trigger] reads_in_token(actions, c) <==> goes_on(g, tokens, text, c) && is_read_in_token(
        g,
        tokens,
        text,
        c,
    ) by {
        lemma_reading_action(g, configs, x, c);
        assert((action_on(table[x], Some(c)) is Some) == goes_on(g, tokens, text, c));
    }
    assert forall|chars: Seq<CharRange>| #[trigger] covers_token(actions, chars) <==> is_token_set(g, v, text, chars) by {
        if covers_token(actions, chars) {
            assert forall|c: int| #[trigger] holds(chars, c) <==> goes_on(g, tokens, text, c) && is_read_in_token(
                g,
                tokens,
                text,
                c,
            ) by {
                assert(holds(chars, c) <==> reads_in_token(actions, c));
            }
        }
        if is_token_set(g, v, text, chars) {
            assert forall|c: int| #[trigger] holds(chars, c) <==> reads_in_token(actions, c) by {}
        }
    }
    assert forall|a: int| #![trigger actions[a]] 0 <= a < actions.len() && !actions[a].1.in_main_token implies is_separator_set(
        g,
        v,
        text,
        actions[a].0,
    ) by {
        law_lexer_is_deterministic(g, configs);
        assert(is_deterministic(table[x]));
        assert(ranges_wf(actions[a].0));
        let c = actions[a].0[0].start as int;
        assert(actions[a].0[0].start <= c < actions[a].0[0].end);
        assert(holds(actions[a].0, c));
        lemma_reading_action(g, configs, x, c);
        assert(action_on(table[x], Some(c)) == Some(actions[a].1));
        assert((action_on(table[x], Some(c)) is Some) == goes_on(g, tokens, text, c));
        assert forall|d: int| #[trigger] holds(actions[a].0, d) <==> are_read_alike(g, tokens, text, c, d) by {
            lemma_read_alike(g, tokens, text, a, c, d);
        }
        assert(is_class_of(g, v, text, actions[a].0, c));
    }
    assert forall|chars: Seq<CharRange>| #[trigger] is_separator_set(g, v, text, chars) implies exists|a: int|
        0 <= a < actions.len() && (#[trigger] actions[a]).0 == chars && !actions[a].1.in_main_token by {
        let c = choose|c: int|
            goes_on(g, tokens, text, c) && !is_read_in_token(g, tokens, text, c) && is_class_of(g, v, text, chars, c);
        assert((action_on(table[x], Some(c)) is Some) == goes_on(g, tokens, text, c));
        lemma_first_action(actions, c, 0);
        let a = first_action(actions, c, 0) as int;
        assert(holds(actions[a].0, c));
        assert forall|d: int| #[trigger] holds(actions[a].0, d) == holds(chars, d) by {
            lemma_read_alike(g, tokens, text, a, c, d);
            assert(holds(chars, d) <==> are_read_alike(g, tokens, text, c, d));
        }
        assert(ranges_wf(actions[a].0));
        lemma_canonical(actions[a].0, chars);
    }
}

/// The action on a character is the one that reads it.
proof fn lemma_reading_action(g: &LexicalGrammar, configs: Seq<Config>, x: int, c: int)
    requires
        g.wf(),
        is_complete(g, configs),
        0 <= x < configs.len(),
    ensures
        reads_in_token(table_for(g, configs)[x].advance_actions, c) <==> (action_on(
            table_for(g, configs)[x],
            Some(c),
        ) matches Some(action) && action.in_main_token),
        forall|a: int|
            #![trigger table_for(g, configs)[x].advance_actions[a]]
            0 <= a < table_for(g, configs)[x].advance_actions.len() && holds(
                table_for(g, configs)[x].advance_actions[a].0,
                c,
            ) ==> action_on(table_for(g, configs)[x], Some(c)) == Some(table_for(g, configs)[x].advance_actions[a].1),
{
    let s = table_for(g, configs)[x];
    let actions = s.advance_actions;
    law_lexer_is_deterministic(g, configs);
    assert(is_deterministic(s));
    lemma_first_action(actions, c, 0);
    let k = first_action(actions, c, 0) as int;
    assert forall|a: int| #![trigger actions[a]] 0 <= a < actions.len() && holds(actions[a].0, c) implies action_on(
        s,
        Some(c),
    ) == Some(actions[a].1) by {
        if k < actions.len() {
            assert(holds(actions[k].0, c));
        }
    }
    if reads_in_token(actions, c) {
        let a = choose|a: int| 0 <= a < actions.len() && (#[trigger] actions[a]).1.in_main_token && holds(actions[a].0, c);
        assert(action_on(s, Some(c)) == Some(actions[a].1));
    }
}

/// After some text, the lexer that looks for just token `v` reads the characters of the
/// set as part of the token, or reads them alike as separators.
pub open spec fn is_set_of(g: &LexicalGrammar, v: int, chars: Seq<CharRange>) -> bool {
    exists|text: Seq<int>| is_set_after(g, v, text, chars)
}

/// The lexer that looks for just token `v` reads the set after the text.
pub open spec fn is_set_after(g: &LexicalGrammar, v: int, text: Seq<int>, chars: Seq<CharRange>) -> bool {
    is_token_set(g, v, text, chars) || is_separator_set(g, v, text, chars)
}

/// The entry of the list belongs to token `v`: it names the token if it is what the lexer
/// that looks for just that token reads, after some text, as part of it; it names none if
/// it is a set of separators of that lexer; and no token before `v` has the set.
pub open spec fn is_entry_of(g: &LexicalGrammar, entry: LargeSet, v: int) -> bool {
    &&& match entry.0 {
        Some(symbol) => symbol.kind == SymbolType::Terminal && symbol.index == v && exists|text: Seq<int>|
            is_token_set(g, v, text, entry.1),
        None => exists|text: Seq<int>| is_separator_set(g, v, text, entry.1),
    }
    &&& forall|w: int| 0 <= w < v ==> !is_set_of(g, w, entry.1)
}

/// Where a set of a token is found.
proof fn lemma_place_of(g: &LexicalGrammar, v: int, chars: Seq<CharRange>) -> (r: (Place, LargeSet))
    requires
        g.wf(),
        0 <= v < g.variables@.len(),
        numbers_fit(token_configs(g, v)),
        is_set_of(g, v, chars),
    ensures
        is_found_at(g, r.0, r.1),
        r.0.0 == v,
        r.1.1 == chars,
{
    let text = choose|text: Seq<int>| is_set_after(g, v, text, chars);
    let x = lemma_state_after(g, v, text);
    lemma_sets_of_state(g, v, x, text);
    let actions = table_for(g, token_configs(g, v))[x].advance_actions;
    if is_token_set(g, v, text, chars) {
        assert(covers_token(actions, chars));
        ((v, x, actions.len() as int), (Some(Symbol { kind: SymbolType::Terminal, index: v as u32 }), chars))
    } else {
        let a = choose|a: int|
            0 <= a < table_for(g, token_configs(g, v))[x].advance_actions.len() && (#[trigger] table_for(
                g,
                token_configs(g, v),
            )[x].advance_actions[a]).0 == chars && !table_for(g, token_configs(g, v))[x].advance_actions[a].1.in_main_token;
        ((v, x, a), (None, chars))
    }
}

/// Every entry of the list is large and is there once; it belongs to a token, and the
/// entries are in the order of their tokens; and every large set that belongs to a token
/// is there.
pub open spec fn is_list_of(g: &LexicalGrammar, sets: Seq<LargeSet>) -> bool {
    &&& forall|k: int|
        0 <= k < sets.len() ==> (#[trigger] sets[k]).1.len() > 8 && exists|v: int|
            0 <= v < g.variables@.len() && is_entry_of(g, sets[k], v)
    &&& forall|j: int, k: int| 0 <= j < k < sets.len() ==> (#[trigger] sets[j]).1 != (#[trigger] sets[k]).1
    &&& forall|j: int, k: int, v: int, w: int|
        0 <= j < k < sets.len() && 0 <= v < g.variables@.len() && 0 <= w < g.variables@.len() && #[trigger] is_entry_of(
            g,
            sets[j],
            v,
        ) && #[trigger] is_entry_of(g, sets[k], w) ==> v <= w
    &&& forall|v: int, chars: Seq<CharRange>|
        0 <= v < g.variables@.len() && #[trigger] is_set_of(g, v, chars) && chars.len() > 8 ==> is_listed(sets, chars)
}

/// A token has the sets that belong to it.
proof fn lemma_owner_has_set(g: &LexicalGrammar, entry: LargeSet, v: int)
    requires
        is_entry_of(g, entry, v),
    ensures
        is_set_of(g, v, entry.1),
{
    if entry.0 is Some {
        let text = choose|text: Seq<int>| is_token_set(g, v, text, entry.1);
        assert(is_set_after(g, v, text, entry.1));
    } else {
        let text = choose|text: Seq<int>| is_separator_set(g, v, text, entry.1);
        assert(is_set_after(g, v, text, entry.1));
    }
}

/// A set belongs to one token.
proof fn lemma_one_owner(g: &LexicalGrammar, entry: LargeSet, v: int, w: int)
    requires
        0 <= v,
        0 <= w,
        is_entry_of(g, entry, v),
        is_entry_of(g, entry, w),
    ensures
        v == w,
{
    lemma_owner_has_set(g, entry, v);
    lemma_owner_has_set(g, entry, w);
}

/// The list of large sets says what the lexers of the tokens do: each entry that names a
/// token is what the lexer for just that token reads, after some text, as part of the
/// token; each entry that names none is what the lexer for some token skips alike as
/// separators; the first token that has a set is the one it is listed for; and no large
/// set of a token is left out.
pub proof fn law_large_sets_are_read(g: &LexicalGrammar)
    requires
        g.wf(),
        lexers_fit(g, g.variables@.len()),
    ensures
        is_list_of(g, large_sets(g, g.variables@.len())),
{
    let n = g.variables@.len();
    let sets = large_sets(g, n);
    let end = (n as int, 0int, 0int);
    let at = law_large_sets_in_order(g, n);
    assert forall|k: int| 0 <= k < sets.len() implies (#[trigger] sets[k]).1.len() > 8 && 0 <= at[k].0 < n && is_entry_of(
        g,
        sets[k],
        at[k].0,
    ) by {
        assert(is_found_at(g, at[k], sets[k]) && comes_before(at[k], end));
        let v = at[k].0;
        let x = at[k].1;
        assert(v < n) by {
            if v == n {
                assert(x < 0 || at[k].2 < 0);
            }
        }
        assert(numbers_fit(token_configs(g, v)));
        let text = lemma_text_for(g, v, x);
        lemma_sets_of_state(g, v, x, text);
        let actions = table_for(g, token_configs(g, v))[x].advance_actions;
        if sets[k].0 is Some {
            assert(covers_token(actions, sets[k].1));
            assert(is_token_set(g, v, text, sets[k].1));
        } else {
            assert(table_for(g, token_configs(g, v))[x].advance_actions[at[k].2].0 == sets[k].1);
            assert(is_separator_set(g, v, text, sets[k].1));
        }
        assert forall|w: int| 0 <= w < v implies !is_set_of(g, w, sets[k].1) by {
            if is_set_of(g, w, sets[k].1) {
                assert(numbers_fit(token_configs(g, w)));
                let (p, found) = lemma_place_of(g, w, sets[k].1);
                assert(is_listed_by(sets, at, found.1, p));
                let j = choose|j: int| 0 <= j < sets.len() && (#[trigger] sets[j]).1 == found.1 && !comes_before(p, at[j]);
                if j < k {
                    assert(comes_before(at[j], at[k]));
                } else if k < j {
                    assert(comes_before(at[k], at[j]));
                }
            }
        }
    }
    assert forall|j: int, k: int| 0 <= j < k < sets.len() implies (#[trigger] sets[j]).1 != (#[trigger] sets[k]).1 by {
        assert(comes_before(at[j], at[k]));
    }
    assert forall|j: int, k: int, v: int, w: int|
        0 <= j < k < sets.len() && 0 <= v < n && 0 <= w < n && #[trigger] is_entry_of(g, sets[j], v)
            && #[trigger] is_entry_of(g, sets[k], w) implies v <= w by {
        lemma_one_owner(g, sets[j], v, at[j].0);
        lemma_one_owner(g, sets[k], w, at[k].0);
        assert(comes_before(at[j], at[k]));
    }
    assert forall|v: int, chars: Seq<CharRange>| 0 <= v < n && #[trigger] is_set_of(g, v, chars) && chars.len()
        > 8 implies is_listed(sets, chars) by {
        assert(numbers_fit(token_configs(g, v)));
        let (p, found) = lemma_place_of(g, v, chars);
        assert(comes_before(p, end));
        assert(is_listed_by(sets, at, found.1, p));
    }
}

/// The large sets that come with the lexers say what the lexers of the tokens do.
pub proof fn law_built_large_sets(
    rules: KeywordRules<'_>,
    index: &CoincidentTokenIndex,
    before: ParseTable,
    after: ParseTable,
    tables: LexTables,
)
    requires
        rules.wf(),
        tables_fit(rules, index, before),
        are_built(rules, index, before, after, tables),
    ensures
        is_list_of(rules.lexical_grammar, set_views(tables.large_character_sets@)),
{
    law_large_sets_are_read(rules.lexical_grammar);
}

} // verus!
