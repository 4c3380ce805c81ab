//! In which order the states of a lexer are numbered.

use vstd::prelude::*;

use crate::build_lex_table::{are_built, tables_fit, LexTables};
use crate::configs::{
    config_bound, config_wf, configs_wf, discover, end_config, end_successors, entry_config, explore, explored, extends,
    kept, lemma_config_count, lemma_discover, lemma_explore, lemma_look_at, lemma_number_of, lemma_successors_wf,
    lemma_with_entry, number_of, start_states, state_for, successors, table_for, target, with_entry, Config,
};
use crate::grammars::LexicalGrammar;
use crate::keywords::KeywordRules;
use crate::rules::Tokens;
use crate::tables::{ParseTable, StateModel};
use crate::token_conflicts::CoincidentTokenIndex;

verus! {

/// A place where a state refers to another: the number of the state, and of the reference.
pub type Reference = (int, int);

/// The references are looked at state by state.
pub open spec fn precedes(p: Reference, q: Reference) -> bool {
    p.0 < q.0 || (p.0 == q.0 && p.1 < q.1)
}

/// The states that a state refers to: first by its action at the end of the input, then by
/// its other actions, in order.
pub open spec fn references(s: StateModel) -> Seq<u32> {
    (match s.eof_action {
        Some(action) => seq![action.state],
        None => Seq::empty(),
    }) + Seq::new(s.advance_actions.len(), |i: int| s.advance_actions[i].1.state)
}

/// The reference `p` is to state `y`.
pub open spec fn refers(states: Seq<StateModel>, p: Reference, y: int) -> bool {
    &&& 0 <= p.0 < states.len()
    &&& 0 <= p.1 < references(states[p.0]).len()
    &&& references(states[p.0])[p.1] == y
}

/// No state before the place refers to `y`, but this one does.
pub open spec fn refers_first(states: Seq<StateModel>, p: Reference, y: int) -> bool {
    refers(states, p, y) && forall|q: Reference| precedes(q, p) ==> !#[trigger] refers(states, q, y)
}

/// The states from `m` on are numbered as they are found: each state after the first of
/// them is referred to by one before it, and the earlier the first reference to a state
/// is, the smaller is its number.
pub open spec fn are_numbered_as_found(states: Seq<StateModel>, m: int, at: Seq<Reference>) -> bool {
    &&& at.len() == states.len()
    &&& forall|y: int| m < y < states.len() ==> refers_first(states, #[trigger] at[y], y) && m <= at[y].0 < y
    &&& forall|y: int, z: int| m < y < z < states.len() ==> precedes(#[trigger] at[y], #[trigger] at[z])
}

/// The reference `p` leads to the configuration.
spec fn leads_to(g: &LexicalGrammar, configs: Seq<Config>, p: Reference, config: Config) -> bool {
    &&& 0 <= p.0 < configs.len()
    &&& 0 <= p.1 < successors(g, configs[p.0]).len()
    &&& successors(g, configs[p.0])[p.1] == config
}

/// The configurations after `m` are those that are led to before `end`, in order.
spec fn found_in_order(g: &LexicalGrammar, configs: Seq<Config>, m: int, at: Seq<Reference>, end: Reference) -> bool {
    &&& at.len() == configs.len()
    &&& forall|y: int|
        m < y < configs.len() ==> leads_to(g, configs, #[trigger] at[y], configs[y]) && m <= at[y].0 < y && precedes(
            at[y],
            end,
        )
    &&& forall|y: int, q: Reference|
        m < y < configs.len() && precedes(q, #[trigger] at[y]) ==> !#[trigger] leads_to(g, configs, q, configs[y])
    &&& forall|y: int, z: int| m < y < z < configs.len() ==> precedes(#[trigger] at[y], #[trigger] at[z])
}

/// One more successor of the configuration at `next`.
proof fn lemma_found_next(
    g: &LexicalGrammar,
    configs: Seq<Config>,
    some: Seq<Config>,
    m: int,
    at: Seq<Reference>,
    next: int,
    a: int,
) -> (places: Seq<Reference>)
    requires
        0 <= m <= next < configs.len(),
        extends(configs, some),
        explored(g, configs, next),
        0 <= a < successors(g, configs[next]).len(),
        forall|b: int| 0 <= b < a ==> some.contains(#[trigger] successors(g, configs[next])[b]),
        found_in_order(g, some, m, at, (next, a)),
    ensures
        found_in_order(
            g,
            if some.contains(successors(g, configs[next])[a]) {
                some
            } else {
                some.push(successors(g, configs[next])[a])
            },
            m,
            places,
            (next, a + 1),
        ),
{
    let found = successors(g, configs[next]);
    let new = found[a];
    if some.contains(new) {
        at
    } else {
        let all = some.push(new);
        let places = at.push((next, a));
        let last = some.len() as int;
        assert forall|y: int| m < y < all.len() implies leads_to(g, all, #[trigger] places[y], all[y]) && m <= places[y].0 < y
            && precedes(places[y], (next, a + 1)) by {
            if y < last {
                assert(places[y] == at[y]);
                assert(leads_to(g, some, at[y], some[y]));
            } else {
                assert(all[next] == configs[next]);
            }
        }
        assert forall|y: int, q: Reference| m < y < all.len() && precedes(q, #[trigger] places[y]) implies !#[trigger] leads_to(
            g,
            all,
            q,
            all[y],
        ) by {
            if leads_to(g, all, q, all[y]) {
                if y < last {
                    assert(places[y] == at[y]);
                    assert(leads_to(g, some, q, some[y]));
                } else {
                    assert(all[q.0] == configs[q.0]);
                    if q.0 < next {
                        assert(configs.contains(successors(g, configs[q.0])[q.1]));
                        let i = choose|i: int| 0 <= i < configs.len() && configs[i] == new;
                        assert(some[i] == new);
                    } else {
                        assert(some.contains(successors(g, configs[next])[q.1]));
                    }
                }
            }
        }
        assert forall|y: int, z: int| m < y < z < all.len() implies precedes(#[trigger] places[y], #[trigger] places[z]) by {
            assert(places[y] == at[y]);
            if z < last {
                assert(places[z] == at[z]);
            }
        }
        places
    }
}

/// All successors of the configuration at `next`.
proof fn lemma_found_successors(
    g: &LexicalGrammar,
    configs: Seq<Config>,
    m: int,
    at: Seq<Reference>,
    next: int,
    a: nat,
) -> (places: Seq<Reference>)
    requires
        g.wf(),
        configs_wf(g, configs),
        0 <= m <= next < configs.len(),
        explored(g, configs, next),
        a <= successors(g, configs[next]).len(),
        found_in_order(g, configs, m, at, (next, 0)),
    ensures
        found_in_order(
            g,
            discover(configs, successors(g, configs[next]).take(a as int)),
            m,
            places,
            (next, a as int),
        ),
    decreases a,
{
    let found = successors(g, configs[next]);
    if a == 0 {
        at
    } else {
        let b = (a - 1) as nat;
        let front = lemma_found_successors(g, configs, m, at, next, b);
        let some = discover(configs, found.take(b as int));
        lemma_successors_wf(g, configs[next]);
        assert forall|i: int| 0 <= i < found.take(b as int).len() implies config_wf(g, #[trigger] found.take(b as int)[i]) by {
            assert(config_wf(g, found[i]));
        }
        lemma_discover(g, configs, found.take(b as int));
        assert forall|i: int| 0 <= i < b implies some.contains(#[trigger] successors(g, configs[next])[i]) by {
            assert(found.take(b as int)[i] == found[i]);
            assert(found.take(b as int).contains(found[i]));
        }
        assert(found.take(a as int).drop_last() =~= found.take(b as int));
        assert(found.take(a as int).last() == found[b as int]);
        lemma_found_next(g, configs, some, m, front, next, b as int)
    }
}

proof fn lemma_found_explored(g: &LexicalGrammar, configs: Seq<Config>, m: int, at: Seq<Reference>, next: nat) -> (places: Seq<
    Reference,
>)
    requires
        g.wf(),
        configs_wf(g, configs),
        0 <= m <= next <= configs.len(),
        explored(g, configs, next as int),
        found_in_order(g, configs, m, at, (next as int, 0)),
    ensures
        found_in_order(
            g,
            explore(g, configs, next),
            m,
            places,
            (explore(g, configs, next).len() as int, 0),
        ),
    decreases config_bound(g) - next,
{
    lemma_config_count(g, configs);
    if next < configs.len() {
        let found = successors(g, configs[next as int]);
        let more = discover(configs, found);
        let places = lemma_found_successors(g, configs, m, at, next as int, found.len());
        assert(found.take(found.len() as int) =~= found);
        lemma_look_at(g, configs, next as int);
        assert(found_in_order(g, more, m, places, (next as int + 1, 0)));
        lemma_found_explored(g, more, m, places, next + 1)
    } else {
        at
    }
}

/// The references of a state are to the states of the configurations that its own leads to.
proof fn lemma_references(g: &LexicalGrammar, configs: Seq<Config>, p: Reference, y: int)
    requires
        configs_wf(g, configs),
        explored(g, configs, configs.len() as int),
        configs.len() <= u32::MAX + 1,
        0 <= y < configs.len(),
    ensures
        refers(table_for(g, configs), p, y) <==> leads_to(g, configs, p, configs[y]),
{
    if 0 <= p.0 < configs.len() {
        let config = configs[p.0];
        let next = successors(g, config);
        let ends = end_successors(config);
        let s = table_for(g, configs)[p.0];
        assert(s == state_for(g, configs, config));
        assert(references(s).len() == next.len());
        if 0 <= p.1 < next.len() {
            let c = next[p.1];
            assert(configs.contains(successors(g, configs[p.0])[p.1]));
            lemma_number_of(g, configs, configs, c);
            if p.1 < ends.len() {
                assert(c == end_config());
            } else {
                assert(c == target(g, config, kept(g, config.0)[p.1 - ends.len()]));
            }
            assert(references(s)[p.1] == number_of(configs, c));
        }
    }
}

/// The states that a new entry point adds to a lexer come after those that are there; the
/// entry point itself is the first of them, and the others are numbered as they are found.
/// If the entry point is there already, nothing is added.
pub proof fn law_states_are_numbered_as_found(g: &LexicalGrammar, configs: Seq<Config>, tokens: Tokens) -> (at: Seq<Reference>)
    requires
        g.wf(),
        configs_wf(g, configs),
        explored(g, configs, configs.len() as int),
        with_entry(g, configs, tokens).len() <= u32::MAX + 1,
    ensures
        configs.contains(entry_config(g, tokens)) ==> with_entry(g, configs, tokens) == configs,
        !configs.contains(entry_config(g, tokens)) ==> configs.len() < with_entry(g, configs, tokens).len() && number_of(
            with_entry(g, configs, tokens),
            entry_config(g, tokens),
        ) == configs.len() && are_numbered_as_found(
            table_for(g, with_entry(g, configs, tokens)),
            configs.len() as int,
            at,
        ),
{
    let entry = entry_config(g, tokens);
    let one = seq![entry];
    let first = discover(configs, one);
    let all = with_entry(g, configs, tokens);
    let m = configs.len() as int;
    lemma_with_entry(g, configs, tokens);
    assert(one.drop_last() =~= Seq::empty());
    assert(discover(configs, one.drop_last()) == configs);
    assert(one.last() == entry);
    if configs.contains(entry) {
        assert(first == configs);
        Seq::empty()
    } else {
        assert(first == configs.push(entry));
        g.nfa.lemma_closure(start_states(g, tokens));
        assert(config_wf(g, one[0]));
        lemma_discover(g, configs, one);
        assert forall|i: int, k: int| 0 <= i < m && 0 <= k < successors(g, first[i]).len() implies first.contains(
            #[trigger] successors(g, first[i])[k],
        ) by {
            assert(first[i] == configs[i]);
            let s = successors(g, configs[i])[k];
            assert(configs.contains(s));
            let j = choose|j: int| 0 <= j < configs.len() && configs[j] == s;
            assert(first[j] == s);
        }
        let start = Seq::new(first.len(), |i: int| (0int, 0int));
        let at = lemma_found_explored(g, first, m, start, configs.len());
        lemma_number_of(g, all, all, entry);
        lemma_explore(g, first, configs.len());
        assert(first[m] == entry);
        assert(all[m] == entry);
        assert(all.index_of(entry) == m);
        let table = table_for(g, all);
        assert forall|y: int| m < y < table.len() implies refers_first(table, #[trigger] at[y], y) && m <= at[y].0 < y by {
            lemma_references(g, all, at[y], y);
            assert(leads_to(g, all, at[y], all[y]));
            assert forall|q: Reference| precedes(q, at[y]) implies !#[trigger] refers(table, q, y) by {
                lemma_references(g, all, q, y);
            }
        }
        at
    }
}

/// The states of the keyword lexer are numbered as they are found, from the one in which it
/// starts on.
pub proof fn law_keyword_lexer_is_numbered_as_found(
    rules: KeywordRules<'_>,
    index: &CoincidentTokenIndex,
    before: ParseTable,
    after: ParseTable,
    tables: LexTables,
) -> (at: Seq<Reference>)
    requires
        rules.wf(),
        rules.syntax_grammar.word_token is Some,
        tables_fit(rules, index, before),
        are_built(rules, index, before, after, tables),
    ensures
        tables.keyword_lex_table@.len() > 0,
        are_numbered_as_found(tables.keyword_lex_table@, 0, at),
{
    law_states_are_numbered_as_found(rules.lexical_grammar, Seq::empty(), rules.keywords@)
}

} // verus!
