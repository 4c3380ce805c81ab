//! The configurations that a lexer goes through, and the table that they make up.
//!
//! A configuration is a set of automaton states together with whether the end of the
//! input is valid there. The lexer has a state for each configuration that can be
//! reached from its entry points.

use vstd::prelude::*;

use crate::character_set::ranges_wf;
use crate::cursor::completions_of;
use crate::grammars::LexicalGrammar;
use crate::rules::{end_symbol, terminal_symbol, Symbol, Tokens};
use crate::runs::lemma_transitions_of;
use crate::sorted::strictly_sorted;
use crate::tables::{state_wf, table_wf, AdvanceAction, StateModel};
use crate::token_conflicts::{prefers_token, prefers_transition};
use crate::transitions::{any_separator, moves, same_label, transitions_of, Transition};

verus! {

/// A set of automaton states, and whether the end of the input is valid.
pub type Config = (Seq<u32>, bool);

/// The configuration after the end of the input.
pub open spec fn end_config() -> Config {
    (Seq::empty(), false)
}

/// The preferred one of the recognized tokens, each given by number and precedence.
pub open spec fn best_completion(g: &LexicalGrammar, cs: Seq<(usize, i32)>) -> Option<(usize, i32)>
    decreases cs.len(),
{
    if cs.len() == 0 {
        None
    } else {
        match best_completion(g, cs.drop_last()) {
            Some(best) if prefers_token(g, (best.1, best.0), (cs.last().1, cs.last().0)) => Some(best),
            _ => Some(cs.last()),
        }
    }
}

/// The token that is recognized in a set of states, with its precedence.
pub open spec fn completion(g: &LexicalGrammar, ids: Seq<u32>) -> Option<(usize, i32)> {
    best_completion(g, completions_of(&g.nfa, ids))
}

/// The lexer reads on by the transition, even where a token has been recognized.
pub open spec fn reads_on(g: &LexicalGrammar, ids: Seq<u32>, t: Transition) -> bool {
    match completion(g, ids) {
        None => true,
        Some((id, precedence)) => prefers_transition(g, t, id as int, precedence, any_separator(moves(&g.nfa, ids))),
    }
}

/// Those of the transitions by which the lexer reads on.
pub open spec fn kept_of(g: &LexicalGrammar, ids: Seq<u32>, ts: Seq<Transition>) -> Seq<Transition>
    decreases ts.len(),
{
    if ts.len() == 0 {
        Seq::empty()
    } else {
        let front = kept_of(g, ids, ts.drop_last());
        if reads_on(g, ids, ts.last()) {
            front.push(ts.last())
        } else {
            front
        }
    }
}

/// The transitions by which the lexer reads on in a set of states.
pub open spec fn kept(g: &LexicalGrammar, ids: Seq<u32>) -> Seq<Transition> {
    kept_of(g, ids, transitions_of(&g.nfa, ids))
}

/// Where a transition leads. The end of the input stays valid only as long as separators
/// are read.
pub open spec fn target(g: &LexicalGrammar, config: Config, t: Transition) -> Config {
    (g.nfa.closure(t.states.to_set()), config.1 && t.is_separator)
}

/// Where the end of the input leads, if it is valid.
pub open spec fn end_successors(config: Config) -> Seq<Config> {
    if config.1 {
        seq![end_config()]
    } else {
        Seq::empty()
    }
}

/// Where a list of transitions leads.
pub open spec fn targets(g: &LexicalGrammar, config: Config, ts: Seq<Transition>) -> Seq<Config> {
    Seq::new(ts.len(), |i: int| target(g, config, ts[i]))
}

/// The configurations that a configuration leads to: first by the end of the input, then
/// by its transitions.
pub open spec fn successors(g: &LexicalGrammar, config: Config) -> Seq<Config> {
    end_successors(config) + targets(g, config, kept(g, config.0))
}

/// The set of states that is looked at last when the successors of a configuration are
/// found: that of its last successor, or else its own.
pub open spec fn last_looked_at(config: Config, next: Seq<Config>) -> Seq<u32> {
    if next.len() > 0 {
        next.last().0
    } else {
        config.0
    }
}

/// The symbol that is accepted in a configuration: the recognized token, or else the end
/// of the input if the set of states that was looked at last is empty.
pub open spec fn accepted(g: &LexicalGrammar, config: Config) -> Option<Symbol> {
    match completion(g, config.0) {
        Some((id, _)) => Some(terminal_symbol(id as int)),
        None => if last_looked_at(config, successors(g, config)).len() == 0 {
            Some(end_symbol())
        } else {
            None
        },
    }
}

/// The number of the lexer state for a configuration.
pub open spec fn number_of(configs: Seq<Config>, config: Config) -> u32 {
    configs.index_of(config) as u32
}

/// The action for a transition.
pub open spec fn action_for(configs: Seq<Config>, g: &LexicalGrammar, config: Config, t: Transition) -> AdvanceAction {
    AdvanceAction { state: number_of(configs, target(g, config, t)), in_main_token: !t.is_separator }
}

/// The lexer state for a configuration.
pub open spec fn state_for(g: &LexicalGrammar, configs: Seq<Config>, config: Config) -> StateModel {
    let ts = kept(g, config.0);
    StateModel {
        accept_action: accepted(g, config),
        eof_action: if config.1 {
            Some(AdvanceAction { state: number_of(configs, end_config()), in_main_token: true })
        } else {
            None
        },
        advance_actions: Seq::new(ts.len(), |i: int| (ts[i].characters, action_for(configs, g, config, ts[i]))),
    }
}

/// The lexer that has a state for each of the configurations.
pub open spec fn table_for(g: &LexicalGrammar, configs: Seq<Config>) -> Seq<StateModel> {
    Seq::new(configs.len(), |i: int| state_for(g, configs, configs[i]))
}

/// The configurations, followed by those of `found` that are new, in order.
pub open spec fn discover(configs: Seq<Config>, found: Seq<Config>) -> Seq<Config>
    decreases found.len(),
{
    if found.len() == 0 {
        configs
    } else {
        let front = discover(configs, found.drop_last());
        if front.contains(found.last()) {
            front
        } else {
            front.push(found.last())
        }
    }
}

/// The number of sets of numbers below `n`.
pub open spec fn subset_count(n: nat) -> nat
    decreases n,
{
    if n == 0 {
        1
    } else {
        2 * subset_count((n - 1) as nat)
    }
}

/// An upper bound for the number of configurations.
pub open spec fn config_bound(g: &LexicalGrammar) -> nat {
    2 * subset_count(g.nfa.states@.len())
}

/// All configurations that can be reached, in the order in which they are discovered.
/// Those before `next` have already been looked at.
pub open spec fn explore(g: &LexicalGrammar, configs: Seq<Config>, next: nat) -> Seq<Config>
    decreases config_bound(g) - next,
{
    if next >= configs.len() || next >= config_bound(g) {
        configs
    } else {
        explore(g, discover(configs, successors(g, configs[next as int])), next + 1)
    }
}

/// The states in which the automaton starts to read the tokens.
pub open spec fn start_states(g: &LexicalGrammar, tokens: Tokens) -> Set<u32> {
    Set::new(
        |s: u32| exists|t: int| #[trigger] tokens.terminals.contains(t) && g.variables@[t].start_state == s,
    )
}

/// The configuration in which the lexer looks for one of the tokens.
pub open spec fn entry_config(g: &LexicalGrammar, tokens: Tokens) -> Config {
    (g.nfa.closure(start_states(g, tokens)), tokens.has_non_terminal_token())
}

/// The configurations, all of which have been looked at, together with those that can be
/// reached from a new entry point.
pub open spec fn with_entry(g: &LexicalGrammar, configs: Seq<Config>, tokens: Tokens) -> Seq<Config> {
    explore(g, discover(configs, seq![entry_config(g, tokens)]), configs.len())
}

/// The states of the configuration are states of the automaton, in ascending order.
pub open spec fn config_wf(g: &LexicalGrammar, config: Config) -> bool {
    g.nfa.are_states(config.0) && strictly_sorted(config.0)
}

/// The configurations are proper and all different.
pub open spec fn configs_wf(g: &LexicalGrammar, configs: Seq<Config>) -> bool {
    &&& configs.no_duplicates()
    &&& forall|i: int| 0 <= i < configs.len() ==> config_wf(g, #[trigger] configs[i])
}

/// All strictly ascending sequences of numbers below `n`.
spec fn all_subsets(n: nat) -> Set<Seq<u32>>
    decreases n,
{
    if n == 0 {
        Set::empty().insert(Seq::empty())
    } else {
        let smaller = all_subsets((n - 1) as nat);
        smaller.union(smaller.map(|s: Seq<u32>| s.push((n - 1) as u32)))
    }
}

proof fn lemma_all_subsets(n: nat)
    ensures
        all_subsets(n).finite(),
        all_subsets(n).len() <= subset_count(n),
    decreases n,
{
    if n > 0 {
        lemma_all_subsets((n - 1) as nat);
        let smaller = all_subsets((n - 1) as nat);
        let f = |s: Seq<u32>| s.push((n - 1) as u32);
        vstd::set_lib::lemma_map_size_bound(smaller, smaller.map(f), f);
        vstd::set_lib::lemma_len_union(smaller, smaller.map(f));
    } else {
        let e: Set<Seq<u32>> = Set::empty();
        assert(e.insert(Seq::empty()).len() == 1);
    }
}

proof fn lemma_in_all_subsets(s: Seq<u32>, n: nat)
    requires
        strictly_sorted(s),
        forall|i: int| 0 <= i < s.len() ==> (#[trigger] s[i]) < n,
        n <= u32::MAX + 1,
    ensures
        all_subsets(n).contains(s),
    decreases n,
{
    if n == 0 {
        if s.len() > 0 {
            assert(s[0] < n);
        }
        assert(s =~= Seq::empty());
    } else {
        let m = (n - 1) as nat;
        let smaller = all_subsets(m);
        let f = |t: Seq<u32>| t.push(m as u32);
        if s.len() > 0 && s.last() == m as u32 {
            let front = s.drop_last();
            assert forall|i: int| 0 <= i < front.len() implies (#[trigger] front[i]) < m by {
                assert(s[i] < s[s.len() - 1]);
            }
            assert forall|i: int, j: int| 0 <= i < j < front.len() implies front[i] < front[j] by {
                assert(s[i] < s[j]);
            }
            lemma_in_all_subsets(front, m);
            assert(f(front) =~= s);
            assert(smaller.map(f).contains(f(front)));
        } else {
            assert forall|i: int| 0 <= i < s.len() implies (#[trigger] s[i]) < m by {
                assert(s[i] < n);
                if i < s.len() - 1 {
                    assert(s[i] < s[s.len() - 1]);
                }
            }
            lemma_in_all_subsets(s, m);
        }
    }
}

/// There are no more configurations than their bound.
pub proof fn lemma_config_count(g: &LexicalGrammar, configs: Seq<Config>)
    requires
        g.wf(),
        configs_wf(g, configs),
    ensures
        configs.len() <= config_bound(g),
{
    let n = g.nfa.states@.len();
    let subsets = all_subsets(n);
    lemma_all_subsets(n);
    let f = |s: Seq<u32>| (s, false);
    let t = |s: Seq<u32>| (s, true);
    vstd::set_lib::lemma_map_size_bound(subsets, subsets.map(f), f);
    vstd::set_lib::lemma_map_size_bound(subsets, subsets.map(t), t);
    let all = subsets.map(f).union(subsets.map(t));
    vstd::set_lib::lemma_len_union(subsets.map(f), subsets.map(t));
    assert forall|c: Config| configs.to_set().contains(c) implies all.contains(c) by {
        let i = choose|i: int| 0 <= i < configs.len() && configs[i] == c;
        assert(config_wf(g, configs[i]));
        lemma_in_all_subsets(c.0, n);
        if c.1 {
            assert(t(c.0) == c);
        } else {
            assert(f(c.0) == c);
        }
    }
    assert(configs.to_set().subset_of(all));
    configs.unique_seq_to_set();
    vstd::set_lib::lemma_len_subset(configs.to_set(), all);
}

/// `b` starts with `a`.
pub open spec fn extends(a: Seq<Config>, b: Seq<Config>) -> bool {
    a.len() <= b.len() && forall|i: int| 0 <= i < a.len() ==> #[trigger] b[i] == a[i]
}

/// Discovering adds what is new, and nothing twice.
pub proof fn lemma_discover(g: &LexicalGrammar, configs: Seq<Config>, found: Seq<Config>)
    requires
        configs_wf(g, configs),
        forall|i: int| 0 <= i < found.len() ==> config_wf(g, #[trigger] found[i]),
    ensures
        configs_wf(g, discover(configs, found)),
        extends(configs, discover(configs, found)),
        forall|c: Config| #[trigger] discover(configs, found).contains(c) <==> configs.contains(c) || found.contains(c),
    decreases found.len(),
{
    if found.len() > 0 {
        let rest = found.drop_last();
        let last = found.last();
        assert forall|i: int| 0 <= i < rest.len() implies config_wf(g, #[trigger] rest[i]) by {
            assert(rest[i] == found[i]);
        }
        assert(config_wf(g, found[found.len() - 1]));
        lemma_discover(g, configs, rest);
        let front = discover(configs, rest);
        let all = discover(configs, found);
        assert forall|c: Config| #[trigger] all.contains(c) <==> configs.contains(c) || found.contains(c) by {
            assert(front.contains(c) <==> configs.contains(c) || rest.contains(c));
            if rest.contains(c) {
                let k = choose|k: int| 0 <= k < rest.len() && rest[k] == c;
                assert(found[k] == c);
            }
            if found.contains(c) {
                let k = choose|k: int| 0 <= k < found.len() && found[k] == c;
                if k < rest.len() {
                    assert(rest[k] == c);
                }
            }
            assert(found[found.len() - 1] == last);
            if front.contains(c) {
                let k = choose|k: int| 0 <= k < front.len() && front[k] == c;
                assert(all[k] == c);
            }
            if !front.contains(last) {
                assert(all[front.len() as int] == last);
            }
            if all.contains(c) && !front.contains(c) {
                let k = choose|k: int| 0 <= k < all.len() && all[k] == c;
                if k < front.len() {
                    assert(front[k] == c);
                }
            }
        }
    }
}

/// Discovering one after the other.
pub proof fn lemma_discover_push(configs: Seq<Config>, found: Seq<Config>, c: Config)
    ensures
        discover(configs, found.push(c)) == discover(discover(configs, found), seq![c]),
{
    let one = seq![c];
    assert(found.push(c).drop_last() =~= found);
    assert(one.drop_last().len() == 0);
    let b = discover(configs, found);
    assert(discover(b, one.drop_last()) == b);
    assert(one.last() == c);
}

/// A configuration keeps its number when others are added.
pub proof fn lemma_number_of(g: &LexicalGrammar, a: Seq<Config>, b: Seq<Config>, c: Config)
    requires
        extends(a, b),
        b.no_duplicates(),
        a.contains(c),
    ensures
        number_of(a, c) == number_of(b, c),
        0 <= a.index_of(c) < a.len(),
        a[a.index_of(c)] == c,
        a.index_of(c) == b.index_of(c),
{
    let i = a.index_of(c);
    assert(0 <= i < a.len() && a[i] == c);
    assert(b[i] == c);
    let j = b.index_of(c);
    assert(0 <= j < b.len() && b[j] == c);
}

/// The state for a configuration does not depend on configurations that come after its
/// successors.
pub proof fn lemma_state_for(g: &LexicalGrammar, a: Seq<Config>, b: Seq<Config>, c: Config)
    requires
        extends(a, b),
        b.no_duplicates(),
        forall|k: int| 0 <= k < successors(g, c).len() ==> a.contains(#[trigger] successors(g, c)[k]),
    ensures
        state_for(g, a, c) == state_for(g, b, c),
{
    let next = successors(g, c);
    let ts = kept(g, c.0);
    let ends = end_successors(c);
    if c.1 {
        assert(next[0] == end_config());
        lemma_number_of(g, a, b, end_config());
    }
    assert forall|i: int| 0 <= i < ts.len() implies action_for(a, g, c, ts[i]) == action_for(b, g, c, ts[i]) by {
        assert(next[ends.len() + i] == target(g, c, ts[i]));
        lemma_number_of(g, a, b, target(g, c, ts[i]));
    }
    assert(state_for(g, a, c) =~= state_for(g, b, c));
}

/// All successors of the configurations before `next` are there.
pub open spec fn explored(g: &LexicalGrammar, configs: Seq<Config>, next: int) -> bool {
    forall|i: int, k: int|
        0 <= i < next && 0 <= k < successors(g, configs[i]).len() ==> configs.contains(
            #[trigger] successors(g, configs[i])[k],
        )
}

/// No state is reached from nowhere.
pub proof fn lemma_empty_closure(g: &LexicalGrammar)
    requires
        g.wf(),
    ensures
        g.nfa.closure(Set::empty()) == Seq::<u32>::empty(),
{
    let c = g.nfa.closure(Set::empty());
    g.nfa.lemma_closure(Set::empty());
    if c.len() > 0 {
        assert(c.contains(c[0]));
        assert(g.nfa.reaches(Set::empty(), c[0]));
    }
    assert(c =~= Seq::empty());
}

/// What the automaton recognizes are variables of the grammar.
pub proof fn lemma_completions(g: &LexicalGrammar, ids: Seq<u32>)
    requires
        g.wf(),
        g.nfa.are_states(ids),
    ensures
        forall|k: int|
            0 <= k < completions_of(&g.nfa, ids).len() ==> (#[trigger] completions_of(&g.nfa, ids)[k]).0 < g.variables@.len(),
    decreases ids.len(),
{
    if ids.len() > 0 {
        let front = ids.drop_last();
        assert forall|i: int| 0 <= i < front.len() implies (#[trigger] front[i]) < g.nfa.states@.len() by {
            assert(front[i] == ids[i]);
        }
        lemma_completions(g, front);
        assert(ids[ids.len() - 1] < g.nfa.states@.len());
        assert(g.recognizes_a_variable(g.nfa.states@[ids.last() as int]));
        let all = completions_of(&g.nfa, ids);
        let some = completions_of(&g.nfa, front);
        assert forall|k: int| 0 <= k < all.len() implies (#[trigger] all[k]).0 < g.variables@.len() by {
            if k < some.len() {
                assert(all[k] == some[k]);
            }
        }
    }
}

/// The successors of a configuration are proper configurations.
pub proof fn lemma_successors_wf(g: &LexicalGrammar, config: Config)
    requires
        g.wf(),
    ensures
        forall|k: int| 0 <= k < successors(g, config).len() ==> config_wf(g, #[trigger] successors(g, config)[k]),
{
    let next = successors(g, config);
    let ends = end_successors(config);
    let ts = kept(g, config.0);
    assert forall|k: int| 0 <= k < next.len() implies config_wf(g, #[trigger] next[k]) by {
        if k >= ends.len() {
            let t = ts[k - ends.len()];
            assert(next[k] == target(g, config, t));
            g.nfa.lemma_closure(t.states.to_set());
        }
    }
}

/// The kept transitions are those of the transitions by which the lexer reads on.
pub proof fn lemma_kept_of(g: &LexicalGrammar, ids: Seq<u32>, ts: Seq<Transition>)
    ensures
        kept_of(g, ids, ts).len() <= ts.len(),
        forall|k: int| 0 <= k < kept_of(g, ids, ts).len() ==> is_kept(g, ids, ts, #[trigger] kept_of(g, ids, ts)[k]),
        forall|j: int| 0 <= j < ts.len() && reads_on(g, ids, #[trigger] ts[j]) ==> kept_of(g, ids, ts).contains(ts[j]),
    decreases ts.len(),
{
    if ts.len() > 0 {
        let front = ts.drop_last();
        lemma_kept_of(g, ids, front);
        let all = kept_of(g, ids, ts);
        let some = kept_of(g, ids, front);
        assert forall|k: int| 0 <= k < all.len() implies is_kept(g, ids, ts, #[trigger] all[k]) by {
            if k < some.len() {
                assert(is_kept(g, ids, front, some[k]));
                let j = choose|j: int| 0 <= j < front.len() && front[j] == some[k];
                assert(ts[j] == all[k]);
            } else {
                assert(ts[ts.len() - 1] == all[k]);
            }
        }
        assert forall|j: int| 0 <= j < ts.len() && reads_on(g, ids, #[trigger] ts[j]) implies all.contains(ts[j]) by {
            if j < front.len() {
                assert(front[j] == ts[j]);
                let k = choose|k: int| 0 <= k < some.len() && some[k] == ts[j];
                assert(all[k] == ts[j]);
            } else {
                assert(all[some.len() as int] == ts[j]);
            }
        }
    }
}

/// The kept transitions are as different from each other as the transitions are.
pub proof fn lemma_kept_differ(g: &LexicalGrammar, ids: Seq<u32>, ts: Seq<Transition>)
    requires
        forall|j: int, k: int| 0 <= j < k < ts.len() ==> !same_label(#[trigger] ts[j], #[trigger] ts[k]),
    ensures
        forall|j: int, k: int|
            0 <= j < k < kept_of(g, ids, ts).len() ==> !same_label(
                #[trigger] kept_of(g, ids, ts)[j],
                #[trigger] kept_of(g, ids, ts)[k],
            ),
    decreases ts.len(),
{
    if ts.len() > 0 {
        let front = ts.drop_last();
        lemma_kept_differ(g, ids, front);
        lemma_kept_of(g, ids, front);
        let all = kept_of(g, ids, ts);
        let some = kept_of(g, ids, front);
        assert forall|j: int, k: int| 0 <= j < k < all.len() implies !same_label(#[trigger] all[j], #[trigger] all[k]) by {
            assert(is_kept(g, ids, front, some[j]));
            if k < some.len() {
                assert(!same_label(some[j], some[k]));
            } else {
                let i = choose|i: int| 0 <= i < front.len() && front[i] == some[j];
                assert(!same_label(ts[i], ts[ts.len() - 1]));
            }
        }
    }
}

/// The transition is one of the transitions, and the lexer reads on by it.
pub open spec fn is_kept(g: &LexicalGrammar, ids: Seq<u32>, ts: Seq<Transition>, t: Transition) -> bool {
    ts.contains(t) && reads_on(g, ids, t)
}

/// The actions of a complete lexer lead to states of it.
pub proof fn lemma_table_for_wf(g: &LexicalGrammar, configs: Seq<Config>)
    requires
        g.wf(),
        configs_wf(g, configs),
        explored(g, configs, configs.len() as int),
        configs.len() <= u32::MAX + 1,
    ensures
        table_wf(table_for(g, configs)),
{
    let table = table_for(g, configs);
    assert forall|i: int| 0 <= i < table.len() implies state_wf(#[trigger] table[i], table.len()) by {
        let config = configs[i];
        let next = successors(g, config);
        let ends = end_successors(config);
        let ts = kept(g, config.0);
        let s = table[i];
        assert(config_wf(g, configs[i]));
        lemma_transitions_of(&g.nfa, config.0);
        lemma_kept_of(g, config.0, transitions_of(&g.nfa, config.0));
        assert forall|k: int| 0 <= k < s.advance_actions.len() implies ranges_wf((#[trigger] s.advance_actions[k]).0)
            && s.advance_actions[k].1.state < table.len() by {
            assert(is_kept(g, config.0, transitions_of(&g.nfa, config.0), ts[k]));
            assert(next[ends.len() + k] == target(g, config, ts[k]));
            assert(configs.contains(successors(g, configs[i])[ends.len() + k]));
            lemma_number_of(g, configs, configs, target(g, config, ts[k]));
        }
        if config.1 {
            assert(next[0] == end_config());
            assert(configs.contains(successors(g, configs[i])[0]));
            lemma_number_of(g, configs, configs, end_config());
        }
    }
}

/// Looking at one more configuration.
pub proof fn lemma_look_at(g: &LexicalGrammar, configs: Seq<Config>, p: int)
    requires
        g.wf(),
        configs_wf(g, configs),
        0 <= p < configs.len(),
        explored(g, configs, p),
    ensures
        extends(configs, discover(configs, successors(g, configs[p]))),
        configs_wf(g, discover(configs, successors(g, configs[p]))),
        explored(g, discover(configs, successors(g, configs[p])), p + 1),
{
    let next = discover(configs, successors(g, configs[p]));
    lemma_successors_wf(g, configs[p]);
    lemma_discover(g, configs, successors(g, configs[p]));
    assert forall|i: int, k: int| 0 <= i < p + 1 && 0 <= k < successors(g, next[i]).len() implies next.contains(
        #[trigger] successors(g, next[i])[k],
    ) by {
        assert(next[i] == configs[i]);
        let s = successors(g, configs[i])[k];
        if i < p {
            assert(configs.contains(s));
        } else {
            assert(successors(g, configs[p]).contains(s));
        }
    }
}

/// Exploring leaves nothing out.
pub proof fn lemma_explore(g: &LexicalGrammar, configs: Seq<Config>, next: nat)
    requires
        g.wf(),
        configs_wf(g, configs),
        next <= configs.len(),
        explored(g, configs, next as int),
    ensures
        configs_wf(g, explore(g, configs, next)),
        extends(configs, explore(g, configs, next)),
        explored(g, explore(g, configs, next), explore(g, configs, next).len() as int),
    decreases config_bound(g) - next,
{
    lemma_config_count(g, configs);
    if next < configs.len() {
        lemma_look_at(g, configs, next as int);
        lemma_explore(g, discover(configs, successors(g, configs[next as int])), next + 1);
    }
}

/// A new entry point leaves nothing out, and changes no numbers.
pub proof fn lemma_with_entry(g: &LexicalGrammar, configs: Seq<Config>, tokens: Tokens)
    requires
        g.wf(),
        configs_wf(g, configs),
        explored(g, configs, configs.len() as int),
    ensures
        configs_wf(g, with_entry(g, configs, tokens)),
        explored(g, with_entry(g, configs, tokens), with_entry(g, configs, tokens).len() as int),
        extends(configs, with_entry(g, configs, tokens)),
        with_entry(g, configs, tokens).contains(entry_config(g, tokens)),
{
    let entry = entry_config(g, tokens);
    let one = seq![entry];
    let first = discover(configs, one);
    g.nfa.lemma_closure(start_states(g, tokens));
    assert(config_wf(g, one[0]));
    lemma_discover(g, configs, one);
    assert(one.contains(one[0]));
    assert(first.contains(entry));
    let m = configs.len() as int;
    assert forall|i: int, k: int| 0 <= i < m && 0 <= k < successors(g, first[i]).len() implies first.contains(
        #[trigger] successors(g, first[i])[k],
    ) by {
        assert(first[i] == configs[i]);
        assert(configs.contains(successors(g, configs[i])[k]));
    }
    lemma_explore(g, first, configs.len());
    let all = with_entry(g, configs, tokens);
    let i = choose|i: int| 0 <= i < first.len() && first[i] == entry;
    assert(all[i] == entry);
}

} // verus!
