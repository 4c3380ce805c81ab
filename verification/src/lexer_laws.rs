//! What a lexer that was built from an automaton does.

use vstd::prelude::*;

use crate::character_set::holds;
use crate::configs::{
    accepted, best_completion, completion, config_wf, configs_wf, end_config, end_successors, explored, is_kept, kept,
    kept_of, lemma_kept_differ, lemma_kept_of, lemma_number_of, number_of, reads_on, state_for, successors, table_for,
    target, Config,
};
use crate::continuation::{completes, recognizes};
use crate::cursor::completions_of;
use crate::grammars::LexicalGrammar;
use crate::nfa::Nfa;
use crate::rules::{end_symbol, terminal_symbol};
use crate::runs::{lemma_transition_is_step, lemma_transitions_of, run, step};
use crate::table_runs::{
    action_on, all_deterministic, first_action, is_deterministic, lemma_first_action, one_end, run_table, Input,
};
use crate::tables::AdvanceAction;
use crate::token_conflicts::prefers_token;
use crate::transitions::{
    any_separator, can_move, covered, describes, fires, lemma_describes_unique, moves, same_label, transitions_of,
    Transition,
};

verus! {

/// All states among `ids` that read `c` read it as a separator.
pub open spec fn separates(nfa: &Nfa, ids: Seq<u32>, c: int) -> bool {
    forall|i: int| #[trigger] fires(moves(nfa, ids), i, c) ==> moves(nfa, ids)[i].is_separator
}

/// The lexer reads on with `c` in the states `ids`.
pub open spec fn reads_char(g: &LexicalGrammar, ids: Seq<u32>, c: int) -> bool {
    exists|t: Transition| #[trigger] describes(moves(&g.nfa, ids), c, t) && reads_on(g, ids, t)
}

/// Where the lexer goes from a configuration.
pub open spec fn config_on(g: &LexicalGrammar, config: Config, input: Input) -> Option<Config> {
    match input {
        None => if config.1 {
            Some(end_config())
        } else {
            None
        },
        Some(c) => if reads_char(g, config.0, c) {
            Some((step(&g.nfa, config.0, c), config.1 && separates(&g.nfa, config.0, c)))
        } else {
            None
        },
    }
}

/// The configuration that the lexer is in after it has read a text, if it can read it.
pub open spec fn run_config(g: &LexicalGrammar, config: Config, text: Seq<Input>) -> Option<Config>
    decreases text.len(),
{
    if text.len() == 0 {
        Some(config)
    } else {
        match run_config(g, config, text.drop_last()) {
            Some(c) => config_on(g, c, text.last()),
            None => None,
        }
    }
}

/// The configurations are proper, everything they lead to is among them, and they can be
/// numbered with 32 bits.
pub open spec fn is_complete(g: &LexicalGrammar, configs: Seq<Config>) -> bool {
    &&& configs_wf(g, configs)
    &&& explored(g, configs, configs.len() as int)
    &&& configs.len() <= u32::MAX + 1
}

/// What is kept goes by the label of a transition.
proof fn lemma_reads_on_label(g: &LexicalGrammar, ids: Seq<u32>, t: Transition, u: Transition)
    requires
        same_label(t, u),
    ensures
        reads_on(g, ids, t) == reads_on(g, ids, u),
{
}

/// The kept transition at `k`, if it has the character, is where reading it leads.
pub proof fn lemma_kept_reads(g: &LexicalGrammar, config: Config, k: int, c: int)
    requires
        g.wf(),
        config_wf(g, config),
        0 <= k < kept(g, config.0).len(),
        holds(kept(g, config.0)[k].characters, c),
    ensures
        describes(moves(&g.nfa, config.0), c, kept(g, config.0)[k]),
        config_on(g, config, Some(c)) == Some(target(g, config, kept(g, config.0)[k])),
        kept(g, config.0)[k].is_separator == separates(&g.nfa, config.0, c),
{
    let ids = config.0;
    let ts = transitions_of(&g.nfa, ids);
    let t = kept(g, ids)[k];
    lemma_transitions_of(&g.nfa, ids);
    lemma_kept_of(g, ids, ts);
    assert(is_kept(g, ids, ts, kept_of(g, ids, ts)[k]));
    let j = choose|j: int| 0 <= j < ts.len() && ts[j] == t;
    assert(holds(ts[j].characters, c));
    lemma_transition_is_step(&g.nfa, ids, j, c);
    assert(describes(moves(&g.nfa, ids), c, t));
}

/// If the lexer reads on with a character, some kept transition has it.
pub proof fn lemma_read_is_kept(g: &LexicalGrammar, config: Config, c: int) -> (k: int)
    requires
        g.wf(),
        config_wf(g, config),
        reads_char(g, config.0, c),
    ensures
        0 <= k < kept(g, config.0).len(),
        holds(kept(g, config.0)[k].characters, c),
{
    let ids = config.0;
    let ms = moves(&g.nfa, ids);
    let ts = transitions_of(&g.nfa, ids);
    lemma_transitions_of(&g.nfa, ids);
    lemma_kept_of(g, ids, ts);
    let t = choose|t: Transition| #[trigger] describes(ms, c, t) && reads_on(g, ids, t);
    let i = choose|i: int| #[trigger] fires(ms, i, c) && ms[i].precedence == t.precedence;
    assert(fires(ms, i, c));
    assert(can_move(ms, c));
    assert(covered(ts, c));
    let j = choose|j: int| 0 <= j < ts.len() && #[trigger] holds(ts[j].characters, c);
    assert(describes(ms, c, ts[j]));
    lemma_describes_unique(ms, c, t, ts[j]);
    lemma_reads_on_label(g, ids, t, ts[j]);
    assert(kept_of(g, ids, ts).contains(ts[j]));
    let k = choose|k: int| 0 <= k < kept_of(g, ids, ts).len() && kept_of(g, ids, ts)[k] == ts[j];
    k
}

/// In every state of the lexer, at most one action reads a character.
pub proof fn law_lexer_is_deterministic(g: &LexicalGrammar, configs: Seq<Config>)
    requires
        g.wf(),
        configs_wf(g, configs),
    ensures
        all_deterministic(table_for(g, configs)),
{
    let table = table_for(g, configs);
    assert forall|x: int| 0 <= x < table.len() implies is_deterministic(#[trigger] table[x]) by {
        let config = configs[x];
        assert(config_wf(g, configs[x]));
        let s = table[x];
        let ids = config.0;
        let ts = transitions_of(&g.nfa, ids);
        let ks = kept(g, ids);
        lemma_transitions_of(&g.nfa, ids);
        lemma_kept_of(g, ids, ts);
        lemma_kept_differ(g, ids, ts);
        assert forall|i: int| 0 <= i < s.advance_actions.len() implies (#[trigger] s.advance_actions[i]).0.len() > 0 by {
            assert(is_kept(g, ids, ts, kept_of(g, ids, ts)[i]));
        }
        assert forall|i: int, j: int, c: int|
            0 <= i < s.advance_actions.len() && 0 <= j < s.advance_actions.len() && #[trigger] holds(
                s.advance_actions[i].0,
                c,
            ) && #[trigger] holds(s.advance_actions[j].0, c) implies i == j by {
            lemma_kept_reads(g, config, i, c);
            lemma_kept_reads(g, config, j, c);
            lemma_describes_unique(moves(&g.nfa, ids), c, ks[i], ks[j]);
            lemma_describes_unique(moves(&g.nfa, ids), c, ks[j], ks[i]);
            if i < j {
                assert(!same_label(kept_of(g, ids, ts)[i], kept_of(g, ids, ts)[j]));
            } else if j < i {
                assert(!same_label(kept_of(g, ids, ts)[j], kept_of(g, ids, ts)[i]));
            }
        }
    }
}

/// Wherever the end of the input is valid, it leads the lexer to the same state, which
/// accepts the end of the input and reads nothing more.
pub proof fn law_end_of_input(g: &LexicalGrammar, configs: Seq<Config>)
    requires
        g.wf(),
        is_complete(g, configs),
    ensures
        one_end(table_for(g, configs)),
        forall|x: int|
            0 <= x < configs.len() ==> ((#[trigger] table_for(g, configs)[x]).eof_action is Some <==> configs[x].1),
        forall|x: int|
            0 <= x < configs.len() && configs[x].1 ==> ((#[trigger] table_for(g, configs)[x]).eof_action matches Some(
                action,
            ) && action.state < configs.len() && {
                let end = table_for(g, configs)[action.state as int];
                end.accept_action == Some(end_symbol()) && end.eof_action is None && end.advance_actions.len() == 0
            }),
{
    let table = table_for(g, configs);
    assert forall|x: int| 0 <= x < configs.len() && configs[x].1 implies ((#[trigger] table[x]).eof_action matches Some(
        action,
    ) && action.state < configs.len() && {
        let end = table[action.state as int];
        end.accept_action == Some(end_symbol()) && end.eof_action is None && end.advance_actions.len() == 0
    }) by {
        assert(successors(g, configs[x])[0] == end_config());
        assert(configs.contains(successors(g, configs[x])[0]));
        lemma_number_of(g, configs, configs, end_config());
        let e = configs.index_of(end_config());
        let none: Seq<u32> = end_config().0;
        assert(moves(&g.nfa, none).len() == 0);
        assert(completions_of(&g.nfa, none).len() == 0);
        lemma_transitions_of(&g.nfa, none);
        let ts = transitions_of(&g.nfa, none);
        assert(ts.len() == 0) by {
            if ts.len() > 0 {
                let c = ts[0].characters[0].start as int;
                assert(ts[0].characters[0].start <= c < ts[0].characters[0].end);
                assert(holds(ts[0].characters, c));
                assert(describes(moves(&g.nfa, none), c, ts[0]));
            }
        }
        lemma_kept_of(g, none, ts);
        assert(successors(g, end_config()).len() == 0);
        assert(table[e] == state_for(g, configs, end_config()));
    }
}

/// What the lexer does in a state is what the automaton does in its configuration.
pub proof fn law_lexer_steps(g: &LexicalGrammar, configs: Seq<Config>, x: int, input: Input)
    requires
        g.wf(),
        is_complete(g, configs),
        0 <= x < configs.len(),
    ensures
        config_on(g, configs[x], input) is None ==> action_on(table_for(g, configs)[x], input) is None,
        config_on(g, configs[x], input) matches Some(next) ==> configs.contains(next) && action_on(
            table_for(g, configs)[x],
            input,
        ) == Some(
            AdvanceAction {
                state: number_of(configs, next),
                in_main_token: match input {
                    None => true,
                    Some(c) => !separates(&g.nfa, configs[x].0, c),
                },
            },
        ),
{
    let config = configs[x];
    let s = table_for(g, configs)[x];
    let ks = kept(g, config.0);
    let ends = end_successors(config);
    assert(config_wf(g, configs[x]));
    match input {
        None => {
            if config.1 {
                assert(successors(g, configs[x])[0] == end_config());
                assert(configs.contains(successors(g, configs[x])[0]));
            }
        },
        Some(c) => {
            lemma_first_action(s.advance_actions, c, 0);
            let k = first_action(s.advance_actions, c, 0) as int;
            if k < s.advance_actions.len() {
                lemma_kept_reads(g, config, k, c);
                assert(successors(g, configs[x])[ends.len() + k] == target(g, config, ks[k]));
                assert(configs.contains(successors(g, configs[x])[ends.len() + k]));
            } else if reads_char(g, config.0, c) {
                let j = lemma_read_is_kept(g, config, c);
                assert(holds(s.advance_actions[j].0, c));
            }
        },
    }
}

/// On every text, the lexer goes through the states of the configurations that the
/// automaton goes through, and accepts what they accept.
pub proof fn law_lexer_follows_automaton(g: &LexicalGrammar, configs: Seq<Config>, x: int, text: Seq<Input>)
    requires
        g.wf(),
        is_complete(g, configs),
        0 <= x < configs.len(),
    ensures
        run_config(g, configs[x], text) is None ==> run_table(table_for(g, configs), x, text) is None,
        run_config(g, configs[x], text) matches Some(c) ==> configs.contains(c) && run_table(
            table_for(g, configs),
            x,
            text,
        ) == Some(configs.index_of(c)) && table_for(g, configs)[configs.index_of(c)] == state_for(g, configs, c),
    decreases text.len(),
{
    if text.len() > 0 {
        let front = text.drop_last();
        law_lexer_follows_automaton(g, configs, x, front);
        if let Some(c) = run_config(g, configs[x], front) {
            lemma_number_of(g, configs, configs, c);
            law_lexer_steps(g, configs, configs.index_of(c), text.last());
        }
    } else {
        assert(configs.index_of(configs[x]) == x) by {
            assert(configs.contains(configs[x]));
            lemma_number_of(g, configs, configs, configs[x]);
        }
    }
    if let Some(c) = run_config(g, configs[x], text) {
        lemma_number_of(g, configs, configs, c);
    }
}

/// A text, as the lexer meets it.
pub open spec fn inputs(text: Seq<int>) -> Seq<Input> {
    Seq::new(text.len(), |i: int| Some(text[i]))
}

/// If the lexer can read a text, it is then in the states that the automaton is in after
/// it has read the text.
pub proof fn law_lexer_runs_the_automaton(g: &LexicalGrammar, config: Config, text: Seq<int>)
    requires
        run_config(g, config, inputs(text)) is Some,
    ensures
        (run_config(g, config, inputs(text))->0).0 == run(&g.nfa, config.0, text),
    decreases text.len(),
{
    if text.len() > 0 {
        let front = text.drop_last();
        assert(inputs(text).drop_last() =~= inputs(front));
        assert(inputs(text).last() == Some(text.last()));
        law_lexer_runs_the_automaton(g, config, front);
    }
}

/// Preference is transitive, and decides between any two different tokens.
proof fn lemma_preference(g: &LexicalGrammar, a: (i32, usize), b: (i32, usize), c: (i32, usize))
    ensures
        prefers_token(g, a, b) && prefers_token(g, b, c) ==> prefers_token(g, a, c),
        a == b || prefers_token(g, a, b) || prefers_token(g, b, a),
        !(prefers_token(g, a, b) && prefers_token(g, b, a)),
{
}

/// The preferred token is one of the recognized ones, and preferred to all others.
pub proof fn lemma_best_completion(g: &LexicalGrammar, cs: Seq<(usize, i32)>)
    ensures
        best_completion(g, cs) is Some <==> cs.len() > 0,
        best_completion(g, cs) matches Some(best) ==> cs.contains(best) && forall|k: int|
            0 <= k < cs.len() ==> (#[trigger] cs[k]) == best || prefers_token(g, (best.1, best.0), (cs[k].1, cs[k].0)),
    decreases cs.len(),
{
    if cs.len() > 0 {
        let front = cs.drop_last();
        lemma_best_completion(g, front);
        let best = best_completion(g, cs)->0;
        let last = cs.last();
        assert(cs[cs.len() - 1] == last);
        if let Some(earlier) = best_completion(g, front) {
            let j = choose|j: int| 0 <= j < front.len() && front[j] == earlier;
            assert(cs[j] == earlier);
            lemma_preference(g, (earlier.1, earlier.0), (last.1, last.0), (last.1, last.0));
            assert forall|k: int| 0 <= k < cs.len() implies (#[trigger] cs[k]) == best || prefers_token(
                g,
                (best.1, best.0),
                (cs[k].1, cs[k].0),
            ) by {
                if k < front.len() {
                    assert(front[k] == cs[k]);
                    lemma_preference(g, (last.1, last.0), (earlier.1, earlier.0), (cs[k].1, cs[k].0));
                }
            }
        }
    }
}

/// What is recognized in a set of states, each with its precedence.
proof fn lemma_completions_are_recognized(g: &LexicalGrammar, ids: Seq<u32>)
    ensures
        forall|k: int|
            0 <= k < completions_of(&g.nfa, ids).len() ==> completes(
                g,
                (#[trigger] completions_of(&g.nfa, ids)[k]).0 as int,
                ids,
            ),
        forall|v: int| #[trigger] completes(g, v, ids) ==> completions_of(&g.nfa, ids).len() > 0,
    decreases ids.len(),
{
    let all = completions_of(&g.nfa, ids);
    if ids.len() > 0 {
        let front = ids.drop_last();
        let some = completions_of(&g.nfa, front);
        lemma_completions_are_recognized(g, front);
        assert forall|k: int| 0 <= k < all.len() implies completes(g, (#[trigger] all[k]).0 as int, ids) by {
            if k < some.len() {
                assert(all[k] == some[k]);
                let i = choose|i: int| 0 <= i < front.len() && recognizes(g, #[trigger] front[i], some[k].0 as int);
                assert(recognizes(g, ids[i], all[k].0 as int));
            } else {
                assert(recognizes(g, ids[ids.len() - 1], all[k].0 as int));
            }
        }
        assert forall|v: int| #[trigger] completes(g, v, ids) implies all.len() > 0 by {
            let i = choose|i: int| 0 <= i < ids.len() && recognizes(g, #[trigger] ids[i], v);
            if i < front.len() {
                assert(recognizes(g, front[i], v));
                assert(completes(g, v, front));
            }
        }
    }
}

/// The lexer accepts a token wherever the automaton recognizes one, and only tokens that
/// the automaton recognizes; and of those, the preferred one.
pub proof fn law_accepts_the_preferred_token(g: &LexicalGrammar, config: Config)
    requires
        g.wf(),
        config_wf(g, config),
    ensures
        completion(g, config.0) is Some <==> exists|v: int| completes(g, v, config.0),
        completion(g, config.0) matches Some(best) ==> completes(g, best.0 as int, config.0) && accepted(g, config) == Some(
            terminal_symbol(best.0 as int),
        ) && forall|k: int|
            0 <= k < completions_of(&g.nfa, config.0).len() ==> (#[trigger] completions_of(&g.nfa, config.0)[k]) == best
                || prefers_token(
                g,
                (best.1, best.0),
                (completions_of(&g.nfa, config.0)[k].1, completions_of(&g.nfa, config.0)[k].0),
            ),
{
    let cs = completions_of(&g.nfa, config.0);
    lemma_best_completion(g, cs);
    lemma_completions_are_recognized(g, config.0);
    if let Some(best) = completion(g, config.0) {
        let k = choose|k: int| 0 <= k < cs.len() && cs[k] == best;
        assert(completes(g, cs[k].0 as int, config.0));
    }
}

/// Precedence comes before length: where a token has been recognized, the lexer does not
/// read on with a character that only parts of tokens of lower precedence go on with.
pub proof fn law_precedence_before_length(g: &LexicalGrammar, ids: Seq<u32>, c: int)
    requires
        completion(g, ids) matches Some(best) && forall|i: int|
            #[trigger] fires(moves(&g.nfa, ids), i, c) ==> moves(&g.nfa, ids)[i].precedence < best.1,
    ensures
        !reads_char(g, ids, c),
{
    let ms = moves(&g.nfa, ids);
    if reads_char(g, ids, c) {
        let t = choose|t: Transition| #[trigger] describes(ms, c, t) && reads_on(g, ids, t);
        let i = choose|i: int| #[trigger] fires(ms, i, c) && ms[i].precedence == t.precedence;
        assert(fires(ms, i, c));
    }
}

/// The longest match wins: if no token has been recognized, or something goes on with
/// the character at a higher precedence, or at the same precedence and no separator is
/// involved, the lexer reads on.
pub proof fn law_longest_match(g: &LexicalGrammar, ids: Seq<u32>, c: int)
    requires
        g.wf(),
        g.nfa.are_states(ids),
        can_move(moves(&g.nfa, ids), c),
        completion(g, ids) matches Some(best) ==> exists|i: int|
            #[trigger] fires(moves(&g.nfa, ids), i, c) && (moves(&g.nfa, ids)[i].precedence > best.1 || (moves(
                &g.nfa,
                ids,
            )[i].precedence == best.1 && !any_separator(moves(&g.nfa, ids)))),
    ensures
        reads_char(g, ids, c),
{
    let ms = moves(&g.nfa, ids);
    let ts = transitions_of(&g.nfa, ids);
    lemma_transitions_of(&g.nfa, ids);
    assert(covered(ts, c));
    let j = choose|j: int| 0 <= j < ts.len() && #[trigger] holds(ts[j].characters, c);
    let t = ts[j];
    assert(describes(ms, c, t));
    if let Some(best) = completion(g, ids) {
        let i = choose|i: int|
            #[trigger] fires(ms, i, c) && (ms[i].precedence > best.1 || (ms[i].precedence == best.1 && !any_separator(ms)));
        assert(fires(ms, i, c));
        assert(ms[i].precedence <= t.precedence);
        if !any_separator(ms) {
            assert(!ms[i].is_separator);
            assert(!t.is_separator);
        }
    }
    assert(reads_on(g, ids, t));
}

} // verus!
