//! What a lexer does, in terms of the paths of the automaton.
//!
//! Everything here is said of the states of the automaton one by one: where paths lead
//! from the start states of the tokens, what the states there read and recognize, and at
//! which precedence.

use vstd::prelude::*;

use crate::character_set::{holds, CharRange};
use crate::configs::{
    accepted, completion, config_wf, end_successors, entry_config, is_kept, kept, kept_of, lemma_completions,
    lemma_kept_of, lemma_number_of, number_of, reads_on, start_states, state_for, successors, table_for, target,
    targets, Config,
};
use crate::cursor::completions_of;
use crate::grammars::LexicalGrammar;
use crate::lexer_laws::{
    inputs, is_complete, law_end_of_input, law_lexer_follows_automaton, law_lexer_runs_the_automaton, law_lexer_steps,
    lemma_best_completion, lemma_kept_reads, lemma_read_is_kept, reads_char, run_config, separates,
};
use crate::nfa::NfaState;
use crate::order_laws::{chars_go_before, law_actions_are_in_order};
use crate::paths::{
    is_move_of, is_still, lemma_closure_paths, lemma_move_state, lemma_run_paths, lemma_spells_wf, lemma_state_move,
    spelled_from, spells,
};
use crate::rules::{Symbol, SymbolType, Tokens};
use crate::runs::{lemma_run, lemma_transitions_of, run};
use crate::sorted::lemma_sorted_unique;
use crate::table_runs::{action_on, lemma_looks_like, looks_like, run_table};
use crate::tables::{AdvanceAction, StateModel};
use crate::token_conflicts::prefers_token;
use crate::transitions::{
    any_separator, can_move, covered, describes, fires, goes_to, moves, same_label, transitions_of, Transition,
};

verus! {

/// The tokens are tokens of the grammar.
pub open spec fn are_tokens(g: &LexicalGrammar, tokens: Tokens) -> bool {
    forall|t: int| #[trigger] tokens.terminals.contains(t) ==> 0 <= t < g.variables@.len()
}

/// Reading the text leads from the start state of one of the tokens to state `x`.
pub open spec fn is_at(g: &LexicalGrammar, tokens: Tokens, text: Seq<int>, x: u32) -> bool {
    exists|t: int| #[trigger] tokens.terminals.contains(t) && spells(&g.nfa, g.variables@[t].start_state, text, x)
}

/// After the text, state `x` can read `c`.
pub open spec fn is_reader(g: &LexicalGrammar, tokens: Tokens, text: Seq<int>, c: int, x: u32) -> bool {
    is_at(g, tokens, text, x) && (g.nfa.states@[x as int] matches NfaState::Advance { chars, .. } && holds(chars@, c))
}

/// After the text, some state can read `c`.
pub open spec fn is_readable(g: &LexicalGrammar, tokens: Tokens, text: Seq<int>, c: int) -> bool {
    exists|x: u32| is_reader(g, tokens, text, c, x)
}

/// The precedence at which a state reads.
pub open spec fn precedence_of(g: &LexicalGrammar, x: u32) -> i32 {
    g.nfa.states@[x as int]->Advance_precedence
}

/// The state reads separators.
pub open spec fn reads_separator(g: &LexicalGrammar, x: u32) -> bool {
    g.nfa.states@[x as int]->is_sep
}

/// The text is a spelling of token `v`, recognized with precedence `p`.
pub open spec fn is_recognized(g: &LexicalGrammar, tokens: Tokens, text: Seq<int>, v: usize, p: i32) -> bool {
    exists|x: u32|
        #[trigger] is_at(g, tokens, text, x) && (g.nfa.states@[x as int] matches NfaState::Accept {
            variable_index,
            precedence,
        } && variable_index == v && precedence == p)
}

/// Token `v`, recognized with precedence `p`, comes before token `w`, recognized with
/// precedence `q`: by precedence, then by implicit precedence, then by number.
pub open spec fn comes_first(g: &LexicalGrammar, v: usize, p: i32, w: usize, q: i32) -> bool {
    let a = g.variables@[v as int].implicit_precedence;
    let b = g.variables@[w as int].implicit_precedence;
    p > q || (p == q && (a > b || (a == b && v < w)))
}

/// Of all tokens that the text is a spelling of, `v` comes first.
pub open spec fn is_best(g: &LexicalGrammar, tokens: Tokens, text: Seq<int>, v: usize, p: i32) -> bool {
    &&& is_recognized(g, tokens, text, v, p)
    &&& forall|w: usize, q: i32|
        #[trigger] is_recognized(g, tokens, text, w, q) ==> (w == v && q == p) || comes_first(g, v, p, w, q)
}

/// Some state can read `c` as part of a token.
pub open spec fn is_read_in_token(g: &LexicalGrammar, tokens: Tokens, text: Seq<int>, c: int) -> bool {
    exists|x: u32| #[trigger] is_reader(g, tokens, text, c, x) && !reads_separator(g, x)
}

/// After the text, some state is waiting for a separator.
pub open spec fn awaits_separator(g: &LexicalGrammar, tokens: Tokens, text: Seq<int>) -> bool {
    exists|x: u32|
        #[trigger] is_at(g, tokens, text, x) && g.nfa.states@[x as int] is Advance && reads_separator(g, x)
}

/// The automaton state belongs to token `v`: the start state of `v` is the first that is
/// not before it.
pub open spec fn belongs_to(g: &LexicalGrammar, state: u32, v: usize) -> bool {
    &&& v < g.variables@.len()
    &&& state <= g.variables@[v as int].start_state
    &&& forall|w: int| 0 <= w < v ==> (#[trigger] g.variables@[w]).start_state < state
}

/// Reading `c` goes on with token `v`.
pub open spec fn goes_on_with(g: &LexicalGrammar, tokens: Tokens, text: Seq<int>, c: int, v: usize) -> bool {
    exists|x: u32| #[trigger] is_reader(g, tokens, text, c, x) && belongs_to(g, g.nfa.states@[x as int]->state_id, v)
}

/// Some state reads `c` at a precedence higher than `p`.
pub open spec fn is_read_above(g: &LexicalGrammar, tokens: Tokens, text: Seq<int>, c: int, p: i32) -> bool {
    exists|x: u32| #[trigger] is_reader(g, tokens, text, c, x) && precedence_of(g, x) > p
}

/// Some state reads `c` at precedence `p`.
pub open spec fn is_read_at(g: &LexicalGrammar, tokens: Tokens, text: Seq<int>, c: int, p: i32) -> bool {
    exists|x: u32| #[trigger] is_reader(g, tokens, text, c, x) && precedence_of(g, x) == p
}

/// Reading `c` is better than stopping at token `v`, recognized with precedence `p`: some
/// state reads `c` at a higher precedence; or at the same precedence, and `c` is not just
/// a separator, and no separator is awaited or `c` goes on with `v`.
pub open spec fn beats(g: &LexicalGrammar, tokens: Tokens, text: Seq<int>, c: int, v: usize, p: i32) -> bool {
    ||| is_read_above(g, tokens, text, c, p)
    ||| {
        &&& is_read_at(g, tokens, text, c, p)
        &&& is_read_in_token(g, tokens, text, c)
        &&& !awaits_separator(g, tokens, text) || goes_on_with(g, tokens, text, c, v)
    }
}

/// After the text, the lexer goes on with `c`: some state can read it, and that is better
/// than stopping at the token that has been recognized, if any.
pub open spec fn goes_on(g: &LexicalGrammar, tokens: Tokens, text: Seq<int>, c: int) -> bool {
    &&& is_readable(g, tokens, text, c)
    &&& forall|v: usize, p: i32| #[trigger] is_best(g, tokens, text, v, p) ==> beats(g, tokens, text, c, v, p)
}

/// The lexer reads the text to its end.
pub open spec fn can_read(g: &LexicalGrammar, tokens: Tokens, text: Seq<int>) -> bool {
    forall|k: int| 0 <= k < text.len() ==> goes_on(g, tokens, text.take(k), #[trigger] text[k])
}

/// The end of the input is valid after the text: one of the tokens is not a terminal, and
/// the text is made up of separators.
pub open spec fn end_is_valid(g: &LexicalGrammar, tokens: Tokens, text: Seq<int>) -> bool {
    &&& tokens.eof || tokens.end_of_nonterminal_extra || exists|e: int| tokens.externals.contains(e)
    &&& forall|k: int| 0 <= k < text.len() ==> !is_read_in_token(g, tokens, text.take(k), #[trigger] text[k])
}

/// No token has been recognized.
pub open spec fn recognizes_nothing(g: &LexicalGrammar, tokens: Tokens, text: Seq<int>) -> bool {
    forall|v: usize, p: i32| !is_recognized(g, tokens, text, v, p)
}

/// Whatever is read next leads to a state that reads or recognizes something.
pub open spec fn has_no_dead_ends(g: &LexicalGrammar, tokens: Tokens, text: Seq<int>) -> bool {
    forall|c: int, x: u32| #[trigger] is_reader(g, tokens, text, c, x) ==> leads_on(g, g.nfa.states@[x as int]->state_id)
}

/// A state that reads or recognizes something can be reached from `x` without reading.
pub open spec fn leads_on(g: &LexicalGrammar, x: u32) -> bool {
    exists|y: u32| y < g.nfa.states@.len() && is_still(&g.nfa, y) && #[trigger] spells(&g.nfa, x, Seq::empty(), y)
}

/// Some state that reads or recognizes something is reached by the text.
pub open spec fn is_anywhere(g: &LexicalGrammar, tokens: Tokens, text: Seq<int>) -> bool {
    exists|x: u32| #[trigger] is_at(g, tokens, text, x) && is_still(&g.nfa, x)
}

/// What the lexer accepts after the text: the token that comes first, or else the end of
/// the input, if nothing can be read any more and it is valid or nothing is left to look
/// for.
pub open spec fn accepts_rightly(g: &LexicalGrammar, tokens: Tokens, text: Seq<int>, accept: Option<Symbol>) -> bool {
    &&& forall|v: usize, p: i32|
        #[trigger] is_best(g, tokens, text, v, p) ==> (accept matches Some(s) && s.kind == SymbolType::Terminal && s.index
            == v)
    &&& recognizes_nothing(g, tokens, text) ==> (accept matches Some(s) ==> s == Symbol { kind: SymbolType::End, index: 0 })
    &&& recognizes_nothing(g, tokens, text) && (forall|c: int| !is_readable(g, tokens, text, c)) ==> (accept is Some) == (
    end_is_valid(g, tokens, text) || !is_anywhere(g, tokens, text))
    &&& recognizes_nothing(g, tokens, text) && (exists|c: int| is_readable(g, tokens, text, c)) && has_no_dead_ends(
        g,
        tokens,
        text,
    ) ==> accept is None
}

/// The start states of the tokens are where the lexer starts.
proof fn lemma_entry_states(g: &LexicalGrammar, tokens: Tokens, text: Seq<int>, x: u32)
    requires
        g.wf(),
        are_tokens(g, tokens),
    ensures
        run(&g.nfa, entry_config(g, tokens).0, text).contains(x) <==> is_still(&g.nfa, x) && is_at(g, tokens, text, x),
        is_at(g, tokens, text, x) ==> x < g.nfa.states@.len(),
{
    let from = start_states(g, tokens);
    assert forall|s: u32| from.contains(s) implies s < g.nfa.states@.len() by {
        let t = choose|t: int| #[trigger] tokens.terminals.contains(t) && g.variables@[t].start_state == s;
        assert(g.variables@[t].start_state < g.nfa.states@.len());
    }
    lemma_run_paths(&g.nfa, from, text, x);
    if spelled_from(&g.nfa, from, text, x) {
        let s = choose|s: u32| from.contains(s) && #[trigger] spells(&g.nfa, s, text, x);
        let t = choose|t: int| #[trigger] tokens.terminals.contains(t) && g.variables@[t].start_state == s;
        assert(is_at(g, tokens, text, x));
    }
    if is_at(g, tokens, text, x) {
        let t = choose|t: int| #[trigger] tokens.terminals.contains(t) && spells(&g.nfa, g.variables@[t].start_state, text, x);
        let s = g.variables@[t].start_state;
        assert(from.contains(s));
        assert(spells(&g.nfa, s, text, x));
        lemma_spells_wf(&g.nfa, s, text, x);
    }
}

/// What the lexer has in its hands after the text.
pub open spec fn ids_after(g: &LexicalGrammar, tokens: Tokens, text: Seq<int>) -> Seq<u32> {
    run(&g.nfa, entry_config(g, tokens).0, text)
}

proof fn lemma_ids_wf(g: &LexicalGrammar, tokens: Tokens, text: Seq<int>)
    requires
        g.wf(),
    ensures
        g.nfa.are_states(ids_after(g, tokens, text)),
{
    g.nfa.lemma_closure(start_states(g, tokens));
    lemma_run(&g.nfa, entry_config(g, tokens).0, text);
}

/// A move that reads `c` is that of a reader.
proof fn lemma_reader_of(g: &LexicalGrammar, tokens: Tokens, text: Seq<int>, c: int, i: int) -> (x: u32)
    requires
        g.wf(),
        are_tokens(g, tokens),
        fires(moves(&g.nfa, ids_after(g, tokens, text)), i, c),
    ensures
        is_reader(g, tokens, text, c, x),
        is_move_of(&g.nfa, ids_after(g, tokens, text), i, x),
{
    let x = lemma_move_state(&g.nfa, ids_after(g, tokens, text), i);
    lemma_entry_states(g, tokens, text, x);
    x
}

/// Each reader has a move that reads `c`.
proof fn lemma_move_for(g: &LexicalGrammar, tokens: Tokens, text: Seq<int>, c: int, x: u32) -> (i: int)
    requires
        g.wf(),
        are_tokens(g, tokens),
        is_reader(g, tokens, text, c, x),
    ensures
        fires(moves(&g.nfa, ids_after(g, tokens, text)), i, c),
        is_move_of(&g.nfa, ids_after(g, tokens, text), i, x),
{
    lemma_entry_states(g, tokens, text, x);
    lemma_state_move(&g.nfa, ids_after(g, tokens, text), x)
}

proof fn lemma_separators(g: &LexicalGrammar, tokens: Tokens, text: Seq<int>)
    requires
        g.wf(),
        are_tokens(g, tokens),
    ensures
        any_separator(moves(&g.nfa, ids_after(g, tokens, text))) == awaits_separator(g, tokens, text),
{
    let ids = ids_after(g, tokens, text);
    let ms = moves(&g.nfa, ids);
    if any_separator(ms) {
        let i = choose|i: int| 0 <= i < ms.len() && (#[trigger] ms[i]).is_separator;
        let x = lemma_move_state(&g.nfa, ids, i);
        lemma_entry_states(g, tokens, text, x);
    }
    if awaits_separator(g, tokens, text) {
        let x = choose|x: u32|
            #[trigger] is_at(g, tokens, text, x) && g.nfa.states@[x as int] is Advance && reads_separator(g, x);
        lemma_entry_states(g, tokens, text, x);
        let i = lemma_state_move(&g.nfa, ids, x);
        assert(ms[i].is_separator);
    }
}

/// The completions are what is recognized.
proof fn lemma_completion_states(g: &LexicalGrammar, ids: Seq<u32>, v: usize, p: i32)
    ensures
        completions_of(&g.nfa, ids).contains((v, p)) <==> exists|x: u32|
            #[trigger] ids.contains(x) && (g.nfa.states@[x as int] matches NfaState::Accept { variable_index, precedence }
                && variable_index == v && precedence == p),
    decreases ids.len(),
{
    let all = completions_of(&g.nfa, ids);
    if ids.len() > 0 {
        let front = ids.drop_last();
        let last = ids.last();
        let some = completions_of(&g.nfa, front);
        lemma_completion_states(g, front, v, p);
        assert(ids[ids.len() - 1] == last);
        assert(ids.contains(last));
        if all.contains((v, p)) {
            let k = choose|k: int| 0 <= k < all.len() && all[k] == (v, p);
            if k < some.len() {
                assert(some[k] == (v, p));
                let x = choose|x: u32|
                    #[trigger] front.contains(x) && (g.nfa.states@[x as int] matches NfaState::Accept {
                        variable_index,
                        precedence,
                    } && variable_index == v && precedence == p);
                let j = choose|j: int| 0 <= j < front.len() && front[j] == x;
                assert(ids[j] == x);
                assert(ids.contains(x));
            }
        }
        if exists|x: u32|
            #[trigger] ids.contains(x) && (g.nfa.states@[x as int] matches NfaState::Accept { variable_index, precedence }
                && variable_index == v && precedence == p) {
            let x = choose|x: u32|
                #[trigger] ids.contains(x) && (g.nfa.states@[x as int] matches NfaState::Accept {
                    variable_index,
                    precedence,
                } && variable_index == v && precedence == p);
            let j = choose|j: int| 0 <= j < ids.len() && ids[j] == x;
            if j < front.len() {
                assert(front[j] == x);
                assert(front.contains(x));
                let k = choose|k: int| 0 <= k < some.len() && some[k] == (v, p);
                assert(all[k] == (v, p));
            } else {
                assert(all[some.len() as int] == (v, p));
            }
        }
    }
}

proof fn lemma_recognized(g: &LexicalGrammar, tokens: Tokens, text: Seq<int>, v: usize, p: i32)
    requires
        g.wf(),
        are_tokens(g, tokens),
    ensures
        completions_of(&g.nfa, ids_after(g, tokens, text)).contains((v, p)) <==> is_recognized(g, tokens, text, v, p),
{
    let ids = ids_after(g, tokens, text);
    lemma_completion_states(g, ids, v, p);
    if completions_of(&g.nfa, ids).contains((v, p)) {
        let x = choose|x: u32|
            #[trigger] ids.contains(x) && (g.nfa.states@[x as int] matches NfaState::Accept { variable_index, precedence }
                && variable_index == v && precedence == p);
        lemma_entry_states(g, tokens, text, x);
        assert(is_at(g, tokens, text, x));
    }
    if is_recognized(g, tokens, text, v, p) {
        let x = choose|x: u32|
            #[trigger] is_at(g, tokens, text, x) && (g.nfa.states@[x as int] matches NfaState::Accept {
                variable_index,
                precedence,
            } && variable_index == v && precedence == p);
        lemma_entry_states(g, tokens, text, x);
        assert(ids.contains(x));
    }
}

/// The completion is the token that comes first.
proof fn lemma_completion(g: &LexicalGrammar, tokens: Tokens, text: Seq<int>)
    requires
        g.wf(),
        are_tokens(g, tokens),
    ensures
        completion(g, ids_after(g, tokens, text)) is None <==> recognizes_nothing(g, tokens, text),
        forall|v: usize, p: i32|
            #[trigger] is_best(g, tokens, text, v, p) <==> completion(g, ids_after(g, tokens, text)) == Some((v, p)),
        completion(g, ids_after(g, tokens, text)) matches Some(best) ==> best.0 < g.variables@.len(),
{
    let ids = ids_after(g, tokens, text);
    let cs = completions_of(&g.nfa, ids);
    lemma_best_completion(g, cs);
    lemma_ids_wf(g, tokens, text);
    lemma_completions(g, ids);
    if completion(g, ids) is None {
        assert forall|v: usize, p: i32| !is_recognized(g, tokens, text, v, p) by {
            lemma_recognized(g, tokens, text, v, p);
        }
    } else {
        let best = completion(g, ids)->0;
        lemma_recognized(g, tokens, text, best.0, best.1);
        assert(is_recognized(g, tokens, text, best.0, best.1));
        assert forall|w: usize, q: i32| #[trigger] is_recognized(g, tokens, text, w, q) implies (w == best.0 && q == best.1)
            || comes_first(g, best.0, best.1, w, q) by {
            lemma_recognized(g, tokens, text, w, q);
            let k = choose|k: int| 0 <= k < cs.len() && cs[k] == (w, q);
            assert(cs[k] == best || prefers_token(g, (best.1, best.0), (cs[k].1, cs[k].0)));
        }
        assert(is_best(g, tokens, text, best.0, best.1));
    }
    assert forall|v: usize, p: i32| #[trigger] is_best(g, tokens, text, v, p) implies completion(g, ids) == Some((v, p)) by {
        assert(is_recognized(g, tokens, text, v, p));
        let best = completion(g, ids)->0;
        assert(is_recognized(g, tokens, text, best.0, best.1));
    }
}

/// Where something reads `c`, some transition describes it.
proof fn lemma_description(g: &LexicalGrammar, tokens: Tokens, text: Seq<int>, c: int) -> (t: Transition)
    requires
        g.wf(),
        are_tokens(g, tokens),
        is_readable(g, tokens, text, c),
    ensures
        describes(moves(&g.nfa, ids_after(g, tokens, text)), c, t),
{
    let ids = ids_after(g, tokens, text);
    let ms = moves(&g.nfa, ids);
    lemma_ids_wf(g, tokens, text);
    lemma_transitions_of(&g.nfa, ids);
    let x = choose|x: u32| is_reader(g, tokens, text, c, x);
    let i = lemma_move_for(g, tokens, text, c, x);
    assert(fires(ms, i, c));
    assert(can_move(ms, c));
    let ts = transitions_of(&g.nfa, ids);
    assert(covered(ts, c));
    let j = choose|j: int| 0 <= j < ts.len() && #[trigger] holds(ts[j].characters, c);
    ts[j]
}

/// The description of `c` in terms of its readers.
proof fn lemma_described(g: &LexicalGrammar, tokens: Tokens, text: Seq<int>, c: int, t: Transition)
    requires
        g.wf(),
        are_tokens(g, tokens),
        describes(moves(&g.nfa, ids_after(g, tokens, text)), c, t),
    ensures
        is_readable(g, tokens, text, c),
        t.is_separator == !is_read_in_token(g, tokens, text, c),
        is_read_at(g, tokens, text, c, t.precedence),
        !is_read_above(g, tokens, text, c, t.precedence),
        forall|v: usize|
            goes_on_with(g, tokens, text, c, v) <==> exists|k: int|
                0 <= k < t.states.len() && g.state_is_of_variable(#[trigger] t.states[k], v as int),
{
    let ids = ids_after(g, tokens, text);
    let ms = moves(&g.nfa, ids);
    let i = choose|i: int| #[trigger] fires(ms, i, c) && ms[i].precedence == t.precedence;
    assert(fires(ms, i, c));
    let x = lemma_reader_of(g, tokens, text, c, i);
    assert(is_reader(g, tokens, text, c, x) && precedence_of(g, x) == t.precedence);
    if is_read_in_token(g, tokens, text, c) {
        let y = choose|y: u32| #[trigger] is_reader(g, tokens, text, c, y) && !reads_separator(g, y);
        let j = lemma_move_for(g, tokens, text, c, y);
        assert(fires(ms, j, c));
    }
    if !t.is_separator {
        let j = choose|j: int| #[trigger] fires(ms, j, c) && !ms[j].is_separator;
        assert(fires(ms, j, c));
        let y = lemma_reader_of(g, tokens, text, c, j);
        assert(is_reader(g, tokens, text, c, y) && !reads_separator(g, y));
    }
    if is_read_above(g, tokens, text, c, t.precedence) {
        let y = choose|y: u32| #[trigger] is_reader(g, tokens, text, c, y) && precedence_of(g, y) > t.precedence;
        let j = lemma_move_for(g, tokens, text, c, y);
        assert(fires(ms, j, c));
    }
    assert forall|v: usize| goes_on_with(g, tokens, text, c, v) <==> exists|k: int|
        0 <= k < t.states.len() && g.state_is_of_variable(#[trigger] t.states[k], v as int) by {
        if goes_on_with(g, tokens, text, c, v) {
            let y = choose|y: u32|
                #[trigger] is_reader(g, tokens, text, c, y) && belongs_to(g, g.nfa.states@[y as int]->state_id, v);
            let j = lemma_move_for(g, tokens, text, c, y);
            let s = ms[j].state;
            assert(fires(ms, j, c));
            assert(goes_to(ms, c, s));
            assert(t.states.contains(s));
            let k = choose|k: int| 0 <= k < t.states.len() && t.states[k] == s;
            assert(g.state_is_of_variable(t.states[k], v as int));
        }
        if exists|k: int| 0 <= k < t.states.len() && g.state_is_of_variable(#[trigger] t.states[k], v as int) {
            let k = choose|k: int| 0 <= k < t.states.len() && g.state_is_of_variable(#[trigger] t.states[k], v as int);
            let s = t.states[k];
            assert(t.states.contains(s));
            assert(goes_to(ms, c, s));
            let j = choose|j: int| #[trigger] fires(ms, j, c) && ms[j].state == s;
            assert(fires(ms, j, c));
            let y = lemma_reader_of(g, tokens, text, c, j);
            assert(is_reader(g, tokens, text, c, y));
            assert(belongs_to(g, g.nfa.states@[y as int]->state_id, v));
        }
    }
}

/// After the text, reading `c` can lead to state `y`.
pub open spec fn leads_to_state(g: &LexicalGrammar, tokens: Tokens, text: Seq<int>, c: int, y: u32) -> bool {
    exists|x: u32| #[trigger] is_reader(g, tokens, text, c, x) && g.nfa.states@[x as int]->state_id == y
}

/// After the text, `c` and `d` are read alike: they lead to the same states, at the same
/// precedence, and both as part of a token or both as separators.
pub open spec fn are_read_alike(g: &LexicalGrammar, tokens: Tokens, text: Seq<int>, c: int, d: int) -> bool {
    &&& is_readable(g, tokens, text, c) && is_readable(g, tokens, text, d)
    &&& forall|y: u32| leads_to_state(g, tokens, text, c, y) == #[trigger] leads_to_state(g, tokens, text, d, y)
    &&& forall|p: i32| is_read_above(g, tokens, text, c, p) == #[trigger] is_read_above(g, tokens, text, d, p)
    &&& is_read_in_token(g, tokens, text, c) == is_read_in_token(g, tokens, text, d)
}

/// The characters of a kept transition are those that are read like one of them.
pub proof fn lemma_read_alike(g: &LexicalGrammar, tokens: Tokens, text: Seq<int>, k: int, c: int, d: int)
    requires
        g.wf(),
        are_tokens(g, tokens),
        0 <= k < kept(g, ids_after(g, tokens, text)).len(),
        holds(kept(g, ids_after(g, tokens, text))[k].characters, c),
    ensures
        holds(kept(g, ids_after(g, tokens, text))[k].characters, d) <==> are_read_alike(g, tokens, text, c, d),
{
    let ids = ids_after(g, tokens, text);
    let ms = moves(&g.nfa, ids);
    let ts = transitions_of(&g.nfa, ids);
    let t = kept(g, ids)[k];
    lemma_ids_wf(g, tokens, text);
    lemma_transitions_of(&g.nfa, ids);
    lemma_kept_of(g, ids, ts);
    assert(is_kept(g, ids, ts, kept_of(g, ids, ts)[k]));
    let j = choose|j: int| 0 <= j < ts.len() && ts[j] == t;
    assert(holds(ts[j].characters, c));
    assert(describes(ms, c, t));
    lemma_label(g, tokens, text, c, t);
    if holds(t.characters, d) {
        assert(holds(ts[j].characters, d));
        assert(describes(ms, d, t));
        lemma_label(g, tokens, text, d, t);
    }
    if are_read_alike(g, tokens, text, c, d) {
        let x = choose|x: u32| is_reader(g, tokens, text, d, x);
        let i = lemma_move_for(g, tokens, text, d, x);
        assert(fires(ms, i, d));
        assert(can_move(ms, d));
        assert(covered(ts, d));
        let h = choose|h: int| 0 <= h < ts.len() && #[trigger] holds(ts[h].characters, d);
        let u = ts[h];
        assert(describes(ms, d, u));
        lemma_label(g, tokens, text, d, u);
        assert(t.precedence == u.precedence) by {
            assert(is_read_above(g, tokens, text, d, t.precedence) == (u.precedence > t.precedence));
            assert(is_read_above(g, tokens, text, d, u.precedence) == (u.precedence > u.precedence));
        }
        assert forall|y: u32| #[trigger] t.states.contains(y) <==> u.states.contains(y) by {
            assert(leads_to_state(g, tokens, text, c, y) == leads_to_state(g, tokens, text, d, y));
        }
        lemma_sorted_unique(t.states, u.states);
        assert(same_label(t, u) && same_label(u, t));
        if h < j {
            assert(!same_label(ts[h], ts[j]));
        } else if j < h {
            assert(!same_label(ts[j], ts[h]));
        }
    }
}

/// The label of the transition that describes `c`, in terms of the readers of `c`.
proof fn lemma_label(g: &LexicalGrammar, tokens: Tokens, text: Seq<int>, c: int, t: Transition)
    requires
        g.wf(),
        are_tokens(g, tokens),
        describes(moves(&g.nfa, ids_after(g, tokens, text)), c, t),
    ensures
        is_readable(g, tokens, text, c),
        t.is_separator == !is_read_in_token(g, tokens, text, c),
        forall|p: i32| #[trigger] is_read_above(g, tokens, text, c, p) <==> t.precedence > p,
        forall|y: u32| #[trigger] leads_to_state(g, tokens, text, c, y) <==> t.states.contains(y),
{
    let ms = moves(&g.nfa, ids_after(g, tokens, text));
    lemma_described(g, tokens, text, c, t);
    assert forall|p: i32| #[trigger] is_read_above(g, tokens, text, c, p) <==> t.precedence > p by {
        if t.precedence > p {
            let x = choose|x: u32| #[trigger] is_reader(g, tokens, text, c, x) && precedence_of(g, x) == t.precedence;
            assert(is_reader(g, tokens, text, c, x) && precedence_of(g, x) > p);
        }
        if is_read_above(g, tokens, text, c, p) && t.precedence <= p {
            let x = choose|x: u32| #[trigger] is_reader(g, tokens, text, c, x) && precedence_of(g, x) > p;
            assert(is_reader(g, tokens, text, c, x) && precedence_of(g, x) > t.precedence);
        }
    }
    assert forall|y: u32| #[trigger] leads_to_state(g, tokens, text, c, y) <==> t.states.contains(y) by {
        if leads_to_state(g, tokens, text, c, y) {
            let x = choose|x: u32| #[trigger] is_reader(g, tokens, text, c, x) && g.nfa.states@[x as int]->state_id == y;
            let i = lemma_move_for(g, tokens, text, c, x);
            assert(fires(ms, i, c) && ms[i].state == y);
            assert(goes_to(ms, c, y));
        }
        if t.states.contains(y) {
            assert(goes_to(ms, c, y));
            let i = choose|i: int| #[trigger] fires(ms, i, c) && ms[i].state == y;
            assert(fires(ms, i, c));
            let x = lemma_reader_of(g, tokens, text, c, i);
            assert(is_reader(g, tokens, text, c, x) && g.nfa.states@[x as int]->state_id == y);
        }
    }
}

/// The lexer reads on where going on beats stopping.
proof fn lemma_reads_char(g: &LexicalGrammar, tokens: Tokens, text: Seq<int>, c: int)
    requires
        g.wf(),
        are_tokens(g, tokens),
    ensures
        reads_char(g, ids_after(g, tokens, text), c) == goes_on(g, tokens, text, c),
        is_readable(g, tokens, text, c) ==> separates(&g.nfa, ids_after(g, tokens, text), c) == !is_read_in_token(
            g,
            tokens,
            text,
            c,
        ),
{
    let ids = ids_after(g, tokens, text);
    let ms = moves(&g.nfa, ids);
    lemma_completion(g, tokens, text);
    lemma_separators(g, tokens, text);
    if is_readable(g, tokens, text, c) {
        let t = lemma_description(g, tokens, text, c);
        lemma_described(g, tokens, text, c, t);
        lemma_reads_on(g, tokens, text, c, t);
        if reads_char(g, ids, c) {
            let u = choose|u: Transition| #[trigger] describes(ms, c, u) && reads_on(g, ids, u);
            lemma_described(g, tokens, text, c, u);
            lemma_reads_on(g, tokens, text, c, u);
        }
    } else if reads_char(g, ids, c) {
        let u = choose|u: Transition| #[trigger] describes(ms, c, u) && reads_on(g, ids, u);
        lemma_described(g, tokens, text, c, u);
    }
}

proof fn lemma_reads_on(g: &LexicalGrammar, tokens: Tokens, text: Seq<int>, c: int, t: Transition)
    requires
        g.wf(),
        are_tokens(g, tokens),
        describes(moves(&g.nfa, ids_after(g, tokens, text)), c, t),
    ensures
        reads_on(g, ids_after(g, tokens, text), t) == goes_on(g, tokens, text, c),
{
    let ids = ids_after(g, tokens, text);
    lemma_completion(g, tokens, text);
    lemma_separators(g, tokens, text);
    lemma_described(g, tokens, text, c, t);
    if let Some(best) = completion(g, ids) {
        let v = best.0;
        let p = best.1;
        assert(is_best(g, tokens, text, v, p));
        if is_read_at(g, tokens, text, c, p) && !is_read_above(g, tokens, text, c, p) {
            let x = choose|x: u32| #[trigger] is_reader(g, tokens, text, c, x) && precedence_of(g, x) == p;
            let y = choose|y: u32| #[trigger] is_reader(g, tokens, text, c, y) && precedence_of(g, y) == t.precedence;
            assert(t.precedence == p);
        }
        if t.precedence > p {
            let y = choose|y: u32| #[trigger] is_reader(g, tokens, text, c, y) && precedence_of(g, y) == t.precedence;
            assert(is_read_above(g, tokens, text, c, p));
        }
        if is_read_above(g, tokens, text, c, p) {
            let x = choose|x: u32| #[trigger] is_reader(g, tokens, text, c, x) && precedence_of(g, x) > p;
            assert(t.precedence > p);
        }
        assert(beats(g, tokens, text, c, v, p) == reads_on(g, ids, t));
    }
}

/// The lexer, started for a set of tokens, reads a text to its end just where at each
/// character going on beats stopping; it is then at the states that the paths from the
/// start states of the tokens lead to, and the end of the input is valid just where all
/// of the text has been separators.
pub proof fn law_configuration_after_text(g: &LexicalGrammar, tokens: Tokens, text: Seq<int>)
    requires
        g.wf(),
        are_tokens(g, tokens),
    ensures
        run_config(g, entry_config(g, tokens), inputs(text)) is Some <==> can_read(g, tokens, text),
        run_config(g, entry_config(g, tokens), inputs(text)) matches Some(config) ==> {
            &&& forall|x: u32| #[trigger] config.0.contains(x) <==> is_still(&g.nfa, x) && is_at(g, tokens, text, x)
            &&& config.1 == end_is_valid(g, tokens, text)
            &&& config_wf(g, config)
        },
    decreases text.len(),
{
    let entry = entry_config(g, tokens);
    g.nfa.lemma_closure(start_states(g, tokens));
    if text.len() > 0 {
        let front = text.drop_last();
        let c = text.last();
        law_configuration_after_text(g, tokens, front);
        assert(inputs(text).drop_last() =~= inputs(front));
        assert(inputs(text).last() == Some(c));
        assert(text.take(text.len() - 1) =~= front);
        assert forall|k: int| 0 <= k < front.len() implies front[k] == text[k] && front.take(k) == #[trigger] text.take(k) by {
            assert(front.take(k) =~= text.take(k));
        }
        assert(can_read(g, tokens, text) <==> can_read(g, tokens, front) && goes_on(g, tokens, front, c)) by {
            if can_read(g, tokens, text) {
                assert forall|k: int| 0 <= k < front.len() implies goes_on(g, tokens, front.take(k), #[trigger] front[k]) by {
                    assert(goes_on(g, tokens, text.take(k), text[k]));
                    assert(front.take(k) == text.take(k));
                }
                assert(goes_on(g, tokens, text.take(text.len() - 1), text[text.len() - 1]));
            }
            if can_read(g, tokens, front) && goes_on(g, tokens, front, c) {
                assert forall|k: int| 0 <= k < text.len() implies goes_on(g, tokens, text.take(k), #[trigger] text[k]) by {
                    if k < front.len() {
                        assert(goes_on(g, tokens, front.take(k), front[k]));
                        assert(front.take(k) == text.take(k));
                    }
                }
            }
        }
        if let Some(before) = run_config(g, entry, inputs(front)) {
            law_lexer_runs_the_automaton(g, entry, front);
            lemma_reads_char(g, tokens, front, c);
            assert(before.0 == ids_after(g, tokens, front));
            assert(end_is_valid(g, tokens, text) <==> end_is_valid(g, tokens, front) && !is_read_in_token(
                g,
                tokens,
                front,
                c,
            )) by {
                if end_is_valid(g, tokens, text) {
                    assert forall|k: int| 0 <= k < front.len() implies !is_read_in_token(
                        g,
                        tokens,
                        front.take(k),
                        #[trigger] front[k],
                    ) by {
                        assert(!is_read_in_token(g, tokens, text.take(k), text[k]));
                        assert(front.take(k) == text.take(k));
                    }
                    assert(!is_read_in_token(g, tokens, text.take(text.len() - 1), text[text.len() - 1]));
                }
                if end_is_valid(g, tokens, front) && !is_read_in_token(g, tokens, front, c) {
                    assert forall|k: int| 0 <= k < text.len() implies !is_read_in_token(
                        g,
                        tokens,
                        text.take(k),
                        #[trigger] text[k],
                    ) by {
                        if k < front.len() {
                            assert(!is_read_in_token(g, tokens, front.take(k), front[k]));
                            assert(front.take(k) == text.take(k));
                        }
                    }
                }
            }
        }
    } else {
        assert(text =~= Seq::empty());
    }
    if let Some(config) = run_config(g, entry, inputs(text)) {
        law_lexer_runs_the_automaton(g, entry, text);
        assert(config.0 == ids_after(g, tokens, text));
        assert forall|x: u32| #[trigger] config.0.contains(x) <==> is_still(&g.nfa, x) && is_at(g, tokens, text, x) by {
            lemma_entry_states(g, tokens, text, x);
        }
        if text.len() > 0 {
            let ids = ids_after(g, tokens, text.drop_last());
            let c = text.last();
            g.nfa.lemma_closure(Set::new(|x: u32| goes_to(moves(&g.nfa, ids), c, x)));
        }
    }
}

/// A kept transition reads something.
proof fn lemma_kept_is_readable(g: &LexicalGrammar, tokens: Tokens, text: Seq<int>, k: int) -> (c: int)
    requires
        g.wf(),
        are_tokens(g, tokens),
        0 <= k < kept(g, ids_after(g, tokens, text)).len(),
    ensures
        describes(moves(&g.nfa, ids_after(g, tokens, text)), c, kept(g, ids_after(g, tokens, text))[k]),
        is_readable(g, tokens, text, c),
        holds(kept(g, ids_after(g, tokens, text))[k].characters, c),
{
    let ids = ids_after(g, tokens, text);
    let ts = transitions_of(&g.nfa, ids);
    lemma_ids_wf(g, tokens, text);
    lemma_transitions_of(&g.nfa, ids);
    lemma_kept_of(g, ids, ts);
    assert(is_kept(g, ids, ts, kept_of(g, ids, ts)[k]));
    let t = kept(g, ids)[k];
    let j = choose|j: int| 0 <= j < ts.len() && ts[j] == t;
    let c = t.characters[0].start as int;
    assert(t.characters[0].start <= c < t.characters[0].end);
    assert(holds(ts[j].characters, c));
    lemma_described(g, tokens, text, c, t);
    c
}

/// The lexer accepts after a text what it should: the token that comes first of those
/// that the text is a spelling of, and the end of the input only where no token has been
/// recognized.
pub proof fn law_accepts_after_text(g: &LexicalGrammar, tokens: Tokens, text: Seq<int>)
    requires
        g.wf(),
        are_tokens(g, tokens),
        can_read(g, tokens, text),
    ensures
        run_config(g, entry_config(g, tokens), inputs(text)) is Some,
        accepts_rightly(g, tokens, text, accepted(g, run_config(g, entry_config(g, tokens), inputs(text))->0)),
{
    law_configuration_after_text(g, tokens, text);
    let config = run_config(g, entry_config(g, tokens), inputs(text))->0;
    law_lexer_runs_the_automaton(g, entry_config(g, tokens), text);
    let ids = ids_after(g, tokens, text);
    assert(config.0 == ids);
    lemma_completion(g, tokens, text);
    let next = successors(g, config);
    let ks = kept(g, ids);
    let ends = end_successors(config);
    assert forall|v: usize, p: i32| #[trigger] is_best(g, tokens, text, v, p) implies (accepted(g, config) matches Some(s)
        && s.kind == SymbolType::Terminal && s.index == v) by {
        assert(completion(g, ids) == Some((v, p)));
    }
    if recognizes_nothing(g, tokens, text) {
        if forall|c: int| !is_readable(g, tokens, text, c) {
            if ks.len() > 0 {
                let c = lemma_kept_is_readable(g, tokens, text, 0);
            }
            assert(next =~= ends);
            if is_anywhere(g, tokens, text) {
                let x = choose|x: u32| #[trigger] is_at(g, tokens, text, x) && is_still(&g.nfa, x);
                assert(config.0.contains(x));
            } else if config.0.len() > 0 {
                assert(config.0.contains(config.0[0]));
                assert(is_at(g, tokens, text, config.0[0]));
            }
        }
        if (exists|c: int| is_readable(g, tokens, text, c)) && has_no_dead_ends(g, tokens, text) {
            let c = choose|c: int| is_readable(g, tokens, text, c);
            let t = lemma_description(g, tokens, text, c);
            assert(reads_on(g, ids, t));
            assert(reads_char(g, ids, c));
            let k = lemma_read_is_kept(g, config, c);
            assert(ks.len() > 0);
            let last = ks[ks.len() - 1];
            let d = lemma_kept_is_readable(g, tokens, text, ks.len() - 1);
            assert(next.last() == target(g, config, last)) by {
                assert(next[next.len() - 1] == targets(g, config, ks)[ks.len() - 1]);
            }
            let x = choose|x: u32| is_reader(g, tokens, text, d, x);
            let i = lemma_move_for(g, tokens, text, d, x);
            let ms = moves(&g.nfa, ids);
            let y = ms[i].state;
            assert(fires(ms, i, d));
            assert(goes_to(ms, d, y));
            assert(last.states.contains(y));
            assert(leads_on(g, y));
            let z = choose|z: u32|
                z < g.nfa.states@.len() && is_still(&g.nfa, z) && #[trigger] spells(&g.nfa, y, Seq::empty(), z);
            lemma_closure_paths(&g.nfa, last.states.to_set(), z);
            assert(last.states.to_set().contains(y));
            assert(next.last().0.contains(z));
        }
    }
}

/// The state accepts the end of the input, and does nothing more.
pub open spec fn is_end(s: StateModel) -> bool {
    &&& s.accept_action == Some(Symbol { kind: SymbolType::End, index: 0 })
    &&& s.eof_action is None
    &&& s.advance_actions.len() == 0
}

/// Whichever of the characters is read next, no state is left.
pub open spec fn leads_nowhere(g: &LexicalGrammar, tokens: Tokens, text: Seq<int>, chars: Seq<CharRange>) -> bool {
    forall|c: int| #[trigger] holds(chars, c) ==> !is_anywhere(g, tokens, text.push(c))
}

/// Each of the actions reads all characters that are read like one of its own, and the
/// actions are in order of their characters.
pub open spec fn are_apart(
    g: &LexicalGrammar,
    tokens: Tokens,
    text: Seq<int>,
    actions: Seq<(Seq<CharRange>, AdvanceAction)>,
) -> bool {
    &&& forall|a: int, c: int, d: int|
        0 <= a < actions.len() && holds(actions[a].0, c) ==> (#[trigger] holds(actions[a].0, d)
            <==> #[trigger] are_read_alike(g, tokens, text, c, d))
    &&& forall|j: int, k: int|
        0 <= j < k < actions.len() ==> chars_go_before((#[trigger] actions[j]).0, (#[trigger] actions[k]).0)
}

/// State `x` of the table does what is right after the text.
pub open spec fn does_right(g: &LexicalGrammar, tokens: Tokens, text: Seq<int>, table: Seq<StateModel>, x: int) -> bool {
    &&& 0 <= x < table.len()
    &&& accepts_rightly(g, tokens, text, table[x].accept_action)
    &&& recognizes_nothing(g, tokens, text) && table[x].advance_actions.len() > 0 ==> (table[x].accept_action is Some)
        == leads_nowhere(g, tokens, text, table[x].advance_actions.last().0)
    &&& are_apart(g, tokens, text, table[x].advance_actions)
    &&& (table[x].eof_action is Some) == end_is_valid(g, tokens, text)
    &&& table[x].eof_action matches Some(action) ==> action.in_main_token && action.state < table.len() && is_end(
        table[action.state as int],
    )
    &&& forall|c: int| (#[trigger] action_on(table[x], Some(c)) is Some) == goes_on(g, tokens, text, c)
    &&& forall|c: int|
        (#[trigger] action_on(table[x], Some(c))) matches Some(action) ==> action.in_main_token == is_read_in_token(
            g,
            tokens,
            text,
            c,
        )
}

/// The lexer, started in state `start`, does with the text what is right when it looks for
/// the tokens: it reads the text just where at each character going on beats stopping,
/// and then accepts and goes on as it should.
pub open spec fn lexes(g: &LexicalGrammar, tokens: Tokens, table: Seq<StateModel>, start: int, text: Seq<int>) -> bool {
    match run_table(table, start, inputs(text)) {
        None => !can_read(g, tokens, text),
        Some(x) => can_read(g, tokens, text) && does_right(g, tokens, text, table, x),
    }
}

/// Where no token has been recognized, the end of the input is accepted if the last of the
/// actions leads nowhere.
proof fn lemma_last_action(g: &LexicalGrammar, tokens: Tokens, text: Seq<int>)
    requires
        g.wf(),
        are_tokens(g, tokens),
        run_config(g, entry_config(g, tokens), inputs(text)) is Some,
        recognizes_nothing(g, tokens, text),
        kept(g, ids_after(g, tokens, text)).len() > 0,
    ensures
        (accepted(g, run_config(g, entry_config(g, tokens), inputs(text))->0) is Some) == leads_nowhere(
            g,
            tokens,
            text,
            kept(g, ids_after(g, tokens, text)).last().characters,
        ),
{
    let config = run_config(g, entry_config(g, tokens), inputs(text))->0;
    let ids = ids_after(g, tokens, text);
    law_lexer_runs_the_automaton(g, entry_config(g, tokens), text);
    law_configuration_after_text(g, tokens, text);
    lemma_completion(g, tokens, text);
    let ks = kept(g, ids);
    let k = ks.len() - 1;
    let next = successors(g, config);
    let to = target(g, config, ks[k]);
    assert(next.last() == to) by {
        assert(next[next.len() - 1] == targets(g, config, ks)[k]);
    }
    assert forall|c: int| #[trigger] holds(ks[k].characters, c) implies is_anywhere(g, tokens, text.push(c)) == (to.0.len()
        > 0) by {
        let longer = text.push(c);
        lemma_kept_reads(g, config, k, c);
        assert(longer.drop_last() =~= text);
        assert(longer.last() == c);
        assert(ids_after(g, tokens, longer) == to.0);
        if is_anywhere(g, tokens, longer) {
            let x = choose|x: u32| #[trigger] is_at(g, tokens, longer, x) && is_still(&g.nfa, x);
            lemma_entry_states(g, tokens, longer, x);
            assert(to.0.contains(x));
        } else if to.0.len() > 0 {
            lemma_entry_states(g, tokens, longer, to.0[0]);
            assert(to.0.contains(to.0[0]));
        }
    }
    let c = lemma_kept_is_readable(g, tokens, text, k);
}

/// What a state that looks like that of a configuration does.
pub proof fn lemma_does_right(
    g: &LexicalGrammar,
    tokens: Tokens,
    text: Seq<int>,
    configs: Seq<Config>,
    table: Seq<StateModel>,
    x: int,
)
    requires
        g.wf(),
        are_tokens(g, tokens),
        is_complete(g, configs),
        can_read(g, tokens, text),
        run_config(g, entry_config(g, tokens), inputs(text)) matches Some(config) && configs.contains(config) && looks_like(
            state_for(g, configs, config),
            table[x],
        ),
        0 <= x < table.len(),
        table[x].eof_action matches Some(action) ==> action.in_main_token && action.state < table.len() && is_end(
            table[action.state as int],
        ),
    ensures
        does_right(g, tokens, text, table, x),
{
    law_configuration_after_text(g, tokens, text);
    law_accepts_after_text(g, tokens, text);
    law_lexer_runs_the_automaton(g, entry_config(g, tokens), text);
    let config = run_config(g, entry_config(g, tokens), inputs(text))->0;
    lemma_number_of(g, configs, configs, config);
    let y = configs.index_of(config);
    let s = state_for(g, configs, config);
    assert(table_for(g, configs)[y] == s);
    let actions = table[x].advance_actions;
    assert forall|a: int, c: int, d: int| 0 <= a < actions.len() && holds(actions[a].0, c) implies (
    #[trigger] holds(actions[a].0, d) <==> #[trigger] are_read_alike(g, tokens, text, c, d)) by {
        assert(s.advance_actions[a].0 == actions[a].0);
        lemma_read_alike(g, tokens, text, a, c, d);
    }
    assert forall|j: int, k: int| 0 <= j < k < actions.len() implies chars_go_before(
        (#[trigger] actions[j]).0,
        (#[trigger] actions[k]).0,
    ) by {
        assert(s.advance_actions[j].0 == actions[j].0 && s.advance_actions[k].0 == actions[k].0);
        law_actions_are_in_order(g, configs, y, j, k);
    }
    if recognizes_nothing(g, tokens, text) && s.advance_actions.len() > 0 {
        lemma_last_action(g, tokens, text);
        assert(s.advance_actions.last().0 == table[x].advance_actions[s.advance_actions.len() - 1].0);
    }
    assert forall|c: int| (#[trigger] action_on(table[x], Some(c)) is Some) == goes_on(g, tokens, text, c) && (action_on(
        table[x],
        Some(c),
    ) matches Some(action) ==> action.in_main_token == is_read_in_token(g, tokens, text, c)) by {
        lemma_looks_like(s, table[x], c);
        law_lexer_steps(g, configs, y, Some(c));
        lemma_reads_char(g, tokens, text, c);
    }
}

/// What is built for a set of tokens is a lexer for them: from the state of their entry
/// point on, it does with every text what is right when it looks for the tokens.
pub proof fn law_entry_point_lexes(g: &LexicalGrammar, configs: Seq<Config>, tokens: Tokens, text: Seq<int>)
    requires
        g.wf(),
        are_tokens(g, tokens),
        is_complete(g, configs),
        configs.contains(entry_config(g, tokens)),
    ensures
        lexes(g, tokens, table_for(g, configs), number_of(configs, entry_config(g, tokens)) as int, text),
{
    let table = table_for(g, configs);
    let entry = entry_config(g, tokens);
    lemma_number_of(g, configs, configs, entry);
    let x = configs.index_of(entry);
    law_configuration_after_text(g, tokens, text);
    law_lexer_follows_automaton(g, configs, x, inputs(text));
    if let Some(config) = run_config(g, entry, inputs(text)) {
        let y = configs.index_of(config);
        lemma_number_of(g, configs, configs, config);
        law_end_of_input(g, configs);
        assert(table[y] == state_for(g, configs, config));
        if config.1 {
            assert(table[y].eof_action is Some);
        }
        lemma_does_right(g, tokens, text, configs, table, y);
    }
}

/// Nothing that is recognized after the text stops the lexer from reading `c`: some state
/// reads it at a precedence above that of every token that has been recognized.
pub open spec fn is_unhindered(g: &LexicalGrammar, tokens: Tokens, text: Seq<int>, c: int) -> bool {
    exists|x: u32|
        #[trigger] is_reader(g, tokens, text, c, x) && forall|v: usize, p: i32|
            #[trigger] is_recognized(g, tokens, text, v, p) ==> precedence_of(g, x) > p || (precedence_of(g, x) == p
                && !awaits_separator(g, tokens, text))
}

/// Every token of the set is found: after a spelling of token `t` at which no token cuts
/// in, the lexer is at the state that recognizes `t`, and accepts `t` if it comes first.
pub proof fn law_every_token_is_found(
    g: &LexicalGrammar,
    configs: Seq<Config>,
    tokens: Tokens,
    t: usize,
    p: i32,
    text: Seq<int>,
    end: u32,
)
    requires
        g.wf(),
        are_tokens(g, tokens),
        is_complete(g, configs),
        configs.contains(entry_config(g, tokens)),
        tokens.terminals.contains(t as int),
        spells(&g.nfa, g.variables@[t as int].start_state, text, end),
        g.nfa.states@[end as int] matches NfaState::Accept { variable_index, precedence } && variable_index == t
            && precedence == p,
        forall|k: int| 0 <= k < text.len() ==> is_unhindered(g, tokens, text.take(k), #[trigger] text[k]),
    ensures
        run_config(g, entry_config(g, tokens), inputs(text)) matches Some(config) && config.0.contains(end),
        run_table(
            table_for(g, configs),
            number_of(configs, entry_config(g, tokens)) as int,
            inputs(text),
        ) matches Some(x) && 0 <= x < configs.len() && (table_for(g, configs)[x].accept_action matches Some(s) && s.kind
            == SymbolType::Terminal && (s.index == t || exists|w: usize, q: i32|
            is_recognized(g, tokens, text, w, q) && #[trigger] comes_first(g, w, q, t, p) && s.index == w)),
{
    assert forall|k: int| 0 <= k < text.len() implies goes_on(g, tokens, text.take(k), #[trigger] text[k]) by {
        let front = text.take(k);
        let c = text[k];
        assert(is_unhindered(g, tokens, front, c));
        let x = choose|x: u32|
            #[trigger] is_reader(g, tokens, front, c, x) && forall|v: usize, p: i32|
                #[trigger] is_recognized(g, tokens, front, v, p) ==> precedence_of(g, x) > p || (precedence_of(g, x) == p
                    && !awaits_separator(g, tokens, front));
        assert forall|v: usize, p: i32| #[trigger] is_best(g, tokens, front, v, p) implies beats(
            g,
            tokens,
            front,
            c,
            v,
            p,
        ) by {
            assert(is_recognized(g, tokens, front, v, p));
            if !awaits_separator(g, tokens, front) {
                assert(is_at(g, tokens, front, x));
                assert(!reads_separator(g, x));
            }
        }
    }
    law_configuration_after_text(g, tokens, text);
    law_entry_point_lexes(g, configs, tokens, text);
    assert(is_at(g, tokens, text, end));
    assert(is_recognized(g, tokens, text, t, p));
    lemma_completion(g, tokens, text);
    let best = completion(g, ids_after(g, tokens, text))->0;
    assert(is_best(g, tokens, text, best.0, best.1));
}

/// Where a token has been recognized and a separator is awaited, and nothing reads `c` at a
/// higher precedence, the lexer goes on with `c` only if `c` is part of a token, read at
/// the precedence of the recognized token, and goes on with that token; otherwise it
/// stops.
pub proof fn law_separators_stop_the_lexer(g: &LexicalGrammar, tokens: Tokens, text: Seq<int>, c: int, v: usize, p: i32)
    requires
        g.wf(),
        are_tokens(g, tokens),
        can_read(g, tokens, text),
        is_best(g, tokens, text, v, p),
        awaits_separator(g, tokens, text),
        !is_read_above(g, tokens, text, c, p),
    ensures
        run_config(g, entry_config(g, tokens), inputs(text.push(c))) is Some <==> is_read_at(g, tokens, text, c, p)
            && is_read_in_token(g, tokens, text, c) && goes_on_with(g, tokens, text, c, v),
{
    let longer = text.push(c);
    law_configuration_after_text(g, tokens, text);
    law_configuration_after_text(g, tokens, longer);
    lemma_completion(g, tokens, text);
    assert(longer.take(text.len() as int) =~= text);
    assert(goes_on(g, tokens, text, c) <==> beats(g, tokens, text, c, v, p)) by {
        if beats(g, tokens, text, c, v, p) {
            let x = choose|x: u32| #[trigger] is_reader(g, tokens, text, c, x) && precedence_of(g, x) == p;
            assert(is_readable(g, tokens, text, c));
        }
    }
    if can_read(g, tokens, longer) {
        assert(goes_on(g, tokens, longer.take(text.len() as int), longer[text.len() as int]));
    }
    if goes_on(g, tokens, text, c) {
        assert forall|k: int| 0 <= k < longer.len() implies goes_on(g, tokens, longer.take(k), #[trigger] longer[k]) by {
            if k < text.len() {
                assert(longer.take(k) =~= text.take(k));
                assert(goes_on(g, tokens, text.take(k), text[k]));
            }
        }
    }
}

} // verus!
