//! What becomes of the keywords in a parse state.

use vstd::prelude::*;

use crate::character_set::{holds, is_scalar};
use crate::continuation::{search_ends, search_start};
use crate::continuation_laws::{
    can_go_on, continues_keyword, extends_keyword, extends_text, is_spelling, law_continuations_are_all_found,
    law_continuations_are_real, lemma_extends,
};
use crate::keywords::{in_a_pair, last_precedence, lemma_pair_keywords, pair_keywords, shifts_before, KeywordRules};
use crate::nfa::NfaState;
use crate::rules::{Symbol, SymbolType};
use crate::tables::{ParseAction, ParseState, ParseTable};

verus! {

/// What the lexer looks for is in the set of its tokens.
proof fn lemma_looked_for(rules: KeywordRules<'_>, table: ParseTable, state: ParseState, symbol: Symbol)
    requires
        rules.looks_for(table, state, symbol),
        symbol.kind != SymbolType::NonTerminal,
    ensures
        rules.lexed_tokens(table, state).has(symbol),
{
    let p = |s: Symbol| rules.looks_for(table, state, s);
    assert(p(symbol));
}

/// What is in the set of the lexer's tokens is looked for.
proof fn lemma_in_lexed_tokens(rules: KeywordRules<'_>, table: ParseTable, state: ParseState, symbol: Symbol)
    requires
        rules.lexed_tokens(table, state).has(symbol),
        symbol.kind == SymbolType::Terminal,
    ensures
        rules.looks_for(table, state, symbol),
{
    let p = |s: Symbol| rules.looks_for(table, state, s);
    let s = choose|s: Symbol| #[trigger] p(s) && s.kind == SymbolType::Terminal && s.index == symbol.index as int;
    assert(s == symbol);
}

/// Where both members of an unsafe pair are valid but the word token is not, the lexer
/// looks for the keyword itself.
pub proof fn law_unsafe_pair_retains_keyword(rules: KeywordRules<'_>, table: ParseTable, state: ParseState, p: int)
    requires
        rules.syntax_grammar.word_token is Some,
        0 <= p < rules.unsafe_keyword_pairs@.len(),
        rules.unsafe_keyword_pairs@[p].0.kind == SymbolType::Terminal,
        state.terminal_entries@.contains_key(rules.unsafe_keyword_pairs@[p].0),
        state.terminal_entries@.contains_key(rules.unsafe_keyword_pairs@[p].1),
        !state.terminal_entries@.contains_key(rules.syntax_grammar.word_token->0),
    ensures
        rules.retains(table, state, rules.unsafe_keyword_pairs@[p].0),
        rules.lexed_tokens(table, state).has(rules.unsafe_keyword_pairs@[p].0),
{
    let keyword = rules.unsafe_keyword_pairs@[p].0;
    let word = rules.syntax_grammar.word_token->0;
    assert(rules.pair_conflicts(p, state, word, keyword));
    assert(rules.expects(state, keyword));
    assert(rules.lexed_as(table, state, keyword) == Some(keyword));
    lemma_looked_for(rules, table, state, keyword);
}

/// The actions of the parser on the token in the state.
pub open spec fn actions_on(table: ParseTable, state: ParseState, token: Symbol) -> Seq<ParseAction> {
    table.action_lists@[state.terminal_entries@[token] as int]@
}

/// The parser can shift the keyword in the state, to a state in which `follow` is valid.
pub open spec fn follows_by_shift(table: ParseTable, state: ParseState, keyword: Symbol, follow: Symbol) -> bool {
    exists|a: int, after: u32|
        0 <= a < actions_on(table, state, keyword).len() && (#[trigger] actions_on(
            table,
            state,
            keyword,
        )[a] matches ParseAction::Shift { state: to, .. } && to == after) && (
        #[trigger] table.states@[after as int]).terminal_entries@.contains_key(follow)
}

/// The parser can reduce before the keyword in the state.
pub open spec fn reduces_before(table: ParseTable, state: ParseState, keyword: Symbol) -> bool {
    exists|a: int|
        0 <= a < actions_on(table, state, keyword).len() && (#[trigger] actions_on(
            table,
            state,
            keyword,
        )[a]) is Reduce
}

/// `follow` can come after the keyword in the state: it is valid after the keyword has
/// been shifted, or the parser can reduce and `follow` is a token that comes after the
/// keyword somewhere.
pub open spec fn can_follow(
    rules: KeywordRules<'_>,
    table: ParseTable,
    state: ParseState,
    keyword: Symbol,
    follow: Symbol,
) -> bool {
    ||| follows_by_shift(table, state, keyword, follow)
    ||| reduces_before(table, state, keyword)
        && rules.token_conflict_map.following_tokens_by_index@[keyword.index as int]@.terminals.contains(
        follow.index as int,
    )
}

/// `follow` can start with `c`, is neither a word nor a keyword nor an extra, and after
/// some spelling of the keyword the word token would go on with `c`, although no word
/// starts with it.
pub open spec fn is_swallowed(rules: KeywordRules<'_>, keyword: Symbol, follow: Symbol, c: int) -> bool {
    let word = rules.syntax_grammar.word_token->0;
    let starts = rules.token_conflict_map.starting_chars_by_index@;
    &&& follow.kind == SymbolType::Terminal
    &&& follow != word
    &&& follow != keyword
    &&& !rules.keywords@.terminals.contains(follow.index as int)
    &&& !rules.syntax_grammar.extra_symbols@.contains(follow)
    &&& 0 <= c < 0xD800 || 0xE000 <= c < 0x110000
    &&& holds(starts[follow.index as int]@, c)
    &&& !holds(starts[word.index as int]@, c)
    &&& continues_keyword(rules.lexical_grammar, word.index as int, keyword.index as int, c)
}

/// Something that can come after the keyword in the state starts with a character that
/// the word token would swallow.
pub open spec fn is_swallowed_after(
    rules: KeywordRules<'_>,
    table: ParseTable,
    state: ParseState,
    keyword: Symbol,
    follow: Symbol,
    c: int,
) -> bool {
    can_follow(rules, table, state, keyword, follow) && is_swallowed(rules, keyword, follow, c)
}

proof fn lemma_can_follow(rules: KeywordRules<'_>, table: ParseTable, state: ParseState, keyword: Symbol, follow: Symbol)
    requires
        follow.kind == SymbolType::Terminal,
    ensures
        can_follow(rules, table, state, keyword, follow) <==> rules.shifted_before(table, state, keyword, follow)
            || rules.reduced_before(table, state, keyword, follow),
{
    let actions = actions_on(table, state, keyword);
    if rules.shifted_before(table, state, keyword, follow) {
        let a = choose|a: int| 0 <= a < actions.len() && shifts_before(table, #[trigger] actions[a], follow);
        let after = actions[a]->Shift_state;
        assert(actions_on(table, state, keyword)[a] is Shift);
        assert(table.states@[after as int].terminal_entries@.contains_key(follow));
    }
    if follows_by_shift(table, state, keyword, follow) {
        let (a, after) = choose|a: int, after: u32|
            0 <= a < actions_on(table, state, keyword).len() && (#[trigger] actions_on(
                table,
                state,
                keyword,
            )[a] matches ParseAction::Shift { state: to, .. } && to == after) && (
            #[trigger] table.states@[after as int]).terminal_entries@.contains_key(follow);
        assert(shifts_before(table, actions[a], follow));
    }
    if rules.reduced_before(table, state, keyword, follow) {
        let a = choose|a: int| 0 <= a < actions.len() && (#[trigger] actions[a]) is Reduce;
        assert(actions_on(table, state, keyword)[a] is Reduce);
    }
    if reduces_before(table, state, keyword) {
        let a = choose|a: int|
            0 <= a < actions_on(table, state, keyword).len() && (#[trigger] actions_on(
                table,
                state,
                keyword,
            )[a]) is Reduce;
        assert(actions[a] is Reduce);
    }
}

/// The last state that recognizes token `v` does so with precedence `p`; or no state
/// recognizes it, and `p` is zero.
pub open spec fn has_precedence(states: Seq<NfaState>, v: int, p: i32) -> bool {
    ||| exists|i: int| #[trigger] recognizes_with(states, i, v, p) && forall|j: int|
        i < j < states.len() ==> !((#[trigger] states[j]) matches NfaState::Accept { variable_index, .. }
            && variable_index == v)
    ||| p == 0 && forall|j: int|
        0 <= j < states.len() ==> !((#[trigger] states[j]) matches NfaState::Accept { variable_index, .. }
            && variable_index == v)
}

/// State `i` recognizes token `v` with precedence `p`.
pub open spec fn recognizes_with(states: Seq<NfaState>, i: int, v: int, p: i32) -> bool {
    0 <= i < states.len() && (states[i] matches NfaState::Accept { variable_index, precedence } && variable_index == v
        && precedence == p)
}

/// The precedence of a token is that of the last state that recognizes it.
pub proof fn law_token_precedence(states: Seq<NfaState>, v: int, p: i32)
    ensures
        has_precedence(states, v, p) <==> p == last_precedence(states, v),
    decreases states.len(),
{
    if states.len() > 0 {
        let front = states.drop_last();
        let last = states.len() - 1;
        law_token_precedence(front, v, p);
        match states[last] {
            NfaState::Accept { variable_index, precedence } if variable_index == v => {
                assert(recognizes_with(states, last, v, precedence));
                if has_precedence(states, v, p) {
                    assert(states[last] is Accept);
                    let i = choose|i: int|
                        #[trigger] recognizes_with(states, i, v, p) && forall|j: int|
                            i < j < states.len() ==> !((#[trigger] states[j]) matches NfaState::Accept {
                                variable_index,
                                ..
                            } && variable_index == v);
                    assert(i == last);
                }
            },
            _ => {
                if has_precedence(front, v, p) {
                    if exists|i: int|
                        #[trigger] recognizes_with(front, i, v, p) && forall|j: int|
                            i < j < front.len() ==> !((#[trigger] front[j]) matches NfaState::Accept {
                                variable_index,
                                ..
                            } && variable_index == v) {
                        let i = choose|i: int|
                            #[trigger] recognizes_with(front, i, v, p) && forall|j: int|
                                i < j < front.len() ==> !((#[trigger] front[j]) matches NfaState::Accept {
                                    variable_index,
                                    ..
                                } && variable_index == v);
                        assert(recognizes_with(states, i, v, p));
                        assert forall|j: int| i < j < states.len() implies !((#[trigger] states[j]) matches NfaState::Accept {
                            variable_index,
                            ..
                        } && variable_index == v) by {
                            if j < last {
                                assert(front[j] == states[j]);
                            }
                        }
                    } else {
                        assert forall|j: int| 0 <= j < states.len() implies !((
                        #[trigger] states[j]) matches NfaState::Accept { variable_index, .. } && variable_index == v) by {
                            if j < last {
                                assert(front[j] == states[j]);
                            }
                        }
                    }
                }
                if has_precedence(states, v, p) {
                    if exists|i: int|
                        #[trigger] recognizes_with(states, i, v, p) && forall|j: int|
                            i < j < states.len() ==> !((#[trigger] states[j]) matches NfaState::Accept {
                                variable_index,
                                ..
                            } && variable_index == v) {
                        let i = choose|i: int|
                            #[trigger] recognizes_with(states, i, v, p) && forall|j: int|
                                i < j < states.len() ==> !((#[trigger] states[j]) matches NfaState::Accept {
                                    variable_index,
                                    ..
                                } && variable_index == v);
                        assert(recognizes_with(front, i, v, p));
                        assert forall|j: int| i < j < front.len() implies !((#[trigger] front[j]) matches NfaState::Accept {
                            variable_index,
                            ..
                        } && variable_index == v) by {
                            assert(front[j] == states[j]);
                        }
                    } else {
                        assert forall|j: int| 0 <= j < front.len() implies !((#[trigger] front[j]) matches NfaState::Accept {
                            variable_index,
                            ..
                        } && variable_index == v) by {
                            assert(front[j] == states[j]);
                        }
                    }
                }
            },
        }
    }
}

/// The keyword and the other token of an unsafe pair are valid in the state, and the word
/// token is not.
pub open spec fn is_unsafe_in(rules: KeywordRules<'_>, state: ParseState, keyword: Symbol) -> bool {
    exists|p: int| #[trigger] pair_is_valid(rules, state, keyword, p)
}

/// The keyword is that of pair `p`; both members of the pair are valid in the state, and
/// the word token is not.
pub open spec fn pair_is_valid(rules: KeywordRules<'_>, state: ParseState, keyword: Symbol, p: int) -> bool {
    &&& 0 <= p < rules.unsafe_keyword_pairs@.len()
    &&& rules.unsafe_keyword_pairs@[p].0 == keyword
    &&& state.terminal_entries@.contains_key(keyword)
    &&& state.terminal_entries@.contains_key(rules.unsafe_keyword_pairs@[p].1)
    &&& !state.terminal_entries@.contains_key(rules.syntax_grammar.word_token->0)
}

/// The keyword is that of some unsafe pair, and is valid in the state.
pub open spec fn is_paired_in(rules: KeywordRules<'_>, state: ParseState, keyword: Symbol) -> bool {
    &&& state.terminal_entries@.contains_key(keyword)
    &&& exists|p: int|
        0 <= p < rules.unsafe_keyword_pairs@.len() && (#[trigger] rules.unsafe_keyword_pairs@[p]).0 == keyword
}

/// The word token is not valid in the state, and would swallow the beginning of something
/// that can come after the keyword.
pub open spec fn swallows_in(rules: KeywordRules<'_>, table: ParseTable, state: ParseState, keyword: Symbol) -> bool {
    &&& is_paired_in(rules, state, keyword)
    &&& !state.terminal_entries@.contains_key(rules.syntax_grammar.word_token->0)
    &&& exists|follow: Symbol, c: int| #[trigger] is_swallowed_after(rules, table, state, keyword, follow, c)
}

/// The precedence of the word token is negative, and that of the keyword is higher.
pub open spec fn outranks_word(rules: KeywordRules<'_>, keyword: Symbol) -> bool {
    let states = rules.lexical_grammar.nfa.states@;
    exists|p: i32, q: i32|
        #[trigger] has_precedence(states, (rules.syntax_grammar.word_token->0).index as int, p)
            && #[trigger] has_precedence(states, keyword.index as int, q) && p < 0 && q > p
}

/// There is a reason to look for the keyword itself in the state.
pub open spec fn has_reason(rules: KeywordRules<'_>, table: ParseTable, state: ParseState, keyword: Symbol) -> bool {
    ||| is_unsafe_in(rules, state, keyword)
    ||| swallows_in(rules, table, state, keyword)
    ||| is_paired_in(rules, state, keyword) && outranks_word(rules, keyword)
}

/// A keyword is retained for a reason: beside an unsafe literal, before something whose
/// beginning the word token would swallow, or above a word token of negative precedence.
pub proof fn law_retained_for_a_reason(rules: KeywordRules<'_>, table: ParseTable, state: ParseState, keyword: Symbol)
    requires
        rules.wf(),
        keyword.index < rules.lexical_grammar.variables@.len(),
        rules.retains(table, state, keyword),
    ensures
        rules.syntax_grammar.word_token is Some,
        has_reason(rules, table, state, keyword),
{
    let word = rules.syntax_grammar.word_token->0;
    let states = rules.lexical_grammar.nfa.states@;
    if rules.conflicts_in(state, word, keyword) {
        let p = choose|p: int|
            0 <= p < rules.unsafe_keyword_pairs@.len() && rules.pair_conflicts(p, state, word, keyword);
        assert(pair_is_valid(rules, state, keyword, p));
    } else {
        let p = choose|p: int|
            0 <= p < rules.unsafe_keyword_pairs@.len() && (#[trigger] rules.unsafe_keyword_pairs@[p]).0 == keyword;
        assert(rules.unsafe_keyword_pairs@[p].0 == keyword);
        if rules.extended_in(table, state, word, keyword) {
            law_retained_for_what_follows(rules, table, state, keyword);
            let (follow, c) = choose|follow: Symbol, c: int|
                would_be_swallowed(rules, table, state, keyword, follow, c);
            lemma_swallowed(rules, table, state, keyword, follow, c);
            assert(is_swallowed_after(rules, table, state, keyword, follow, c));
        } else {
            let a = last_precedence(states, word.index as int);
            let b = last_precedence(states, keyword.index as int);
            law_token_precedence(states, word.index as int, a);
            law_token_precedence(states, keyword.index as int, b);
            assert(has_precedence(states, word.index as int, a) && has_precedence(states, keyword.index as int, b));
        }
    }
}

/// Every reason counts: where there is one, the keyword is retained, unless the search for
/// what the word token would swallow runs out of its budget.
pub proof fn law_every_reason_retains(rules: KeywordRules<'_>, table: ParseTable, state: ParseState, keyword: Symbol)
    requires
        rules.wf(),
        rules.syntax_grammar.word_token is Some,
        keyword.index < rules.lexical_grammar.variables@.len(),
        has_reason(rules, table, state, keyword),
        swallows_in(rules, table, state, keyword) ==> search_ends(
            rules.lexical_grammar,
            search_start(
                rules.lexical_grammar,
                (rules.syntax_grammar.word_token->0).index as int,
                keyword.index as int,
            ),
            Set::empty(),
            10_000,
        ),
    ensures
        rules.retains(table, state, keyword),
{
    let word = rules.syntax_grammar.word_token->0;
    let states = rules.lexical_grammar.nfa.states@;
    if is_unsafe_in(rules, state, keyword) {
        let p = choose|p: int| #[trigger] pair_is_valid(rules, state, keyword, p);
        assert(rules.pair_conflicts(p, state, word, keyword));
    } else {
        let p = choose|p: int|
            0 <= p < rules.unsafe_keyword_pairs@.len() && (#[trigger] rules.unsafe_keyword_pairs@[p]).0 == keyword;
        assert(rules.unsafe_keyword_pairs@[p].0 == keyword);
        assert(in_a_pair(rules.unsafe_keyword_pairs@, keyword));
        if swallows_in(rules, table, state, keyword) {
            let (follow, c) = choose|follow: Symbol, c: int|
                #[trigger] is_swallowed_after(rules, table, state, keyword, follow, c);
            lemma_swallowed(rules, table, state, keyword, follow, c);
            lemma_swallowing_extends(rules, table, state, keyword, follow, c);
        } else {
            let (a, b) = choose|a: i32, b: i32|
                #[trigger] has_precedence(states, word.index as int, a) && #[trigger] has_precedence(
                    states,
                    keyword.index as int,
                    b,
                ) && a < 0 && b > a;
            law_token_precedence(states, word.index as int, a);
            law_token_precedence(states, keyword.index as int, b);
        }
    }
}

/// `follow` can come after the keyword in the state, is neither a word nor a keyword nor an
/// extra, and can start with `c`; and after some spelling of the keyword, the word token
/// would go on with `c`, although no word starts with it.
pub open spec fn would_be_swallowed(
    rules: KeywordRules<'_>,
    table: ParseTable,
    state: ParseState,
    keyword: Symbol,
    follow: Symbol,
    c: int,
) -> bool {
    let word = rules.syntax_grammar.word_token->0;
    let starts = rules.token_conflict_map.starting_chars_by_index@;
    &&& rules.shifted_before(table, state, keyword, follow) || rules.reduced_before(table, state, keyword, follow)
    &&& follow.kind == SymbolType::Terminal
    &&& follow != word
    &&& follow != keyword
    &&& !rules.keywords@.has(follow)
    &&& !rules.syntax_grammar.extra_symbols@.contains(follow)
    &&& is_scalar(c)
    &&& holds(starts[follow.index as int]@, c)
    &&& !holds(starts[word.index as int]@, c)
    &&& extends_keyword(rules.lexical_grammar, word.index as int, keyword.index as int, c)
}

/// What would be swallowed, in terms of actions and paths.
proof fn lemma_swallowed(
    rules: KeywordRules<'_>,
    table: ParseTable,
    state: ParseState,
    keyword: Symbol,
    follow: Symbol,
    c: int,
)
    requires
        rules.wf(),
        rules.syntax_grammar.word_token is Some,
        keyword.index < rules.lexical_grammar.variables@.len(),
    ensures
        is_swallowed_after(rules, table, state, keyword, follow, c) <==> would_be_swallowed(
            rules,
            table,
            state,
            keyword,
            follow,
            c,
        ),
{
    let g = rules.lexical_grammar;
    let word = rules.syntax_grammar.word_token->0;
    let w = word.index as int;
    let k = keyword.index as int;
    if follow.kind == SymbolType::Terminal {
        lemma_can_follow(rules, table, state, keyword, follow);
    }
    lemma_extends(g, w, k, c);
    if continues_keyword(g, w, k, c) {
        let text = choose|text: Seq<int>| #[trigger] is_spelling(g, k, text) && can_go_on(g, w, text, c);
        assert(extends_text(g, w, k, text, c));
    }
    if extends_keyword(g, w, k, c) {
        let text = choose|text: Seq<int>| #[trigger] extends_text(g, w, k, text, c);
        assert(is_spelling(g, k, text));
    }
}

proof fn lemma_swallowing_extends(
    rules: KeywordRules<'_>,
    table: ParseTable,
    state: ParseState,
    keyword: Symbol,
    follow: Symbol,
    c: int,
)
    requires
        rules.wf(),
        rules.syntax_grammar.word_token is Some,
        in_a_pair(rules.unsafe_keyword_pairs@, keyword),
        state.terminal_entries@.contains_key(keyword),
        !state.terminal_entries@.contains_key(rules.syntax_grammar.word_token->0),
        would_be_swallowed(rules, table, state, keyword, follow, c),
        search_ends(
            rules.lexical_grammar,
            search_start(
                rules.lexical_grammar,
                (rules.syntax_grammar.word_token->0).index as int,
                keyword.index as int,
            ),
            Set::empty(),
            10_000,
        ),
    ensures
        rules.extended_in(table, state, rules.syntax_grammar.word_token->0, keyword),
{
    let word = rules.syntax_grammar.word_token->0;
    let forced = rules.forced_chars(word, keyword.index as int);
    law_continuations_are_all_found(rules.lexical_grammar, word.index as int, keyword.index as int, c);
    assert(forced.contains(c));
    assert(rules.starts_within(word, keyword, forced, follow));
}

/// A keyword that is only shifted, with nothing after it whose beginning the word token
/// would swallow, is left to the word token, unless it is unsafe in the state or the
/// precedence of the word token is negative.
pub proof fn law_shifted_keyword_is_left_to_the_word(
    rules: KeywordRules<'_>,
    table: ParseTable,
    state: ParseState,
    keyword: Symbol,
    p: i32,
)
    requires
        rules.wf(),
        rules.syntax_grammar.word_token is Some,
        keyword.kind == SymbolType::Terminal,
        keyword.index < rules.lexical_grammar.variables@.len(),
        rules.keywords@.terminals.contains(keyword.index as int),
        keyword != rules.syntax_grammar.word_token->0,
        !rules.lexical_grammar.variables@[keyword.index as int].is_immediate,
        state.terminal_entries@.contains_key(keyword),
        forall|q: int|
            0 <= q < rules.unsafe_keyword_pairs@.len() && (#[trigger] rules.unsafe_keyword_pairs@[q]).0 == keyword
                ==> !state.terminal_entries@.contains_key(rules.unsafe_keyword_pairs@[q].1),
        forall|a: int|
            0 <= a < actions_on(table, state, keyword).len() ==> (#[trigger] actions_on(
                table,
                state,
                keyword,
            )[a]) is Shift,
        forall|follow: Symbol, c: int|
            follows_by_shift(table, state, keyword, follow) ==> !#[trigger] is_swallowed(rules, keyword, follow, c),
        has_precedence(
            rules.lexical_grammar.nfa.states@,
            (rules.syntax_grammar.word_token->0).index as int,
            p,
        ),
        p >= 0,
    ensures
        !rules.retains(table, state, keyword),
        rules.lexed_tokens(table, state).has(rules.syntax_grammar.word_token->0),
        !rules.lexed_tokens(table, state).has(keyword),
{
    let word = rules.syntax_grammar.word_token->0;
    let states = rules.lexical_grammar.nfa.states@;
    if rules.retains(table, state, keyword) {
        law_retained_for_a_reason(rules, table, state, keyword);
        if is_unsafe_in(rules, state, keyword) {
            let q = choose|q: int| #[trigger] pair_is_valid(rules, state, keyword, q);
            assert(rules.unsafe_keyword_pairs@[q].0 == keyword);
        } else if swallows_in(rules, table, state, keyword) {
            let (follow, c) = choose|follow: Symbol, c: int|
                #[trigger] is_swallowed_after(rules, table, state, keyword, follow, c);
            assert(is_swallowed(rules, keyword, follow, c));
            assert(reduces_before(table, state, keyword));
            let a = choose|a: int|
                0 <= a < actions_on(table, state, keyword).len() && (#[trigger] actions_on(
                    table,
                    state,
                    keyword,
                )[a]) is Reduce;
            assert(actions_on(table, state, keyword)[a] is Shift);
        } else {
            let (a, b) = choose|a: i32, b: i32|
                #[trigger] has_precedence(states, word.index as int, a) && #[trigger] has_precedence(
                    states,
                    keyword.index as int,
                    b,
                ) && a < 0 && b > a;
            law_token_precedence(states, word.index as int, a);
            law_token_precedence(states, word.index as int, p);
        }
    }
    assert(rules.expects(state, keyword));
    law_word_stands_in(rules, table, state, keyword);
}

/// The terminal is valid or reserved in the state.
pub open spec fn is_expected(state: ParseState, t: u32) -> bool {
    ||| state.terminal_entries@.contains_key(Symbol { kind: SymbolType::Terminal, index: t })
    ||| state.reserved_words@.terminals.contains(t as int)
}

/// The terminal is looked for itself where it is expected: it is no keyword, or it is
/// retained, or it must follow the token before it immediately and is valid.
pub open spec fn is_looked_for_itself(rules: KeywordRules<'_>, table: ParseTable, state: ParseState, t: u32) -> bool {
    let symbol = Symbol { kind: SymbolType::Terminal, index: t };
    ||| !rules.keywords@.terminals.contains(t as int)
    ||| rules.retains(table, state, symbol)
    ||| rules.lexical_grammar.variables@[t as int].is_immediate && state.terminal_entries@.contains_key(symbol)
}

/// Some keyword that is expected in the state is left to the word token.
pub open spec fn leaves_some_keyword(rules: KeywordRules<'_>, table: ParseTable, state: ParseState) -> bool {
    exists|k: u32| #[trigger] is_expected(state, k) && !is_looked_for_itself(rules, table, state, k)
}

/// The lexer looks for just the expected terminals that are looked for themselves, for
/// the word token where it stands in for a keyword, and for the end of the input where it
/// is expected.
pub proof fn law_lexed_tokens(rules: KeywordRules<'_>, table: ParseTable, state: ParseState)
    requires
        rules.wf(),
    ensures
        forall|t: u32|
            #[trigger] rules.lexed_tokens(table, state).terminals.contains(t as int) <==> (is_expected(state, t)
                && is_looked_for_itself(rules, table, state, t)) || (rules.syntax_grammar.word_token == Some(
                Symbol { kind: SymbolType::Terminal, index: t },
            ) && leaves_some_keyword(rules, table, state)),
        (rules.syntax_grammar.word_token matches Some(word) ==> word.kind == SymbolType::Terminal) ==> (rules.lexed_tokens(
            table,
            state,
        ).eof <==> state.reserved_words@.eof || exists|s: Symbol|
            #[trigger] state.terminal_entries@.contains_key(s) && s.kind == SymbolType::End) && !rules.lexed_tokens(
            table,
            state,
        ).end_of_nonterminal_extra && (forall|e: int| !rules.lexed_tokens(table, state).externals.contains(e)),
{
    let tokens = rules.lexed_tokens(table, state);
    let p = |s: Symbol| rules.looks_for(table, state, s);
    assert forall|t: u32| #[trigger] tokens.terminals.contains(t as int) <==> (is_expected(state, t) && is_looked_for_itself(
        rules,
        table,
        state,
        t,
    )) || (rules.syntax_grammar.word_token == Some(Symbol { kind: SymbolType::Terminal, index: t }) && leaves_some_keyword(
        rules,
        table,
        state,
    )) by {
        let symbol = Symbol { kind: SymbolType::Terminal, index: t };
        if tokens.terminals.contains(t as int) {
            lemma_in_lexed_tokens(rules, table, state, symbol);
            let source = choose|source: Symbol|
                #[trigger] rules.expects(state, source) && rules.lexed_as(table, state, source) == Some(symbol);
            assert(source.kind == SymbolType::Terminal || source.kind == SymbolType::End);
            if source.kind == SymbolType::Terminal {
                let k = source.index;
                assert(source == Symbol { kind: SymbolType::Terminal, index: k });
                assert(is_expected(state, k));
                if source != symbol {
                    assert(!is_looked_for_itself(rules, table, state, k));
                }
                if !is_looked_for_itself(rules, table, state, k) {
                    assert(leaves_some_keyword(rules, table, state));
                }
            }
        }
        if is_expected(state, t) && is_looked_for_itself(rules, table, state, t) {
            assert(rules.expects(state, symbol));
            assert(rules.lexed_as(table, state, symbol) == Some(symbol));
            lemma_looked_for(rules, table, state, symbol);
        }
        if rules.syntax_grammar.word_token == Some(symbol) && leaves_some_keyword(rules, table, state) {
            let k = choose|k: u32| #[trigger] is_expected(state, k) && !is_looked_for_itself(rules, table, state, k);
            let keyword = Symbol { kind: SymbolType::Terminal, index: k };
            assert(rules.expects(state, keyword));
            assert(rules.lexed_as(table, state, keyword) == Some(symbol));
            assert(rules.looks_for(table, state, symbol));
            lemma_looked_for(rules, table, state, symbol);
        }
    }
    if rules.syntax_grammar.word_token matches Some(word) ==> word.kind == SymbolType::Terminal {
        if tokens.eof {
            let s = choose|s: Symbol| #[trigger] p(s) && s.kind == SymbolType::End;
            let source = choose|source: Symbol|
                #[trigger] rules.expects(state, source) && rules.lexed_as(table, state, source) == Some(s);
            assert(source == s);
        }
        if state.reserved_words@.eof {
            let s = Symbol { kind: SymbolType::End, index: 0 };
            assert(rules.expects(state, s));
            assert(p(s));
        }
        if exists|s: Symbol| #[trigger] state.terminal_entries@.contains_key(s) && s.kind == SymbolType::End {
            let s = choose|s: Symbol| #[trigger] state.terminal_entries@.contains_key(s) && s.kind == SymbolType::End;
            assert(rules.expects(state, s));
            assert(p(s));
        }
    }
}

/// Where the word token would swallow the beginning of a token after the keyword, the
/// lexer looks for the keyword itself, unless the search for such characters runs out of
/// its budget.
pub proof fn law_swallowing_retains_keyword(
    rules: KeywordRules<'_>,
    table: ParseTable,
    state: ParseState,
    keyword: Symbol,
    follow: Symbol,
    c: int,
)
    requires
        rules.wf(),
        rules.syntax_grammar.word_token is Some,
        keyword.kind == SymbolType::Terminal,
        in_a_pair(rules.unsafe_keyword_pairs@, keyword),
        state.terminal_entries@.contains_key(keyword),
        !state.terminal_entries@.contains_key(rules.syntax_grammar.word_token->0),
        would_be_swallowed(rules, table, state, keyword, follow, c),
        search_ends(
            rules.lexical_grammar,
            search_start(
                rules.lexical_grammar,
                (rules.syntax_grammar.word_token->0).index as int,
                keyword.index as int,
            ),
            Set::empty(),
            10_000,
        ),
    ensures
        rules.retains(table, state, keyword),
        rules.lexed_tokens(table, state).has(keyword),
{
    lemma_swallowing_extends(rules, table, state, keyword, follow, c);
    assert(rules.expects(state, keyword));
    law_retained_keyword_is_lexed(rules, table, state, keyword);
}

/// A keyword that is retained for what may follow it is retained for good reason: there
/// is a token after it whose beginning the word token would swallow.
pub proof fn law_retained_for_what_follows(rules: KeywordRules<'_>, table: ParseTable, state: ParseState, keyword: Symbol)
    requires
        rules.wf(),
        rules.syntax_grammar.word_token is Some,
        rules.extended_in(table, state, rules.syntax_grammar.word_token->0, keyword),
    ensures
        exists|follow: Symbol, c: int| would_be_swallowed(rules, table, state, keyword, follow, c),
{
    let word = rules.syntax_grammar.word_token->0;
    let forced = rules.forced_chars(word, keyword.index as int);
    let follow = choose|follow: Symbol|
        #[trigger] rules.starts_within(word, keyword, forced, follow) && (rules.shifted_before(
            table,
            state,
            keyword,
            follow,
        ) || rules.reduced_before(table, state, keyword, follow));
    let c = choose|c: int|
        #![trigger forced.contains(c)]
        is_scalar(c) && holds(rules.token_conflict_map.starting_chars_by_index@[follow.index as int]@, c)
            && forced.contains(c);
    law_continuations_are_real(rules.lexical_grammar, word.index as int, keyword.index as int, c);
    assert(would_be_swallowed(rules, table, state, keyword, follow, c));
}

/// A keyword of an unsafe pair that takes precedence over a word token of negative
/// precedence is looked for itself wherever it is valid.
pub proof fn law_outranking_keyword_is_retained(
    rules: KeywordRules<'_>,
    table: ParseTable,
    state: ParseState,
    keyword: Symbol,
)
    requires
        rules.syntax_grammar.word_token matches Some(word) && last_precedence(
            rules.lexical_grammar.nfa.states@,
            word.index as int,
        ) < 0 && last_precedence(rules.lexical_grammar.nfa.states@, keyword.index as int) > last_precedence(
            rules.lexical_grammar.nfa.states@,
            word.index as int,
        ),
        keyword.kind == SymbolType::Terminal,
        in_a_pair(rules.unsafe_keyword_pairs@, keyword),
        state.terminal_entries@.contains_key(keyword),
    ensures
        rules.retains(table, state, keyword),
        rules.lexed_tokens(table, state).has(keyword),
{
    assert(rules.expects(state, keyword));
    law_retained_keyword_is_lexed(rules, table, state, keyword);
}

/// Where the word token is valid, and its precedence is not negative, every keyword is
/// left to it.
pub proof fn law_valid_word_stands_in(rules: KeywordRules<'_>, table: ParseTable, state: ParseState, keyword: Symbol)
    requires
        rules.syntax_grammar.word_token is Some,
        state.terminal_entries@.contains_key(rules.syntax_grammar.word_token->0),
        last_precedence(
            rules.lexical_grammar.nfa.states@,
            (rules.syntax_grammar.word_token->0).index as int,
        ) >= 0,
    ensures
        !rules.retains(table, state, keyword),
{
}

/// A keyword that is retained, or that must follow the token before it immediately, is
/// looked for itself.
pub proof fn law_retained_keyword_is_lexed(rules: KeywordRules<'_>, table: ParseTable, state: ParseState, keyword: Symbol)
    requires
        keyword.kind == SymbolType::Terminal,
        rules.expects(state, keyword),
        rules.retains(table, state, keyword) || (rules.lexical_grammar.variables@[keyword.index as int].is_immediate
            && state.terminal_entries@.contains_key(keyword)),
    ensures
        rules.lexed_tokens(table, state).has(keyword),
{
    assert(rules.lexed_as(table, state, keyword) == Some(keyword));
    lemma_looked_for(rules, table, state, keyword);
}

/// The word token stands in for every other keyword: the lexer looks for the word token
/// in its place, and not for the keyword.
pub proof fn law_word_stands_in(rules: KeywordRules<'_>, table: ParseTable, state: ParseState, keyword: Symbol)
    requires
        rules.wf(),
        rules.syntax_grammar.word_token is Some,
        keyword.kind == SymbolType::Terminal,
        rules.keywords@.has(keyword),
        rules.expects(state, keyword),
        !rules.retains(table, state, keyword),
        !(rules.lexical_grammar.variables@[keyword.index as int].is_immediate && state.terminal_entries@.contains_key(
            keyword,
        )),
        keyword != rules.syntax_grammar.word_token->0,
    ensures
        rules.lexed_tokens(table, state).has(rules.syntax_grammar.word_token->0),
        !rules.lexed_tokens(table, state).has(keyword),
{
    let word = rules.syntax_grammar.word_token->0;
    assert(rules.lexed_as(table, state, keyword) == Some(word));
    assert(rules.looks_for(table, state, word));
    lemma_looked_for(rules, table, state, word);
    if rules.lexed_tokens(table, state).has(keyword) {
        lemma_in_lexed_tokens(rules, table, state, keyword);
        let token = choose|token: Symbol|
            #[trigger] rules.expects(state, token) && rules.lexed_as(table, state, token) == Some(keyword);
        assert(token == keyword);
    }
}

/// A token that is no keyword is looked for wherever it is valid or reserved.
pub proof fn law_other_tokens_are_lexed(rules: KeywordRules<'_>, table: ParseTable, state: ParseState, token: Symbol)
    requires
        token.kind == SymbolType::Terminal || token.kind == SymbolType::End,
        rules.expects(state, token),
        !rules.keywords@.has(token) || token.kind == SymbolType::End,
    ensures
        rules.lexed_tokens(table, state).has(token),
{
    assert(rules.lexed_as(table, state, token) == Some(token));
    lemma_looked_for(rules, table, state, token);
}

/// Nothing else is looked for: every token is valid or reserved in the parse state, or is
/// the word token and stands in for a keyword that is.
pub proof fn law_nothing_else_is_lexed(rules: KeywordRules<'_>, table: ParseTable, state: ParseState, token: Symbol)
    requires
        token.kind == SymbolType::Terminal,
        rules.lexed_tokens(table, state).has(token),
    ensures
        rules.expects(state, token) || (rules.syntax_grammar.word_token == Some(token) && exists|keyword: Symbol|
            #[trigger] rules.expects(state, keyword) && rules.keywords@.has(keyword)),
{
    lemma_in_lexed_tokens(rules, table, state, token);
    let source = choose|source: Symbol|
        #[trigger] rules.expects(state, source) && rules.lexed_as(table, state, source) == Some(token);
    assert(rules.expects(state, source));
}

/// Only keywords of unsafe pairs are ever retained, and only where they are valid.
pub proof fn law_only_paired_keywords_are_retained(rules: KeywordRules<'_>, table: ParseTable, state: ParseState, keyword: Symbol)
    requires
        rules.retains(table, state, keyword),
    ensures
        in_a_pair(rules.unsafe_keyword_pairs@, keyword),
        state.terminal_entries@.contains_key(keyword),
{
    let word = rules.syntax_grammar.word_token->0;
    if rules.conflicts_in(state, word, keyword) {
        let p = choose|p: int|
            0 <= p < rules.unsafe_keyword_pairs@.len() && rules.pair_conflicts(p, state, word, keyword);
        assert(rules.unsafe_keyword_pairs@[p].0 == keyword);
    }
}

/// Pair `p` is the first that has the keyword.
pub open spec fn is_first_pair(pairs: Seq<(Symbol, Symbol)>, keyword: Symbol, p: int) -> bool {
    &&& 0 <= p < pairs.len()
    &&& pairs[p].0 == keyword
    &&& forall|q: int| 0 <= q < p ==> (#[trigger] pairs[q]).0 != keyword
}

/// The keywords of the pairs are listed once each, in the order of the first pairs that
/// have them; `at` gives those pairs.
pub proof fn law_pair_keywords(pairs: Seq<(Symbol, Symbol)>) -> (at: Seq<int>)
    ensures
        at.len() == pair_keywords(pairs).len(),
        forall|k: int| 0 <= k < at.len() ==> is_first_pair(pairs, pair_keywords(pairs)[k], #[trigger] at[k]),
        forall|j: int, k: int| 0 <= j < k < at.len() ==> #[trigger] at[j] < #[trigger] at[k],
        forall|p: int| 0 <= p < pairs.len() ==> pair_keywords(pairs).contains((#[trigger] pairs[p]).0),
    decreases pairs.len(),
{
    lemma_pair_keywords(pairs);
    assert forall|p: int| 0 <= p < pairs.len() implies pair_keywords(pairs).contains((#[trigger] pairs[p]).0) by {
        assert(in_a_pair(pairs, pairs[p].0));
    }
    if pairs.len() == 0 {
        Seq::empty()
    } else {
        let front = pairs.drop_last();
        let last = pairs.len() - 1;
        let some = law_pair_keywords(front);
        let listed = pair_keywords(front);
        let at = if listed.contains(pairs[last].0) {
            some
        } else {
            some.push(last)
        };
        assert forall|k: int| 0 <= k < at.len() implies is_first_pair(pairs, pair_keywords(pairs)[k], #[trigger] at[k]) by {
            if k < some.len() {
                assert(is_first_pair(front, listed[k], some[k]));
                assert forall|q: int| 0 <= q < at[k] implies (#[trigger] pairs[q]).0 != listed[k] by {
                    assert(front[q].0 != listed[k]);
                }
            } else {
                assert forall|q: int| 0 <= q < last implies (#[trigger] pairs[q]).0 != pairs[last].0 by {
                    assert(listed.contains(front[q].0));
                }
            }
        }
        assert forall|j: int, k: int| 0 <= j < k < at.len() implies #[trigger] at[j] < #[trigger] at[k] by {
            assert(is_first_pair(front, listed[j], some[j]));
            if k < some.len() {
                assert(some[j] < some[k]);
            }
        }
        at
    }
}

} // verus!
