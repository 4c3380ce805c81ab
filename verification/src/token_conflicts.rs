//! Which tokens can be mistaken for each other, and which of two tokens is preferred.

use vstd::prelude::*;

use crate::bits::{lemma_some_bit, lemma_word_ops, row_bit, word_bit};
use crate::character_set::CharacterSet;
use crate::grammars::LexicalGrammar;
use crate::rules::{row_members, terminal_symbol, SymbolType, TokenSet, Tokens};
use crate::transitions::{NfaTransition, Transition};

verus! {

/// The most words that a row with a bit for each token can have.
pub const MAX_ROW_WORDS: usize = 0x400_0000;

/// A table of bits, with a row of `row_words` words for each token, has bit `t` of row
/// `i` set.
pub open spec fn table_bit(bits: Seq<u64>, row_words: nat, i: int, t: int) -> bool {
    0 <= t && t / 64 < row_words && word_bit(bits[i * row_words + t / 64], t % 64)
}

/// How the tokens of a lexical grammar relate to each other.
#[derive(Debug)]
pub struct TokenConflictMap {
    /// The number of words in a row of the tables of bits.
    pub row_words: usize,
    /// For each token, the tokens that it conflicts with or is a prefix of.
    pub conflict_or_prefix_bits: Vec<u64>,
    /// For each token, the tokens that it overlaps with, or that overlap with it.
    pub overlap_either_bits: Vec<u64>,
    /// For each token, the characters that it can start with.
    pub starting_chars_by_index: Vec<CharacterSet>,
    /// For each token, the tokens that can follow it.
    pub following_tokens_by_index: Vec<TokenSet>,
}

/// Which tokens are valid in the same parse state.
#[derive(Debug)]
pub struct CoincidentTokenIndex {
    /// For each token, the tokens that some parse state has together with it.
    pub row_bits: Vec<u64>,
}

impl TokenConflictMap {
    /// The map is about `n` tokens.
    pub open spec fn wf(&self, n: nat) -> bool {
        &&& self.row_words <= MAX_ROW_WORDS
        &&& n * self.row_words <= self.conflict_or_prefix_bits@.len()
        &&& n * self.row_words <= self.overlap_either_bits@.len()
        &&& self.starting_chars_by_index@.len() == n
        &&& self.following_tokens_by_index@.len() == n
        &&& forall|i: int| 0 <= i < n ==> (#[trigger] self.starting_chars_by_index@[i]).wf()
        &&& forall|i: int, t: int|
            0 <= i < n && #[trigger] self.following_tokens_by_index@[i]@.terminals.contains(t) ==> t < n
    }

    /// Token `i` conflicts with token `t`, or is a prefix of it.
    pub open spec fn conflicts(&self, i: int, t: int) -> bool {
        table_bit(self.conflict_or_prefix_bits@, self.row_words as nat, i, t)
    }

    /// Token `i` and token `t` overlap.
    pub open spec fn overlaps(&self, i: int, t: int) -> bool {
        table_bit(self.overlap_either_bits@, self.row_words as nat, i, t)
    }

    /// The characters that each token can start with.
    pub fn starting_chars(&self) -> (r: &Vec<CharacterSet>)
        ensures
            *r == self.starting_chars_by_index,
    {
        &self.starting_chars_by_index
    }

    /// The tokens that can follow the token at `index`.
    pub fn following_tokens(&self, index: usize) -> (r: &TokenSet)
        requires
            index < self.following_tokens_by_index@.len(),
        ensures
            *r == self.following_tokens_by_index@[index as int],
    {
        &self.following_tokens_by_index[index]
    }
}

impl CoincidentTokenIndex {
    /// The index has rows of `row_words` words for `n` tokens.
    pub open spec fn wf(&self, n: nat, row_words: nat) -> bool {
        n * row_words <= self.row_bits@.len()
    }

    /// Token `i` and token `t` are valid in the same parse state.
    pub open spec fn coincident(&self, row_words: nat, i: int, t: int) -> bool {
        table_bit(self.row_bits@, row_words, i, t)
    }
}

/// The tables have rows for token `i`.
pub open spec fn has_rows(m: &TokenConflictMap, index: &CoincidentTokenIndex, i: int) -> bool {
    &&& m.row_words <= MAX_ROW_WORDS
    &&& (i + 1) * m.row_words <= m.conflict_or_prefix_bits@.len()
    &&& (i + 1) * m.row_words <= m.overlap_either_bits@.len()
    &&& (i + 1) * m.row_words <= index.row_bits@.len()
}

/// Tables about `n` tokens have rows for each of them.
pub proof fn lemma_has_rows(m: &TokenConflictMap, index: &CoincidentTokenIndex, n: nat, i: int)
    requires
        m.wf(n),
        index.wf(n, m.row_words as nat),
        0 <= i < n,
    ensures
        has_rows(m, index, i),
{
    assert((i + 1) * m.row_words <= n * m.row_words) by (nonlinear_arith)
        requires
            i + 1 <= n,
    ;
}

/// Token `i` cannot be valid wherever token `t` is: they conflict, or they overlap and
/// are not valid together anyway.
pub open spec fn clash(m: &TokenConflictMap, index: &CoincidentTokenIndex, i: int, t: int) -> bool {
    ||| m.conflicts(i, t)
    ||| m.overlaps(i, t) && !index.coincident(m.row_words as nat, i, t)
}

/// Token `i` clashes with one of the tokens.
pub open spec fn clashes_with_any(m: &TokenConflictMap, index: &CoincidentTokenIndex, i: int, tokens: Tokens) -> bool {
    exists|t: int| #[trigger] tokens.terminals.contains(t) && clash(m, index, i, t)
}

/// No token that is in one set only clashes with a token of the other.
pub open spec fn can_merge(m: &TokenConflictMap, index: &CoincidentTokenIndex, a: Tokens, b: Tokens) -> bool {
    &&& forall|i: int| #[trigger] a.terminals.contains(i) && !b.terminals.contains(i) ==> !clashes_with_any(m, index, i, b)
    &&& forall|i: int| #[trigger] b.terminals.contains(i) && !a.terminals.contains(i) ==> !clashes_with_any(m, index, i, a)
}

/// The words of row `i` lie within the table.
proof fn lemma_row_in_table(i: int, row_words: nat, w: int)
    by (nonlinear_arith)
    requires
        0 <= i,
        0 <= w < row_words,
    ensures
        0 <= i * row_words,
        i * row_words + w < (i + 1) * row_words,
{
}

/// Whether the token at `i` clashes with one of the tokens of a set.
pub fn check_token_conflicts(
    i: usize,
    set_without_terminal: &TokenSet,
    token_conflict_map: &TokenConflictMap,
    coincident_token_index: &CoincidentTokenIndex,
) -> (r: bool)
    requires
        has_rows(token_conflict_map, coincident_token_index, i as int),
    ensures
        r == clashes_with_any(token_conflict_map, coincident_token_index, i as int, set_without_terminal@),
{
    let ghost m = token_conflict_map;
    let row_words = token_conflict_map.row_words;
    if row_words == 0 {
        return false;
    }
    proof {
        lemma_row_in_table(i as int, row_words as nat, 0);
        assert(m.conflict_or_prefix_bits@.len() == m.conflict_or_prefix_bits.len());
    }
    let row_start = i * row_words;
    let set_bits = set_without_terminal.terminal_bits_words();
    let mut w: usize = 0;
    while w < row_words && w < set_bits.len()
        invariant
            *m == *token_conflict_map,
            has_rows(m, coincident_token_index, i as int),
            row_words == m.row_words,
            row_start == i * row_words,
            row_members(set_bits@) == set_without_terminal@.terminals,
            forall|t: int|
                0 <= t < w * 64 && #[trigger] set_without_terminal@.terminals.contains(t) ==> !clash(
                    m,
                    coincident_token_index,
                    i as int,
                    t,
                ),
        decreases row_words - w,
    {
        proof {
            lemma_row_in_table(i as int, row_words as nat, w as int);
            assert(m.conflict_or_prefix_bits@.len() == m.conflict_or_prefix_bits.len());
        }
        let s = set_bits[w];
        let c = token_conflict_map.conflict_or_prefix_bits[row_start + w];
        let o = token_conflict_map.overlap_either_bits[row_start + w];
        let k = coincident_token_index.row_bits[row_start + w];
        if c & s != 0 {
            proof {
                let b = lemma_some_bit(c & s);
                lemma_word_ops(c, s, b);
                let t = w * 64 + b;
                assert(t / 64 == w && t % 64 == b);
                assert(set_without_terminal@.terminals.contains(t));
                assert(m.conflicts(i as int, t));
            }
            return true;
        }
        if o & s & !k != 0 {
            proof {
                let b = lemma_some_bit(o & s & !k);
                lemma_word_ops(o & s, !k, b);
                lemma_word_ops(o, s, b);
                lemma_word_ops(k, k, b);
                let t = w * 64 + b;
                assert(t / 64 == w && t % 64 == b);
                assert(set_without_terminal@.terminals.contains(t));
                assert(m.overlaps(i as int, t) && !coincident_token_index.coincident(row_words as nat, i as int, t));
            }
            return true;
        }
        assert forall|t: int| 0 <= t < (w + 1) * 64 && #[trigger] set_without_terminal@.terminals.contains(t) implies !clash(
            m,
            coincident_token_index,
            i as int,
            t,
        ) by {
            if t >= w * 64 {
                let b = t % 64;
                assert(t / 64 == w);
                assert(row_bit(set_bits@, t));
                lemma_word_ops(c, s, b);
                lemma_word_ops(o, s, b);
                lemma_word_ops(o & s, !k, b);
                lemma_word_ops(k, k, b);
                lemma_word_ops(0, 0, b);
            }
        }
        w = w + 1;
    }
    proof {
        if clashes_with_any(m, coincident_token_index, i as int, set_without_terminal@) {
            let t = choose|t: int|
                #[trigger] set_without_terminal@.terminals.contains(t) && clash(m, coincident_token_index, i as int, t);
            assert(row_bit(set_bits@, t));
            assert(t / 64 < w);
            assert(t < w * 64);
        }
    }
    false
}

/// Whether a token of the one set that is not in the other clashes with a token of the
/// other.
fn any_clash(
    tokens: &TokenSet,
    other: &TokenSet,
    token_conflict_map: &TokenConflictMap,
    coincident_token_index: &CoincidentTokenIndex,
) -> (r: bool)
    requires
        forall|t: int|
            #[trigger] tokens@.terminals.contains(t) && !other@.terminals.contains(t) ==> has_rows(
                token_conflict_map,
                coincident_token_index,
                t,
            ),
    ensures
        r == (exists|t: int|
            #[trigger] tokens@.terminals.contains(t) && !other@.terminals.contains(t) && clashes_with_any(
                token_conflict_map,
                coincident_token_index,
                t,
                other@,
            )),
{
    let terminals = tokens.terminals();
    let mut k: usize = 0;
    while k < terminals.len()
        invariant
            k <= terminals@.len(),
            forall|t: int|
                #[trigger] tokens@.terminals.contains(t) && !other@.terminals.contains(t) ==> has_rows(
                    token_conflict_map,
                    coincident_token_index,
                    t,
                ),
            forall|j: int|
                0 <= j < terminals@.len() ==> (#[trigger] terminals@[j]).kind == SymbolType::Terminal
                    && tokens@.terminals.contains(terminals@[j].index as int),
            forall|j: int|
                0 <= j < k ==> other@.terminals.contains((#[trigger] terminals@[j]).index as int) || !clashes_with_any(
                    token_conflict_map,
                    coincident_token_index,
                    terminals@[j].index as int,
                    other@,
                ),
        decreases terminals.len() - k,
    {
        let index = terminals[k].index as usize;
        assert(tokens@.terminals.contains(terminals@[k as int].index as int));
        if !other.contains_terminal(index) {
            if check_token_conflicts(index, other, token_conflict_map, coincident_token_index) {
                return true;
            }
        }
        k = k + 1;
    }
    proof {
        if exists|t: int|
            #[trigger] tokens@.terminals.contains(t) && !other@.terminals.contains(t) && clashes_with_any(
                token_conflict_map,
                coincident_token_index,
                t,
                other@,
            ) {
            let t = choose|t: int|
                #[trigger] tokens@.terminals.contains(t) && !other@.terminals.contains(t) && clashes_with_any(
                    token_conflict_map,
                    coincident_token_index,
                    t,
                    other@,
                );
            tokens.lemma_terminals_fit(t);
            let i = t as u32;
            assert(tokens@.terminals.contains(i as int));
            let j = choose|j: int| 0 <= j < terminals@.len() && terminals@[j] == terminal_symbol(i as int);
            assert(terminals@[j].index == t);
        }
    }
    false
}

/// Adds the tokens of another set to a set, unless some of them clash, and says whether
/// it did.
pub fn merge_token_set(
    tokens: &mut TokenSet,
    other: &TokenSet,
    token_conflict_map: &TokenConflictMap,
    coincident_token_index: &CoincidentTokenIndex,
) -> (merged: bool)
    requires
        forall|t: int|
            #[trigger] old(tokens)@.terminals.contains(t) && !other@.terminals.contains(t) ==> has_rows(
                token_conflict_map,
                coincident_token_index,
                t,
            ),
        forall|t: int|
            #[trigger] other@.terminals.contains(t) && !old(tokens)@.terminals.contains(t) ==> has_rows(
                token_conflict_map,
                coincident_token_index,
                t,
            ),
    ensures
        merged == can_merge(token_conflict_map, coincident_token_index, old(tokens)@, other@),
        final(tokens)@ == (if merged {
            old(tokens)@.union(other@)
        } else {
            old(tokens)@
        }),
{
    if any_clash(tokens, other, token_conflict_map, coincident_token_index) {
        return false;
    }
    if any_clash(other, tokens, token_conflict_map, coincident_token_index) {
        return false;
    }
    tokens.insert_all(other);
    true
}

/// Of two recognized tokens, given by precedence and number, the first is preferred: by
/// its precedence, then by its implicit precedence, then by its number.
pub open spec fn prefers_token(g: &LexicalGrammar, left: (i32, usize), right: (i32, usize)) -> bool {
    let l = g.variables@[left.1 as int].implicit_precedence;
    let r = g.variables@[right.1 as int].implicit_precedence;
    ||| left.0 > right.0
    ||| left.0 == right.0 && l > r
    ||| left.0 == right.0 && l == r && left.1 < right.1
}

/// Reading on by a transition is preferred to the recognized token: the transition has
/// the higher precedence, or the same precedence and, not being a separator, it either
/// goes on with that token or cannot be confused with a separator.
pub open spec fn prefers_transition(
    g: &LexicalGrammar,
    t: Transition,
    completed_id: int,
    completed_precedence: i32,
    has_separator_transitions: bool,
) -> bool {
    ||| t.precedence > completed_precedence
    ||| {
        &&& t.precedence == completed_precedence
        &&& !t.is_separator
        &&& !has_separator_transitions || exists|k: int|
            0 <= k < t.states.len() && g.state_is_of_variable(#[trigger] t.states[k], completed_id)
    }
}

impl TokenConflictMap {
    /// Whether the first of two recognized tokens is preferred.
    pub fn prefer_token(grammar: &LexicalGrammar, left: (i32, usize), right: (i32, usize)) -> (r: bool)
        requires
            left.1 < grammar.variables@.len(),
            right.1 < grammar.variables@.len(),
        ensures
            r == prefers_token(grammar, left, right),
    {
        if left.0 != right.0 {
            return left.0 > right.0;
        }
        let l = grammar.variables[left.1].implicit_precedence;
        let r = grammar.variables[right.1].implicit_precedence;
        if l != r {
            return l > r;
        }
        left.1 < right.1
    }

    /// Whether reading on by a transition is preferred to a recognized token.
    pub fn prefer_transition(
        grammar: &LexicalGrammar,
        t: &NfaTransition,
        completed_id: usize,
        completed_precedence: i32,
        has_separator_transitions: bool,
    ) -> (r: bool)
        ensures
            r == prefers_transition(
                grammar,
                t@,
                completed_id as int,
                completed_precedence,
                has_separator_transitions,
            ),
    {
        assert(t@.states == t.states@);
        if t.precedence < completed_precedence {
            return false;
        }
        if t.precedence == completed_precedence {
            if t.is_separator {
                return false;
            }
            if has_separator_transitions && !grammar.any_state_of_variable(&t.states, completed_id) {
                return false;
            }
        }
        true
    }
}

} // verus!
