//! Which tokens the lexer looks for in a parse state.
//!
//! Where a keyword is valid, the lexer normally looks for the word token in its place,
//! and the keyword is recognized from the word afterwards. In some parse states that
//! would change what is recognized; there, the keyword itself is retained.

use vstd::prelude::*;

use crate::character_set::{code_points, holds, is_scalar, ranges_wf, CharacterSet};
use crate::continuation::{continuation_chars, word_continuation_chars};
use crate::grammars::{LexicalGrammar, SyntaxGrammar};
use crate::hashing::{
    character_sets_in, get_character_set, insert_character_set, insert_number_pair, new_character_set_map,
    new_number_pair_set, number_pairs_in, CharacterSetMap,
};
use crate::nfa::NfaState;
use crate::rules::{end_symbol, kind_rank, symbols_contain, terminal_symbol, Symbol, SymbolType, TokenSet, Tokens};
use crate::tables::{ParseAction, ParseState, ParseTable};
use crate::token_conflicts::TokenConflictMap;

verus! {

/// The precedence with which the automaton recognizes a token: that of the last of the
/// states that recognize it, or zero.
pub open spec fn last_precedence(states: Seq<NfaState>, token: int) -> i32
    decreases states.len(),
{
    if states.len() == 0 {
        0
    } else {
        match states.last() {
            NfaState::Accept { variable_index, precedence } if variable_index == token => precedence,
            _ => last_precedence(states.drop_last(), token),
        }
    }
}

/// The precedence of each token of the grammar.
pub fn token_precedences(grammar: &LexicalGrammar) -> (r: Vec<i32>)
    requires
        grammar.wf(),
    ensures
        r@.len() == grammar.variables@.len(),
        forall|v: int| 0 <= v < r@.len() ==> #[trigger] r@[v] == last_precedence(grammar.nfa.states@, v),
{
    let mut r: Vec<i32> = Vec::new();
    let mut v: usize = 0;
    while v < grammar.variables.len()
        invariant
            v <= grammar.variables@.len(),
            r@.len() == v,
            forall|k: int| 0 <= k < r@.len() ==> r@[k] == 0,
        decreases grammar.variables.len() - v,
    {
        r.push(0);
        v = v + 1;
    }
    let ghost states = grammar.nfa.states@;
    let mut i: usize = 0;
    assert(states.take(0).len() == 0);
    while i < grammar.nfa.states.len()
        invariant
            grammar.wf(),
            states == grammar.nfa.states@,
            i <= states.len(),
            r@.len() == grammar.variables@.len(),
            forall|k: int| 0 <= k < r@.len() ==> #[trigger] r@[k] == last_precedence(states.take(i as int), k),
        decreases grammar.nfa.states.len() - i,
    {
        proof {
            assert(states.take(i + 1).drop_last() =~= states.take(i as int));
            assert(states.take(i + 1).last() == states[i as int]);
            assert(grammar.recognizes_a_variable(states[i as int]));
        }
        match &grammar.nfa.states[i] {
            NfaState::Accept { variable_index, precedence } => {
                r.set(*variable_index, *precedence);
            },
            _ => {},
        }
        i = i + 1;
    }
    assert(states.take(i as int) =~= states);
    r
}

/// The keywords of the pairs, each once, in the order in which they come up first.
pub open spec fn pair_keywords(pairs: Seq<(Symbol, Symbol)>) -> Seq<Symbol>
    decreases pairs.len(),
{
    if pairs.len() == 0 {
        Seq::empty()
    } else {
        let front = pair_keywords(pairs.drop_last());
        if front.contains(pairs.last().0) {
            front
        } else {
            front.push(pairs.last().0)
        }
    }
}

/// Some pair has the keyword.
pub open spec fn in_a_pair(pairs: Seq<(Symbol, Symbol)>, keyword: Symbol) -> bool {
    exists|p: int| 0 <= p < pairs.len() && (#[trigger] pairs[p]).0 == keyword
}

/// The keywords are those of the pairs.
pub proof fn lemma_pair_keywords(pairs: Seq<(Symbol, Symbol)>)
    ensures
        pair_keywords(pairs).no_duplicates(),
        forall|s: Symbol| #[trigger] pair_keywords(pairs).contains(s) <==> in_a_pair(pairs, s),
    decreases pairs.len(),
{
    if pairs.len() > 0 {
        let front = pairs.drop_last();
        let last = pairs.last().0;
        lemma_pair_keywords(front);
        let some = pair_keywords(front);
        let all = pair_keywords(pairs);
        assert forall|s: Symbol| #[trigger] all.contains(s) <==> in_a_pair(pairs, s) by {
            assert(some.contains(s) <==> in_a_pair(front, s));
            if in_a_pair(front, s) {
                let p = choose|p: int| 0 <= p < front.len() && (#[trigger] front[p]).0 == s;
                assert(pairs[p].0 == s);
            }
            if in_a_pair(pairs, s) {
                let p = choose|p: int| 0 <= p < pairs.len() && (#[trigger] pairs[p]).0 == s;
                if p < front.len() {
                    assert(front[p].0 == s);
                }
            }
            assert(pairs[pairs.len() - 1].0 == last);
            if some.contains(s) {
                let k = choose|k: int| 0 <= k < some.len() && some[k] == s;
                assert(all[k] == s);
            }
            if !some.contains(last) {
                assert(all[some.len() as int] == last);
            }
            if all.contains(s) && !some.contains(s) {
                let k = choose|k: int| 0 <= k < all.len() && all[k] == s;
                if k < some.len() {
                    assert(some[k] == s);
                }
            }
        }
    }
}

/// The kind and the number of a symbol.
spec fn symbol_number(s: Symbol) -> (u32, u32) {
    (kind_rank(s.kind), s.index)
}

/// The keywords of the pairs, each once.
pub fn deferred_keywords(pairs: &[(Symbol, Symbol)]) -> (r: Vec<Symbol>)
    ensures
        r@ == pair_keywords(pairs@),
{
    let mut seen = new_number_pair_set();
    let mut r: Vec<Symbol> = Vec::new();
    let mut i: usize = 0;
    assert(pairs@.take(0).len() == 0);
    while i < pairs.len()
        invariant
            i <= pairs@.len(),
            r@ == pair_keywords(pairs@.take(i as int)),
            forall|s: Symbol| number_pairs_in(seen).contains(#[trigger] symbol_number(s)) <==> r@.contains(s),
        decreases pairs.len() - i,
    {
        let keyword = pairs[i].0;
        let ghost before = r@;
        let ghost old_seen = number_pairs_in(seen);
        proof {
            assert(pairs@.take(i + 1).drop_last() =~= pairs@.take(i as int));
            assert(pairs@.take(i + 1).last() == pairs@[i as int]);
            assert(old_seen.contains(symbol_number(keyword)) <==> before.contains(keyword));
        }
        if insert_number_pair(&mut seen, (keyword.kind.rank(), keyword.index)) {
            r.push(keyword);
            assert(r@[before.len() as int] == keyword);
        }
        assert forall|s: Symbol| number_pairs_in(seen).contains(#[trigger] symbol_number(s)) <==> r@.contains(s) by {
            assert(old_seen.contains(symbol_number(s)) <==> before.contains(s));
            if symbol_number(s) == symbol_number(keyword) {
                assert(s == keyword);
            }
            if before.contains(s) {
                let k = choose|k: int| 0 <= k < before.len() && before[k] == s;
                assert(r@[k] == s);
            }
            if r@.contains(s) && !before.contains(s) {
                let k = choose|k: int| 0 <= k < r@.len() && r@[k] == s;
                if k < before.len() {
                    assert(before[k] == s);
                }
            }
        }
        i = i + 1;
    }
    assert(pairs@.take(i as int) =~= pairs@);
    r
}

/// What decides how keywords are treated.
#[derive(Debug)]
pub struct KeywordRules<'a> {
    pub syntax_grammar: &'a SyntaxGrammar,
    pub lexical_grammar: &'a LexicalGrammar,
    pub keywords: &'a TokenSet,
    pub token_conflict_map: &'a TokenConflictMap,
    /// Keywords, each with a token that the word token cannot stand in for it beside.
    pub unsafe_keyword_pairs: &'a [(Symbol, Symbol)],
}

/// The set of the symbols that satisfy a condition.
pub open spec fn collected(p: spec_fn(Symbol) -> bool) -> Tokens {
    Tokens {
        terminals: Set::new(|t: int| exists|s: Symbol| #[trigger] p(s) && s.kind == SymbolType::Terminal && s.index == t),
        externals: Set::new(|t: int| exists|s: Symbol| #[trigger] p(s) && s.kind == SymbolType::External && s.index == t),
        eof: exists|s: Symbol| #[trigger] p(s) && s.kind == SymbolType::End,
        end_of_nonterminal_extra: exists|s: Symbol| #[trigger] p(s) && s.kind == SymbolType::EndOfNonTerminalExtra,
    }
}

impl<'a> KeywordRules<'a> {
    /// The parts refer to each other properly.
    pub open spec fn wf(&self) -> bool {
        &&& self.lexical_grammar.wf()
        &&& self.token_conflict_map.wf(self.lexical_grammar.variables@.len())
        &&& self.syntax_grammar.word_token matches Some(word) ==> word.index < self.lexical_grammar.variables@.len()
            && word.kind != SymbolType::NonTerminal
    }

    /// The parse table, and the pairs as far as it has their keywords, go by the tokens
    /// of the grammar.
    pub open spec fn covers(&self, table: ParseTable) -> bool {
        &&& table.wf(self.lexical_grammar.variables@.len())
        &&& forall|i: int, p: int|
            0 <= i < table.states@.len() && 0 <= p < self.unsafe_keyword_pairs@.len()
                && (#[trigger] table.states@[i]).terminal_entries@.contains_key((#[trigger] self.unsafe_keyword_pairs@[p]).0)
                ==> self.unsafe_keyword_pairs@[p].0.index < self.lexical_grammar.variables@.len()
    }

    /// The keyword is valid in the state together with a token that the word token could
    /// be mistaken for, and the word token is not.
    pub open spec fn conflicts_in(&self, state: ParseState, word: Symbol, keyword: Symbol) -> bool {
        exists|p: int| 0 <= p < self.unsafe_keyword_pairs@.len() && self.pair_conflicts(p, state, word, keyword)
    }

    /// Pair `p` is a reason not to leave the keyword to the word token in the state.
    pub open spec fn pair_conflicts(&self, p: int, state: ParseState, word: Symbol, keyword: Symbol) -> bool {
        &&& self.unsafe_keyword_pairs@[p].0 == keyword
        &&& state.terminal_entries@.contains_key(keyword)
        &&& state.terminal_entries@.contains_key(self.unsafe_keyword_pairs@[p].1)
        &&& !state.terminal_entries@.contains_key(word)
    }

    /// The characters with which the word token goes on after the keyword at `index`,
    /// but with which no word starts.
    pub open spec fn forced_chars(&self, word: Symbol, index: int) -> Set<int> {
        continuation_chars(self.lexical_grammar, word.index as int, index).difference(
            code_points(self.token_conflict_map.starting_chars_by_index@[word.index as int]@),
        )
    }

    /// A token that is neither a word nor a keyword nor an extra, and that can start with
    /// one of the characters.
    pub open spec fn starts_within(&self, word: Symbol, keyword: Symbol, chars: Set<int>, follow: Symbol) -> bool {
        &&& follow.kind == SymbolType::Terminal
        &&& follow != word
        &&& follow != keyword
        &&& !self.keywords@.has(follow)
        &&& !self.syntax_grammar.extra_symbols@.contains(follow)
        &&& exists|c: int|
            #![trigger chars.contains(c)]
            is_scalar(c) && holds(self.token_conflict_map.starting_chars_by_index@[follow.index as int]@, c)
                && chars.contains(c)
    }

    /// The parser may shift the token `keyword` in the state and meet `follow` next.
    pub open spec fn shifted_before(&self, table: ParseTable, state: ParseState, keyword: Symbol, follow: Symbol) -> bool {
        let actions = table.action_lists@[state.terminal_entries@[keyword] as int]@;
        exists|a: int|
            0 <= a < actions.len() && shifts_before(table, #[trigger] actions[a], follow)
    }

    /// The parser may reduce before the token `keyword`, which `follow` can come after.
    pub open spec fn reduced_before(&self, table: ParseTable, state: ParseState, keyword: Symbol, follow: Symbol) -> bool {
        let actions = table.action_lists@[state.terminal_entries@[keyword] as int]@;
        &&& exists|a: int| 0 <= a < actions.len() && (#[trigger] actions[a]) is Reduce
        &&& self.token_conflict_map.following_tokens_by_index@[keyword.index as int]@.has(follow)
    }

    /// The keyword is valid in the state, the word token is not, and a token that can
    /// follow the keyword starts with a character that would be taken for a part of the
    /// word.
    pub open spec fn extended_in(&self, table: ParseTable, state: ParseState, word: Symbol, keyword: Symbol) -> bool {
        &&& in_a_pair(self.unsafe_keyword_pairs@, keyword)
        &&& state.terminal_entries@.contains_key(keyword)
        &&& !state.terminal_entries@.contains_key(word)
        &&& exists|follow: Symbol|
            #[trigger] self.starts_within(word, keyword, self.forced_chars(word, keyword.index as int), follow) && (
            self.shifted_before(table, state, keyword, follow) || self.reduced_before(table, state, keyword, follow))
    }

    /// The keyword is valid in the state and takes precedence over the word token, whose
    /// precedence is negative.
    pub open spec fn outranks_in(&self, state: ParseState, word: Symbol, keyword: Symbol) -> bool {
        let states = self.lexical_grammar.nfa.states@;
        &&& in_a_pair(self.unsafe_keyword_pairs@, keyword)
        &&& state.terminal_entries@.contains_key(keyword)
        &&& last_precedence(states, word.index as int) < 0
        &&& last_precedence(states, keyword.index as int) > last_precedence(states, word.index as int)
    }

    /// The lexer looks for the keyword itself in the state, not for the word token.
    pub open spec fn retains(&self, table: ParseTable, state: ParseState, keyword: Symbol) -> bool {
        self.syntax_grammar.word_token matches Some(word) && (self.conflicts_in(state, word, keyword) || self.extended_in(
            table,
            state,
            word,
            keyword,
        ) || self.outranks_in(state, word, keyword))
    }

    /// What the lexer looks for in the state where the parser expects the token.
    pub open spec fn lexed_as(&self, table: ParseTable, state: ParseState, token: Symbol) -> Option<Symbol> {
        match token.kind {
            SymbolType::Terminal => {
                let immediate = self.lexical_grammar.variables@[token.index as int].is_immediate
                    && state.terminal_entries@.contains_key(token);
                if self.keywords@.has(token) && !self.retains(table, state, token) && !immediate {
                    self.syntax_grammar.word_token
                } else {
                    Some(token)
                }
            },
            SymbolType::End => Some(token),
            _ => None,
        }
    }

    /// The token is valid in the state, or reserved there.
    pub open spec fn expects(&self, state: ParseState, token: Symbol) -> bool {
        state.terminal_entries@.contains_key(token) || state.reserved_words@.has(token)
    }

    /// The lexer looks for the symbol in the state.
    pub open spec fn looks_for(&self, table: ParseTable, state: ParseState, symbol: Symbol) -> bool {
        exists|token: Symbol| #[trigger] self.expects(state, token) && self.lexed_as(table, state, token) == Some(symbol)
    }

    /// The tokens that the lexer looks for in the state.
    pub open spec fn lexed_tokens(&self, table: ParseTable, state: ParseState) -> Tokens {
        collected(|symbol: Symbol| self.looks_for(table, state, symbol))
    }
}

/// The action shifts, to a state in which `follow` is valid.
pub open spec fn shifts_before(table: ParseTable, action: ParseAction, follow: Symbol) -> bool {
    action matches ParseAction::Shift { state, .. } && table.states@[state as int].terminal_entries@.contains_key(follow)
}


/// The sets in the map are the forced characters of the keywords that they are kept
/// under.
spec fn are_forced(rules: &KeywordRules<'_>, word: Symbol, m: CharacterSetMap) -> bool {
    forall|k: usize|
        #[trigger] character_sets_in(m).contains_key(k) ==> ranges_wf(character_sets_in(m)[k]) && code_points(
            character_sets_in(m)[k],
        ) == rules.forced_chars(word, k as int)
}

/// Adds a symbol to the end of a list unless the list has it.
fn push_new(list: &mut Vec<Symbol>, symbol: Symbol)
    ensures
        forall|s: Symbol| #[trigger] final(list)@.contains(s) <==> old(list)@.contains(s) || s == symbol,
{
    if !symbols_contain(list, symbol) {
        let ghost before = list@;
        list.push(symbol);
        proof {
            assert(list@[before.len() as int] == symbol);
            assert forall|s: Symbol| before.contains(s) implies list@.contains(s) by {
                let k = choose|k: int| 0 <= k < before.len() && before[k] == s;
                assert(list@[k] == s);
            }
        }
    }
}

impl<'a> KeywordRules<'a> {
    /// The forced characters of the keyword at `index`, from the cache if it has them.
    fn forced(&self, word: Symbol, index: usize, cache: &mut CharacterSetMap) -> (r: CharacterSet)
        requires
            self.wf(),
            self.syntax_grammar.word_token == Some(word),
            index < self.lexical_grammar.variables@.len(),
            are_forced(self, word, *old(cache)),
        ensures
            r.wf(),
            code_points(r@) == self.forced_chars(word, index as int),
            are_forced(self, word, *final(cache)),
    {
        match get_character_set(cache, index) {
            Some(set) => {
                return set.clone();
            },
            None => {},
        }
        let mut forced = word_continuation_chars(self.lexical_grammar, word.index as usize, index);
        assert(self.token_conflict_map.starting_chars_by_index@[word.index as int].wf());
        let mut word_starts = self.token_conflict_map.starting_chars()[word.index as usize].clone();
        forced.remove_intersection(&mut word_starts);
        assert(code_points(forced@) =~= self.forced_chars(word, index as int));
        insert_character_set(cache, index, forced.clone());
        forced
    }

    /// Whether the token is neither a word nor a keyword nor an extra, and can start with
    /// one of the characters.
    fn starts_with_one_of(&self, word: Symbol, keyword: Symbol, chars: &CharacterSet, follow: Symbol) -> (r: bool)
        requires
            self.wf(),
            chars.wf(),
            follow.kind == SymbolType::Terminal ==> follow.index < self.lexical_grammar.variables@.len(),
        ensures
            r == self.starts_within(word, keyword, code_points(chars@), follow),
    {
        if !follow.is_terminal() || follow == word || follow == keyword || self.keywords.contains(follow)
            || symbols_contain(&self.syntax_grammar.extra_symbols, follow) {
            return false;
        }
        let starts = &self.token_conflict_map.starting_chars()[follow.index as usize];
        assert(self.token_conflict_map.starting_chars_by_index@[follow.index as int].wf());
        let r = starts.shares_char(chars);
        proof {
            if r {
                let c = choose|c: int| is_scalar(c) && holds(starts@, c) && holds(chars@, c);
                assert(code_points(chars@).contains(c));
            }
        }
        r
    }

    /// Whether one of the tokens is neither a word nor a keyword nor an extra, and can
    /// start with one of the characters.
    fn any_starts_with_one_of(&self, word: Symbol, keyword: Symbol, chars: &CharacterSet, follows: &Vec<Symbol>) -> (r: bool)
        requires
            self.wf(),
            chars.wf(),
            forall|s: Symbol|
                #[trigger] follows@.contains(s) && s.kind == SymbolType::Terminal ==> s.index
                    < self.lexical_grammar.variables@.len(),
        ensures
            r == (exists|s: Symbol|
                #[trigger] self.starts_within(word, keyword, code_points(chars@), s) && follows@.contains(s)),
    {
        let mut k: usize = 0;
        while k < follows.len()
            invariant
                k <= follows@.len(),
                self.wf(),
                chars.wf(),
                forall|s: Symbol|
                    #[trigger] follows@.contains(s) && s.kind == SymbolType::Terminal ==> s.index
                        < self.lexical_grammar.variables@.len(),
                forall|j: int|
                    0 <= j < k ==> !self.starts_within(word, keyword, code_points(chars@), #[trigger] follows@[j]),
            decreases follows.len() - k,
        {
            let follow = follows[k];
            assert(follows@.contains(follow));
            if self.starts_with_one_of(word, keyword, chars, follow) {
                return true;
            }
            k = k + 1;
        }
        false
    }

    /// Whether a token that can follow the keyword starts with one of the characters.
    fn is_extended(&self, table: &ParseTable, state: &ParseState, word: Symbol, keyword: Symbol, chars: &CharacterSet) -> (r: bool)
        requires
            self.wf(),
            chars.wf(),
            table.wf(self.lexical_grammar.variables@.len()),
            table.state_wf(*state, self.lexical_grammar.variables@.len()),
            state.terminal_entries@.contains_key(keyword),
            keyword.index < self.lexical_grammar.variables@.len(),
        ensures
            r == (exists|follow: Symbol|
                #[trigger] self.starts_within(word, keyword, code_points(chars@), follow) && (self.shifted_before(
                    *table,
                    *state,
                    keyword,
                    follow,
                ) || self.reduced_before(*table, *state, keyword, follow))),
    {
        let ghost n = self.lexical_grammar.variables@.len();
        let entry = match state.terminal_entries.get(keyword) {
            Some(entry) => entry,
            None => {
                return false;
            },
        };
        let actions = &table.action_lists[entry];
        let mut any_reduce = false;
        let mut a: usize = 0;
        while a < actions.len()
            invariant
                a <= actions@.len(),
                self.wf(),
                chars.wf(),
                n == self.lexical_grammar.variables@.len(),
                table.wf(n),
                state.terminal_entries@.contains_key(keyword),
                entry == state.terminal_entries@[keyword],
                entry < table.action_lists@.len(),
                *actions == table.action_lists@[entry as int],
                any_reduce == exists|b: int| 0 <= b < a && (#[trigger] actions@[b]) is Reduce,
                forall|b: int, s: Symbol|
                    0 <= b < a && #[trigger] shifts_before(*table, actions@[b], s) ==> !self.starts_within(
                        word,
                        keyword,
                        code_points(chars@),
                        s,
                    ),
            decreases actions.len() - a,
        {
            assert(table.action_wf(table.action_lists@[entry as int]@[a as int]));
            match &actions[a] {
                ParseAction::Shift { state: after, .. } => {
                    let next = &table.states[*after as usize];
                    assert(table.state_wf(table.states@[*after as int], n));
                    let follows = next.terminal_entries.keys();
                    if self.any_starts_with_one_of(word, keyword, chars, &follows) {
                        proof {
                            let s = choose|s: Symbol|
                                #[trigger] self.starts_within(word, keyword, code_points(chars@), s) && follows@.contains(s);
                            assert(shifts_before(*table, actions@[a as int], s));
                            assert(self.shifted_before(*table, *state, keyword, s));
                        }
                        return true;
                    }
                    assert forall|s: Symbol| shifts_before(*table, actions@[a as int], s) implies !self.starts_within(
                        word,
                        keyword,
                        code_points(chars@),
                        s,
                    ) by {
                        assert(follows@.contains(s));
                    }
                },
                ParseAction::Reduce { .. } => {
                    assert(actions@[a as int] is Reduce);
                    any_reduce = true;
                },
                _ => {},
            }
            a = a + 1;
        }
        if any_reduce {
            let following = self.token_conflict_map.following_tokens(keyword.index as usize);
            let follows = following.iter();
            assert forall|s: Symbol| #[trigger] follows@.contains(s) && s.kind == SymbolType::Terminal implies s.index < n by {
                assert(following@.has(s));
                assert(self.token_conflict_map.following_tokens_by_index@[keyword.index as int]@.terminals.contains(
                    s.index as int,
                ));
            }
            let r = self.any_starts_with_one_of(word, keyword, chars, &follows);
            proof {
                assert forall|s: Symbol| #[trigger] self.starts_within(word, keyword, code_points(chars@), s)
                    && following@.has(s) implies follows@.contains(s) by {
                    assert(following@.terminals.contains(s.index as int));
                    assert(s == terminal_symbol(s.index as int));
                }
                if r {
                    let s = choose|s: Symbol|
                        #[trigger] self.starts_within(word, keyword, code_points(chars@), s) && follows@.contains(s);
                    assert(following@.has(s));
                    assert(self.reduced_before(*table, *state, keyword, s));
                }
            }
            return r;
        }
        false
    }

    /// The keywords that the lexer looks for in the state where they are valid, instead
    /// of the word token.
    fn retained(
        &self,
        table: &ParseTable,
        state: &ParseState,
        deferred: &Vec<Symbol>,
        precedences: &Vec<i32>,
        cache: &mut CharacterSetMap,
    ) -> (r: Vec<Symbol>)
        requires
            self.wf(),
            table.wf(self.lexical_grammar.variables@.len()),
            table.state_wf(*state, self.lexical_grammar.variables@.len()),
            forall|p: int|
                0 <= p < self.unsafe_keyword_pairs@.len() && state.terminal_entries@.contains_key(
                    (#[trigger] self.unsafe_keyword_pairs@[p]).0,
                ) ==> self.unsafe_keyword_pairs@[p].0.index < self.lexical_grammar.variables@.len(),
            deferred@ == pair_keywords(self.unsafe_keyword_pairs@),
            precedences@.len() == self.lexical_grammar.variables@.len(),
            forall|v: int|
                0 <= v < precedences@.len() ==> #[trigger] precedences@[v] == last_precedence(
                    self.lexical_grammar.nfa.states@,
                    v,
                ),
            self.syntax_grammar.word_token matches Some(word) ==> are_forced(self, word, *old(cache)),
        ensures
            forall|s: Symbol| #[trigger] r@.contains(s) <==> self.retains(*table, *state, s),
            self.syntax_grammar.word_token matches Some(word) ==> are_forced(self, word, *final(cache)),
    {
        let ghost n = self.lexical_grammar.variables@.len();
        let ghost pairs = self.unsafe_keyword_pairs@;
        let mut retained: Vec<Symbol> = Vec::new();
        let word = match self.syntax_grammar.word_token {
            Some(word) => word,
            None => {
                return retained;
            },
        };
        let mut p: usize = 0;
        while p < self.unsafe_keyword_pairs.len()
            invariant
                p <= pairs.len(),
                pairs == self.unsafe_keyword_pairs@,
                forall|s: Symbol|
                    #[trigger] retained@.contains(s) <==> exists|q: int| 0 <= q < p && self.pair_conflicts(q, *state, word, s),
            decreases self.unsafe_keyword_pairs.len() - p,
        {
            let (keyword, other) = self.unsafe_keyword_pairs[p];
            let ghost before = retained@;
            if state.terminal_entries.contains_key(keyword) && state.terminal_entries.contains_key(other)
                && !state.terminal_entries.contains_key(word) {
                push_new(&mut retained, keyword);
                assert(self.pair_conflicts(p as int, *state, word, keyword));
            }
            assert forall|s: Symbol| #[trigger] retained@.contains(s) <==> exists|q: int|
                0 <= q < p + 1 && self.pair_conflicts(q, *state, word, s) by {
                assert(before.contains(s) <==> exists|q: int| 0 <= q < p && self.pair_conflicts(q, *state, word, s));
                if exists|q: int| 0 <= q < p + 1 && self.pair_conflicts(q, *state, word, s) {
                    let q = choose|q: int| 0 <= q < p + 1 && self.pair_conflicts(q, *state, word, s);
                    if q == p {
                        assert(s == keyword);
                    }
                }
            }
            p = p + 1;
        }
        proof {
            lemma_pair_keywords(pairs);
        }
        let mut d: usize = 0;
        while d < deferred.len()
            invariant
                d <= deferred@.len(),
                self.wf(),
                n == self.lexical_grammar.variables@.len(),
                table.wf(n),
                table.state_wf(*state, n),
                pairs == self.unsafe_keyword_pairs@,
                forall|p: int|
                    0 <= p < pairs.len() && state.terminal_entries@.contains_key((#[trigger] pairs[p]).0)
                        ==> pairs[p].0.index < n,
                deferred@ == pair_keywords(pairs),
                forall|s: Symbol| #[trigger] pair_keywords(pairs).contains(s) <==> in_a_pair(pairs, s),
                self.syntax_grammar.word_token == Some(word),
                are_forced(self, word, *cache),
                forall|s: Symbol|
                    #[trigger] retained@.contains(s) <==> self.conflicts_in(*state, word, s) || (deferred@.take(
                        d as int,
                    ).contains(s) && self.extended_in(*table, *state, word, s)),
            decreases deferred.len() - d,
        {
            let keyword = deferred[d];
            let ghost before = retained@;
            proof {
                assert(deferred@.contains(keyword));
                assert(in_a_pair(pairs, keyword));
                let p = choose|p: int| 0 <= p < pairs.len() && (#[trigger] pairs[p]).0 == keyword;
                assert(state.terminal_entries@.contains_key(pairs[p].0) ==> pairs[p].0.index < n);
            }
            let mut extended = false;
            if !symbols_contain(&retained, keyword) && state.terminal_entries.contains_key(keyword)
                && !state.terminal_entries.contains_key(word) {
                let forced = self.forced(word, keyword.index as usize, cache);
                if !forced.is_empty() {
                    extended = self.is_extended(table, state, word, keyword, &forced);
                } else {
                    assert forall|c: int| !code_points(forced@).contains(c) by {}
                }
                assert(extended == self.extended_in(*table, *state, word, keyword));
            }
            if extended {
                push_new(&mut retained, keyword);
            }
            proof {
                lemma_take_contains(deferred@, d as int);
                assert forall|s: Symbol| #[trigger] retained@.contains(s) <==> self.conflicts_in(*state, word, s) || (
                deferred@.take(d + 1).contains(s) && self.extended_in(*table, *state, word, s)) by {
                    assert(before.contains(s) <==> self.conflicts_in(*state, word, s) || (deferred@.take(d as int).contains(
                        s,
                    ) && self.extended_in(*table, *state, word, s)));
                    assert(deferred@.take(d + 1).contains(s) <==> deferred@.take(d as int).contains(s) || s == keyword);
                }
            }
            d = d + 1;
        }
        assert(deferred@.take(d as int) =~= deferred@);
        assert forall|s: Symbol| #[trigger] retained@.contains(s) <==> self.conflicts_in(*state, word, s) || self.extended_in(
            *table,
            *state,
            word,
            s,
        ) by {
            assert(deferred@.contains(s) <==> in_a_pair(pairs, s));
        }
        let word_precedence = precedences[word.index as usize];
        if word_precedence < 0 {
            let mut e: usize = 0;
            assert(deferred@.take(0).len() == 0);
            while e < deferred.len()
                invariant
                    e <= deferred@.len(),
                    n == self.lexical_grammar.variables@.len(),
                    pairs == self.unsafe_keyword_pairs@,
                    forall|p: int|
                        0 <= p < pairs.len() && state.terminal_entries@.contains_key((#[trigger] pairs[p]).0)
                            ==> pairs[p].0.index < n,
                    deferred@ == pair_keywords(pairs),
                    forall|s: Symbol| #[trigger] pair_keywords(pairs).contains(s) <==> in_a_pair(pairs, s),
                    precedences@.len() == n,
                    forall|v: int|
                        0 <= v < precedences@.len() ==> #[trigger] precedences@[v] == last_precedence(
                            self.lexical_grammar.nfa.states@,
                            v,
                        ),
                    word_precedence < 0,
                    word_precedence == last_precedence(self.lexical_grammar.nfa.states@, word.index as int),
                    forall|s: Symbol|
                        #[trigger] retained@.contains(s) <==> self.conflicts_in(*state, word, s) || self.extended_in(
                            *table,
                            *state,
                            word,
                            s,
                        ) || (deferred@.take(e as int).contains(s) && self.outranks_in(*state, word, s)),
                decreases deferred.len() - e,
            {
                let keyword = deferred[e];
                let ghost before = retained@;
                proof {
                    assert(deferred@.contains(keyword));
                    assert(in_a_pair(pairs, keyword));
                    let p = choose|p: int| 0 <= p < pairs.len() && (#[trigger] pairs[p]).0 == keyword;
                    assert(state.terminal_entries@.contains_key(pairs[p].0) ==> pairs[p].0.index < n);
                }
                if !symbols_contain(&retained, keyword) && state.terminal_entries.contains_key(keyword) {
                    if precedences[keyword.index as usize] > word_precedence {
                        push_new(&mut retained, keyword);
                        assert(self.outranks_in(*state, word, keyword));
                    }
                }
                proof {
                    lemma_take_contains(deferred@, e as int);
                    assert forall|s: Symbol| #[trigger] retained@.contains(s) <==> self.conflicts_in(*state, word, s)
                        || self.extended_in(*table, *state, word, s) || (deferred@.take(e + 1).contains(s)
                        && self.outranks_in(*state, word, s)) by {
                        assert(before.contains(s) <==> self.conflicts_in(*state, word, s) || self.extended_in(
                            *table,
                            *state,
                            word,
                            s,
                        ) || (deferred@.take(e as int).contains(s) && self.outranks_in(*state, word, s)));
                        assert(deferred@.take(e + 1).contains(s) <==> deferred@.take(e as int).contains(s) || s == keyword);
                    }
                }
                e = e + 1;
            }
            assert(deferred@.take(e as int) =~= deferred@);
            assert forall|s: Symbol| #[trigger] retained@.contains(s) <==> self.retains(*table, *state, s) by {
                assert(deferred@.contains(s) <==> in_a_pair(pairs, s));
            }
        }
        retained
    }

    /// The tokens that the lexer looks for in the state.
    fn tokens_for_state(
        &self,
        table: &ParseTable,
        state: &ParseState,
        deferred: &Vec<Symbol>,
        precedences: &Vec<i32>,
        cache: &mut CharacterSetMap,
    ) -> (r: TokenSet)
        requires
            self.wf(),
            table.wf(self.lexical_grammar.variables@.len()),
            table.state_wf(*state, self.lexical_grammar.variables@.len()),
            forall|p: int|
                0 <= p < self.unsafe_keyword_pairs@.len() && state.terminal_entries@.contains_key(
                    (#[trigger] self.unsafe_keyword_pairs@[p]).0,
                ) ==> self.unsafe_keyword_pairs@[p].0.index < self.lexical_grammar.variables@.len(),
            deferred@ == pair_keywords(self.unsafe_keyword_pairs@),
            precedences@.len() == self.lexical_grammar.variables@.len(),
            forall|v: int|
                0 <= v < precedences@.len() ==> #[trigger] precedences@[v] == last_precedence(
                    self.lexical_grammar.nfa.states@,
                    v,
                ),
            self.syntax_grammar.word_token matches Some(word) ==> are_forced(self, word, *old(cache)),
        ensures
            r@ == self.lexed_tokens(*table, *state),
            forall|t: int| #[trigger] r@.terminals.contains(t) ==> t < self.lexical_grammar.variables@.len(),
            self.syntax_grammar.word_token matches Some(word) ==> are_forced(self, word, *final(cache)),
    {
        let ghost n = self.lexical_grammar.variables@.len();
        let retained = self.retained(table, state, deferred, precedences, cache);
        let mut expected = state.terminal_entries.keys();
        let ghost entries = expected@;
        let mut reserved = state.reserved_words.iter();
        let ghost words = reserved@;
        expected.append(&mut reserved);
        proof {
            assert forall|k: int| 0 <= k < expected@.len() implies self.expects(*state, #[trigger] expected@[k]) by {
                if k < entries.len() {
                    assert(entries.contains(entries[k]));
                } else {
                    assert(state.reserved_words@.has(words[k - entries.len()]));
                }
            }
        }
        let mut r = TokenSet::new();
        let ghost mut kept: Seq<Symbol> = Seq::empty();
        let mut i: usize = 0;
        assert(r@ =~= collected(|s: Symbol| kept.contains(s)));
        while i < expected.len()
            invariant
                i <= expected@.len(),
                self.wf(),
                n == self.lexical_grammar.variables@.len(),
                table.state_wf(*state, n),
                forall|s: Symbol| #[trigger] retained@.contains(s) <==> self.retains(*table, *state, s),
                forall|k: int| 0 <= k < expected@.len() ==> self.expects(*state, #[trigger] expected@[k]),
                r@ == collected(|s: Symbol| kept.contains(s)),
                forall|s: Symbol| #[trigger] kept.contains(s) ==> self.looks_for(*table, *state, s),
                forall|s: Symbol| #[trigger] kept.contains(s) && s.kind == SymbolType::Terminal ==> s.index < n,
                forall|k: int|
                    0 <= k < i ==> (self.lexed_as(*table, *state, #[trigger] expected@[k]) matches Some(s) ==> kept.contains(s)),
            decreases expected.len() - i,
        {
            let token = expected[i];
            assert(self.expects(*state, expected@[i as int]));
            let mut lexed: Option<Symbol> = None;
            if token.is_terminal() {
                assert(token.index < n) by {
                    if state.reserved_words@.has(token) {
                        assert(state.reserved_words@.terminals.contains(token.index as int));
                    }
                }
                let immediate = self.lexical_grammar.variables[token.index as usize].is_immediate
                    && state.terminal_entries.contains_key(token);
                if self.keywords.contains(token) && !symbols_contain(&retained, token) && !immediate {
                    lexed = self.syntax_grammar.word_token;
                } else {
                    lexed = Some(token);
                }
            } else if token.is_eof() {
                lexed = Some(token);
            }
            assert(lexed == self.lexed_as(*table, *state, token));
            match lexed {
                Some(symbol) => {
                    r.insert(symbol);
                    proof {
                        let before = kept;
                        kept = kept.push(symbol);
                        lemma_collected_push(before, symbol);
                        assert(self.looks_for(*table, *state, symbol));
                    }
                },
                None => {},
            }
            i = i + 1;
        }
        proof {
            let p = |s: Symbol| kept.contains(s);
            let q = |s: Symbol| self.looks_for(*table, *state, s);
            assert forall|s: Symbol| #[trigger] q(s) && s.kind != SymbolType::End implies p(s) by {
                let token = choose|token: Symbol|
                    #[trigger] self.expects(*state, token) && self.lexed_as(*table, *state, token) == Some(s);
                lemma_expected(*state, entries, words, token);
                let k = choose|k: int| 0 <= k < expected@.len() && expected@[k] == token;
                assert(kept.contains(s));
            }
            assert forall|s: Symbol| #[trigger] q(s) && s.kind == SymbolType::End implies exists|s: Symbol|
                #[trigger] p(s) && s.kind == SymbolType::End by {
                let token = choose|token: Symbol|
                    #[trigger] self.expects(*state, token) && self.lexed_as(*table, *state, token) == Some(s);
                if state.terminal_entries@.contains_key(token) {
                    lemma_expected(*state, entries, words, token);
                    let k = choose|k: int| 0 <= k < expected@.len() && expected@[k] == token;
                    assert(p(s));
                } else if token.kind == SymbolType::End {
                    let k = choose|k: int| 0 <= k < words.len() && words[k] == end_symbol();
                    assert(expected@[entries.len() + k] == end_symbol());
                    assert(p(end_symbol()));
                } else {
                    lemma_expected(*state, entries, words, token);
                    let k = choose|k: int| 0 <= k < expected@.len() && expected@[k] == token;
                    assert(p(s));
                }
            }
            assert forall|s: Symbol| #[trigger] p(s) implies q(s) by {}
            assert(collected(p) =~= collected(q)) by {
                assert forall|t: int| collected(q).terminals.contains(t) implies collected(p).terminals.contains(t) by {
                    let s = choose|s: Symbol| #[trigger] q(s) && s.kind == SymbolType::Terminal && s.index == t;
                    assert(p(s));
                }
                assert forall|t: int| collected(q).externals.contains(t) implies collected(p).externals.contains(t) by {
                    let s = choose|s: Symbol| #[trigger] q(s) && s.kind == SymbolType::External && s.index == t;
                    assert(p(s));
                }
                if collected(q).eof {
                    let s = choose|s: Symbol| #[trigger] q(s) && s.kind == SymbolType::End;
                    assert(q(s));
                }
                if collected(q).end_of_nonterminal_extra {
                    let s = choose|s: Symbol| #[trigger] q(s) && s.kind == SymbolType::EndOfNonTerminalExtra;
                    assert(p(s));
                }
            }
            assert forall|t: int| #[trigger] r@.terminals.contains(t) implies t < n by {
                let s = choose|s: Symbol| #[trigger] p(s) && s.kind == SymbolType::Terminal && s.index == t;
                assert(kept.contains(s));
            }
        }
        r
    }
}

impl<'a> KeywordRules<'a> {
    /// The tokens that the lexer looks for in each state of the parser.
    pub fn token_sets(&self, table: &ParseTable) -> (r: Vec<TokenSet>)
        requires
            self.wf(),
            self.covers(*table),
        ensures
            r@.len() == table.states@.len(),
            forall|i: int| 0 <= i < r@.len() ==> (#[trigger] r@[i])@ == self.lexed_tokens(*table, table.states@[i]),
            forall|i: int, t: int|
                0 <= i < r@.len() && #[trigger] r@[i]@.terminals.contains(t) ==> t < self.lexical_grammar.variables@.len(),
    {
        let ghost n = self.lexical_grammar.variables@.len();
        let deferred = deferred_keywords(self.unsafe_keyword_pairs);
        let precedences = token_precedences(self.lexical_grammar);
        let mut cache = new_character_set_map();
        let mut r: Vec<TokenSet> = Vec::new();
        let mut i: usize = 0;
        while i < table.states.len()
            invariant
                i <= table.states@.len(),
                self.wf(),
                self.covers(*table),
                n == self.lexical_grammar.variables@.len(),
                deferred@ == pair_keywords(self.unsafe_keyword_pairs@),
                precedences@.len() == n,
                forall|v: int|
                    0 <= v < precedences@.len() ==> #[trigger] precedences@[v] == last_precedence(
                        self.lexical_grammar.nfa.states@,
                        v,
                    ),
                self.syntax_grammar.word_token matches Some(word) ==> are_forced(self, word, cache),
                r@.len() == i,
                forall|k: int| 0 <= k < r@.len() ==> (#[trigger] r@[k])@ == self.lexed_tokens(*table, table.states@[k]),
                forall|k: int, t: int| 0 <= k < r@.len() && #[trigger] r@[k]@.terminals.contains(t) ==> t < n,
            decreases table.states.len() - i,
        {
            let state = &table.states[i];
            assert(table.state_wf(table.states@[i as int], n));
            let tokens = self.tokens_for_state(table, state, &deferred, &precedences, &mut cache);
            r.push(tokens);
            i = i + 1;
        }
        r
    }
}

/// The members of a longer prefix.
proof fn lemma_take_contains(list: Seq<Symbol>, d: int)
    requires
        0 <= d < list.len(),
    ensures
        forall|s: Symbol| #[trigger] list.take(d + 1).contains(s) <==> list.take(d).contains(s) || s == list[d],
{
    let short = list.take(d);
    let long = list.take(d + 1);
    assert forall|s: Symbol| #[trigger] long.contains(s) <==> short.contains(s) || s == list[d] by {
        if short.contains(s) {
            let k = choose|k: int| 0 <= k < short.len() && short[k] == s;
            assert(long[k] == s);
        }
        assert(long[d] == list[d]);
        if long.contains(s) && s != list[d] {
            let k = choose|k: int| 0 <= k < long.len() && long[k] == s;
            assert(short[k] == s);
        }
    }
}

/// Collecting one more symbol.
proof fn lemma_collected_push(list: Seq<Symbol>, symbol: Symbol)
    requires
        symbol.kind != SymbolType::NonTerminal,
    ensures
        collected(|s: Symbol| list.push(symbol).contains(s)) == collected(|s: Symbol| list.contains(s)).with(symbol),
        forall|s: Symbol| #[trigger] list.push(symbol).contains(s) <==> list.contains(s) || s == symbol,
{
    let p = |s: Symbol| list.contains(s);
    let q = |s: Symbol| list.push(symbol).contains(s);
    assert forall|s: Symbol| #[trigger] list.push(symbol).contains(s) <==> list.contains(s) || s == symbol by {
        if list.contains(s) {
            let k = choose|k: int| 0 <= k < list.len() && list[k] == s;
            assert(list.push(symbol)[k] == s);
        }
        assert(list.push(symbol)[list.len() as int] == symbol);
    }
    assert forall|s: Symbol| #[trigger] q(s) <==> p(s) || s == symbol by {}
    let a = collected(p).with(symbol);
    let b = collected(q);
    assert(q(symbol));
    assert forall|t: int| a.terminals.contains(t) == b.terminals.contains(t) by {
        if collected(p).terminals.contains(t) {
            let s = choose|s: Symbol| #[trigger] p(s) && s.kind == SymbolType::Terminal && s.index == t;
            assert(q(s));
        }
        if b.terminals.contains(t) {
            let s = choose|s: Symbol| #[trigger] q(s) && s.kind == SymbolType::Terminal && s.index == t;
            assert(p(s) || s == symbol);
        }
    }
    assert forall|t: int| a.externals.contains(t) == b.externals.contains(t) by {
        if collected(p).externals.contains(t) {
            let s = choose|s: Symbol| #[trigger] p(s) && s.kind == SymbolType::External && s.index == t;
            assert(q(s));
        }
        if b.externals.contains(t) {
            let s = choose|s: Symbol| #[trigger] q(s) && s.kind == SymbolType::External && s.index == t;
            assert(p(s) || s == symbol);
        }
    }
    assert(a.eof == b.eof) by {
        if collected(p).eof {
            let s = choose|s: Symbol| #[trigger] p(s) && s.kind == SymbolType::End;
            assert(q(s));
        }
        if b.eof {
            let s = choose|s: Symbol| #[trigger] q(s) && s.kind == SymbolType::End;
            assert(p(s) || s == symbol);
        }
    }
    assert(a.end_of_nonterminal_extra == b.end_of_nonterminal_extra) by {
        if collected(p).end_of_nonterminal_extra {
            let s = choose|s: Symbol| #[trigger] p(s) && s.kind == SymbolType::EndOfNonTerminalExtra;
            assert(q(s));
        }
        if b.end_of_nonterminal_extra {
            let s = choose|s: Symbol| #[trigger] q(s) && s.kind == SymbolType::EndOfNonTerminalExtra;
            assert(p(s) || s == symbol);
        }
    }
    assert(a =~= b);
}

/// A token that is valid or reserved in the state is listed.
proof fn lemma_expected(state: ParseState, entries: Seq<Symbol>, words: Seq<Symbol>, token: Symbol)
    requires
        forall|s: Symbol| #[trigger] entries.contains(s) <==> state.terminal_entries@.contains_key(s),
        forall|i: u32|
            #[trigger] state.reserved_words@.terminals.contains(i as int) ==> words.contains(terminal_symbol(i as int)),
        state.terminal_entries@.contains_key(token) || (state.reserved_words@.has(token) && token.kind == SymbolType::Terminal),
    ensures
        (entries + words).contains(token),
{
    if state.terminal_entries@.contains_key(token) {
        assert(entries.contains(token));
        let k = choose|k: int| 0 <= k < entries.len() && entries[k] == token;
        assert((entries + words)[k] == token);
    } else {
        assert(state.reserved_words@.terminals.contains(token.index as int));
        assert(terminal_symbol(token.index as int) == token);
        let k = choose|k: int| 0 <= k < words.len() && words[k] == token;
        assert((entries + words)[entries.len() + k] == token);
    }
}

} // verus!
