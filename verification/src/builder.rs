//! Building a lexer from an automaton.

use std::collections::VecDeque;

use vstd::prelude::*;

use crate::character_set::CharacterSet;
use crate::configs::{
    accepted, action_for, best_completion, completion, config_bound, config_wf, configs_wf, discover, end_config,
    end_successors, entry_config, explore, explored, extends, kept_of, last_looked_at, lemma_completions,
    lemma_config_count, lemma_discover, lemma_discover_push, lemma_empty_closure, lemma_look_at, lemma_number_of,
    lemma_state_for, lemma_successors_wf, number_of, reads_on, start_states, state_for, successors, table_for, target,
    targets, with_entry, Config,
};
use crate::continuation::lemma_transition_states;
use crate::cursor::NfaCursor;
use crate::grammars::LexicalGrammar;
use crate::hashing::{clear_state_ids, get_state_id, insert_state_id, new_state_ids, state_ids, StateIdMap};
use crate::rules::{end_symbol, terminal_symbol, Symbol, SymbolType, TokenSet};
use crate::tables::{blank_state, AdvanceAction, LexState, LexStateId, LexTable, StateModel};
use crate::token_conflicts::TokenConflictMap;
use crate::transitions::{any_separator, moves, transition_views, transitions_of};

verus! {

/// A lexer state that is still to be filled in.
#[derive(Debug)]
pub struct QueueEntry {
    pub state_id: LexStateId,
    pub nfa_states: Vec<u32>,
    pub eof_valid: bool,
}

/// A lexer that is being built.
pub struct LexTableBuilder<'a> {
    pub lexical_grammar: &'a LexicalGrammar,
    pub cursor: NfaCursor<'a>,
    pub table: LexTable,
    pub state_queue: VecDeque<QueueEntry>,
    pub state_ids_by_nfa_state_set: StateIdMap,
    /// The configurations that the lexer states stand for.
    pub configs: Ghost<Seq<Config>>,
}

/// The number of states fits in 32 bits, so that no two states get the same number.
pub open spec fn numbers_fit(configs: Seq<Config>) -> bool {
    configs.len() <= u32::MAX + 1
}

/// The states of the configurations before `next` are filled in, the others are blank.
pub open spec fn filled(g: &LexicalGrammar, configs: Seq<Config>, states: Seq<StateModel>, next: int) -> bool {
    &&& states.len() == configs.len()
    &&& forall|i: int| 0 <= i < next ==> #[trigger] states[i] == state_for(g, configs, configs[i])
    &&& forall|i: int| next <= i < states.len() ==> #[trigger] states[i] == blank_state()
}

impl<'a> LexTableBuilder<'a> {
    /// How many configurations have been taken from the queue.
    pub open spec fn taken(&self) -> int {
        self.configs@.len() - self.state_queue@.len()
    }

    /// The table has a state for each configuration, the map knows their numbers, and the
    /// queue holds the last of them.
    pub open spec fn wf(&self) -> bool {
        &&& self.lexical_grammar.wf()
        &&& *self.cursor.nfa == self.lexical_grammar.nfa
        &&& configs_wf(self.lexical_grammar, self.configs@)
        &&& self.table.states@.len() == self.configs@.len()
        &&& forall|i: int|
            0 <= i < self.configs@.len() ==> state_ids(self.state_ids_by_nfa_state_set).contains_key(
                #[trigger] self.configs@[i],
            ) && state_ids(self.state_ids_by_nfa_state_set)[self.configs@[i]] == i as u32
        &&& forall|c: Config|
            #[trigger] state_ids(self.state_ids_by_nfa_state_set).contains_key(c) ==> self.configs@.contains(c)
        &&& 0 <= self.taken()
        &&& forall|k: int|
            0 <= k < self.state_queue@.len() ==> entry_for(
                #[trigger] self.state_queue@[k],
                self.configs@[self.taken() + k],
                self.taken() + k,
            )
    }

    /// Every configuration has been looked at, and so has everything that it leads to.
    pub open spec fn complete(&self) -> bool {
        &&& self.wf()
        &&& self.state_queue@.len() == 0
        &&& explored(self.lexical_grammar, self.configs@, self.configs@.len() as int)
        &&& numbers_fit(self.configs@) ==> self.table@ == table_for(self.lexical_grammar, self.configs@)
    }

    /// A builder with an empty table.
    pub fn new(lexical_grammar: &'a LexicalGrammar) -> (r: Self)
        requires
            lexical_grammar.wf(),
        ensures
            r.complete(),
            r.lexical_grammar == lexical_grammar,
            r.configs@.len() == 0,
    {
        let r = LexTableBuilder {
            lexical_grammar,
            cursor: NfaCursor::new(&lexical_grammar.nfa, Vec::new()),
            table: LexTable::new(),
            state_queue: VecDeque::new(),
            state_ids_by_nfa_state_set: new_state_ids(),
            configs: Ghost(Seq::empty()),
        };
        assert(r.table@ =~= table_for(r.lexical_grammar, r.configs@));
        r
    }

    /// Empties the table.
    pub fn reset(&mut self)
        requires
            old(self).wf(),
        ensures
            final(self).complete(),
            final(self).lexical_grammar == old(self).lexical_grammar,
            final(self).configs@.len() == 0,
    {
        self.table = LexTable::new();
        self.state_queue.clear();
        clear_state_ids(&mut self.state_ids_by_nfa_state_set);
        self.configs = Ghost(Seq::empty());
        assert(self.table@ =~= table_for(self.lexical_grammar, self.configs@));
    }

    /// Finds the state for a set of automaton states, or adds it. Returns its number, and
    /// whether it was added.
    pub fn add_state(&mut self, nfa_states: Vec<u32>, eof_valid: bool) -> (r: (LexStateId, bool))
        requires
            old(self).wf(),
            old(self).lexical_grammar.nfa.are_states(nfa_states@),
        ensures
            final(self).wf(),
            final(self).lexical_grammar == old(self).lexical_grammar,
            final(self).cursor.state_ids@ == old(self).lexical_grammar.nfa.closure(nfa_states@.to_set()),
            ({
                let config = (old(self).lexical_grammar.nfa.closure(nfa_states@.to_set()), eof_valid);
                &&& final(self).configs@ == discover(old(self).configs@, seq![config])
                &&& extends(old(self).configs@, final(self).configs@)
                &&& r.0 == number_of(final(self).configs@, config)
                &&& r.1 == !old(self).configs@.contains(config)
            }),
            final(self).taken() == old(self).taken(),
            forall|i: int|
                0 <= i < old(self).table.states@.len() ==> #[trigger] final(self).table.states@[i] == old(self).table.states@[i],
            forall|i: int|
                old(self).table.states@.len() <= i < final(self).table.states@.len()
                    ==> (#[trigger] final(self).table.states@[i])@ == blank_state(),
    {
        let ghost before = *self;
        let ghost config: Config = (self.lexical_grammar.nfa.closure(nfa_states@.to_set()), eof_valid);
        let ghost one = seq![config];
        proof {
            self.lexical_grammar.nfa.lemma_closure(nfa_states@.to_set());
            assert(config_wf(self.lexical_grammar, one[0]));
            lemma_discover(self.lexical_grammar, self.configs@, one);
            assert(one.drop_last().len() == 0);
            assert(discover(self.configs@, one.drop_last()) == self.configs@);
            assert(one.last() == config);
        }
        self.cursor.reset(nfa_states);
        let key = (self.cursor.state_ids.clone(), eof_valid);
        assert(key.0@ =~= config.0);
        match get_state_id(&self.state_ids_by_nfa_state_set, &key) {
            Some(state_id) => {
                proof {
                    assert(self.configs@.contains(config));
                    let i = self.configs@.index_of(config);
                    assert(self.configs@[i] == config);
                }
                (state_id, false)
            },
            None => {
                let state_id = self.table.states.len() as u32;
                proof {
                    if self.configs@.contains(config) {
                        let i = choose|i: int| 0 <= i < self.configs@.len() && self.configs@[i] == config;
                        assert(state_ids(self.state_ids_by_nfa_state_set).contains_key(self.configs@[i]));
                    }
                }
                self.table.states.push(LexState::new());
                let nfa_states = self.cursor.state_ids.clone();
                assert(nfa_states@ =~= config.0);
                self.state_queue.push_back(QueueEntry { state_id, nfa_states, eof_valid });
                insert_state_id(&mut self.state_ids_by_nfa_state_set, key, state_id);
                self.configs = Ghost(self.configs@.push(config));
                proof {
                    assert(self.configs@ == discover(before.configs@, one));
                    let m = state_ids(self.state_ids_by_nfa_state_set);
                    assert(self.configs@[before.configs@.len() as int] == config);
                    assert(self.configs@.index_of(config) == before.configs@.len());
                    assert forall|i: int| 0 <= i < self.configs@.len() implies m.contains_key(#[trigger] self.configs@[i])
                        && m[self.configs@[i]] == i as u32 by {
                        if i < before.configs@.len() {
                            assert(self.configs@[i] == before.configs@[i]);
                        }
                    }
                    assert forall|c: Config| #[trigger] m.contains_key(c) implies self.configs@.contains(c) by {
                        if c != config {
                            let i = choose|i: int| 0 <= i < before.configs@.len() && before.configs@[i] == c;
                            assert(self.configs@[i] == c);
                        }
                    }
                    assert forall|k: int| 0 <= k < self.state_queue@.len() implies entry_for(
                        #[trigger] self.state_queue@[k],
                        self.configs@[self.taken() + k],
                        self.taken() + k,
                    ) by {
                        if k < before.state_queue@.len() {
                            assert(self.state_queue@[k] == before.state_queue@[k]);
                        }
                    }
                }
                (state_id, true)
            },
        }
    }
}

impl<'a> LexTableBuilder<'a> {
    /// The token that is recognized in the states under the cursor.
    fn find_completion(&self) -> (r: Option<(usize, i32)>)
        requires
            self.lexical_grammar.wf(),
            *self.cursor.nfa == self.lexical_grammar.nfa,
            self.lexical_grammar.nfa.are_states(self.cursor.state_ids@),
        ensures
            r == completion(self.lexical_grammar, self.cursor.state_ids@),
            r matches Some(best) ==> best.0 < self.lexical_grammar.variables@.len(),
    {
        let completions = self.cursor.completions();
        let ghost g = self.lexical_grammar;
        proof {
            lemma_completions(g, self.cursor.state_ids@);
            assert(completions@.take(0).len() == 0);
        }
        let mut best: Option<(usize, i32)> = None;
        let mut i: usize = 0;
        while i < completions.len()
            invariant
                i <= completions@.len(),
                g == self.lexical_grammar,
                forall|k: int| 0 <= k < completions@.len() ==> (#[trigger] completions@[k]).0 < g.variables@.len(),
                best matches Some(b) ==> b.0 < g.variables@.len(),
                best == best_completion(g, completions@.take(i as int)),
            decreases completions.len() - i,
        {
            let (id, precedence) = completions[i];
            proof {
                assert(completions@[i as int].0 < g.variables@.len());
                assert(completions@.take(i + 1).drop_last() =~= completions@.take(i as int));
                assert(completions@.take(i + 1).last() == completions@[i as int]);
            }
            let keep = match best {
                Some((best_id, best_precedence)) => TokenConflictMap::prefer_token(
                    self.lexical_grammar,
                    (best_precedence, best_id),
                    (precedence, id),
                ),
                None => false,
            };
            if !keep {
                best = Some((id, precedence));
            }
            i = i + 1;
        }
        assert(completions@.take(i as int) =~= completions@);
        best
    }

    /// Fills in the state that was last taken from the queue, and adds the states that it
    /// leads to.
    #[verifier::rlimit(50)]
    pub fn populate_state(&mut self, state_id: LexStateId, nfa_states: Vec<u32>, eof_valid: bool)
        requires
            old(self).wf(),
            0 < old(self).taken(),
            old(self).configs@[old(self).taken() - 1] == (nfa_states@, eof_valid),
            state_id == (old(self).taken() - 1) as u32,
        ensures
            final(self).wf(),
            final(self).lexical_grammar == old(self).lexical_grammar,
            final(self).configs@ == discover(
                old(self).configs@,
                successors(old(self).lexical_grammar, (nfa_states@, eof_valid)),
            ),
            extends(old(self).configs@, final(self).configs@),
            final(self).taken() == old(self).taken(),
            numbers_fit(final(self).configs@) ==> final(self).table.states@[old(self).taken() - 1]@ == state_for(
                old(self).lexical_grammar,
                final(self).configs@,
                (nfa_states@, eof_valid),
            ),
            numbers_fit(final(self).configs@) ==> forall|i: int|
                0 <= i < old(self).table.states@.len() && i != old(self).taken() - 1
                    ==> #[trigger] final(self).table.states@[i] == old(self).table.states@[i],
            numbers_fit(final(self).configs@) ==> forall|i: int|
                old(self).table.states@.len() <= i < final(self).table.states@.len()
                    ==> (#[trigger] final(self).table.states@[i])@ == blank_state(),
    {
        let ghost before = *self;
        let ghost g = self.lexical_grammar;
        let ghost config: Config = (nfa_states@, eof_valid);
        let ghost p = self.taken() - 1;
        let ghost nfa = g.nfa;
        proof {
            assert(config_wf(g, self.configs@[p]));
            lemma_successors_wf(g, config);
        }
        self.cursor.force_reset(nfa_states);
        let best = self.find_completion();
        let (transitions, has_sep) = self.cursor.transitions_and_any_sep();
        let ghost ts = transition_views(transitions@);
        proof {
            lemma_transition_states(&g.nfa, config.0, ts);
            lemma_empty_closure(g);
        }
        let ghost ends = end_successors(config);
        let ghost mut found: Seq<Config> = Seq::empty();
        let mut eof_action: Option<AdvanceAction> = None;
        if eof_valid {
            let empty: Vec<u32> = Vec::new();
            assert(empty@.to_set() =~= Set::empty());
            let (next_state_id, _) = self.add_state(empty, false);
            eof_action = Some(AdvanceAction { state: next_state_id, in_main_token: true });
            proof {
                found = ends;
                assert(self.configs@.contains(end_config())) by {
                    lemma_discover(g, before.configs@, ends);
                    assert(ends[0] == end_config());
                    assert(ends.contains(end_config()));
                }
            }
        }
        let mut actions: Vec<(CharacterSet, AdvanceAction)> = Vec::new();
        let mut i: usize = 0;
        proof {
            assert(ts.take(0).len() == 0);
            assert(found =~= ends + targets(g, config, kept_of(g, config.0, ts.take(0))));
            assert(found =~= ends);
        }
        while i < transitions.len()
            invariant
                i <= transitions@.len(),
                self.wf(),
                self.lexical_grammar == g,
                nfa == g.nfa,
                before.wf(),
                before.lexical_grammar == g,
                self.taken() == before.taken(),
                ts == transition_views(transitions@),
                ts == transitions_of(&g.nfa, config.0),
                has_sep == any_separator(moves(&g.nfa, config.0)),
                best == completion(g, config.0),
                eof_valid == config.1,
                forall|k: int| 0 <= k < ts.len() ==> g.nfa.are_states((#[trigger] ts[k]).states),
                ends == end_successors(config),
                found == ends + targets(g, config, kept_of(g, config.0, ts.take(i as int))),
                self.configs@ == discover(before.configs@, found),
                extends(before.configs@, self.configs@),
                self.cursor.state_ids@ == last_looked_at(config, found),
                forall|k: int| 0 <= k < found.len() ==> self.configs@.contains(#[trigger] found[k]),
                forall|k: int| 0 <= k < found.len() ==> config_wf(g, #[trigger] found[k]),
                eof_action == (if config.1 {
                    Some(AdvanceAction { state: number_of(self.configs@, end_config()), in_main_token: true })
                } else {
                    None
                }),
                actions@.len() == kept_of(g, config.0, ts.take(i as int)).len(),
                forall|k: int|
                    0 <= k < actions@.len() ==> (#[trigger] actions@[k]).0@ == kept_of(g, config.0, ts.take(i as int))[k].characters
                        && actions@[k].1 == action_for(
                        self.configs@,
                        g,
                        config,
                        kept_of(g, config.0, ts.take(i as int))[k],
                    ),
                forall|k: int|
                    0 <= k < before.table.states@.len() ==> #[trigger] self.table.states@[k] == before.table.states@[k],
                forall|k: int|
                    before.table.states@.len() <= k < self.table.states@.len()
                        ==> (#[trigger] self.table.states@[k])@ == blank_state(),
            decreases transitions.len() - i,
        {
            let transition = &transitions[i];
            let ghost t = transition@;
            let ghost so_far = kept_of(g, config.0, ts.take(i as int));
            let ghost earlier = self.configs@;
            proof {
                assert(ts[i as int] == t);
                assert(ts.take(i + 1).drop_last() =~= ts.take(i as int));
                assert(ts.take(i + 1).last() == t);
            }
            let keep = match best {
                Some((id, precedence)) => TokenConflictMap::prefer_transition(
                    self.lexical_grammar,
                    transition,
                    id,
                    precedence,
                    has_sep,
                ),
                None => true,
            };
            assert(keep == reads_on(g, config.0, t));
            if keep {
                let states = transition.states.clone();
                assert(states@ =~= t.states);
                let (next_state_id, _) = self.add_state(states, eof_valid && transition.is_separator);
                actions.push((
                    transition.characters.clone(),
                    AdvanceAction { state: next_state_id, in_main_token: !transition.is_separator },
                ));
                proof {
                    let goal = target(g, config, t);
                    let longer = kept_of(g, config.0, ts.take(i + 1));
                    let old_found = found;
                    assert(longer == so_far.push(t));
                    lemma_discover_push(before.configs@, found, goal);
                    g.nfa.lemma_closure(t.states.to_set());
                    found = found.push(goal);
                    assert(found =~= ends + targets(g, config, longer));
                    let one = seq![goal];
                    assert(config_wf(g, one[0]));
                    lemma_discover(g, earlier, one);
                    assert(one.contains(one[0]));
                    assert(self.configs@.contains(goal));
                    assert forall|k: int| 0 <= k < found.len() implies self.configs@.contains(#[trigger] found[k]) by {
                        if k < old_found.len() {
                            assert(found[k] == old_found[k]);
                            assert(earlier.contains(old_found[k]));
                        }
                    }
                    if config.1 {
                        assert(old_found[0] == end_config());
                        assert(earlier.contains(end_config()));
                        lemma_number_of(g, earlier, self.configs@, end_config());
                    }
                    assert forall|k: int| 0 <= k < actions@.len() implies (#[trigger] actions@[k]).0@ == longer[k].characters
                        && actions@[k].1 == action_for(self.configs@, g, config, longer[k]) by {
                        if k < so_far.len() {
                            assert(longer[k] == so_far[k]);
                            assert(old_found[ends.len() + k] == target(g, config, so_far[k]));
                            assert(earlier.contains(old_found[ends.len() + k]));
                            lemma_number_of(g, earlier, self.configs@, target(g, config, so_far[k]));
                        } else {
                            assert(longer[k] == t);
                        }
                    }
                }
            }
            i = i + 1;
        }
        assert(ts.take(i as int) =~= ts);
        assert(found =~= successors(g, config));
        let accept_action = match best {
            Some((id, _)) => Some(Symbol::terminal(id)),
            None => if self.cursor.state_ids.len() == 0 {
                Some(Symbol::end())
            } else {
                None
            },
        };
        assert(accept_action == accepted(g, config));
        let state = LexState { accept_action, eof_action, advance_actions: actions };
        assert(state@ =~= state_for(g, self.configs@, config));
        self.table.states[state_id as usize] = state;
    }

    /// Adds what the lexer needs to look for one of the tokens. Returns the number of the
    /// state to start in.
    pub fn add_state_for_tokens(&mut self, tokens: &TokenSet) -> (r: LexStateId)
        requires
            old(self).complete(),
            forall|t: int|
                #[trigger] tokens@.terminals.contains(t) ==> t < old(self).lexical_grammar.variables@.len(),
        ensures
            final(self).complete(),
            final(self).lexical_grammar == old(self).lexical_grammar,
            final(self).configs@ == with_entry(old(self).lexical_grammar, old(self).configs@, tokens@),
            extends(old(self).configs@, final(self).configs@),
            final(self).configs@.contains(entry_config(old(self).lexical_grammar, tokens@)),
            r == number_of(final(self).configs@, entry_config(old(self).lexical_grammar, tokens@)),
    {
        let ghost before = *self;
        let ghost g = self.lexical_grammar;
        let symbols = tokens.iter();
        let mut eof_valid = false;
        let mut nfa_states: Vec<u32> = Vec::new();
        let mut i: usize = 0;
        while i < symbols.len()
            invariant
                i <= symbols@.len(),
                self.lexical_grammar == g,
                g.wf(),
                forall|k: int| 0 <= k < symbols@.len() ==> tokens@.has(#[trigger] symbols@[k]),
                forall|t: int| #[trigger] tokens@.terminals.contains(t) ==> t < g.variables@.len(),
                g.nfa.are_states(nfa_states@),
                forall|s: u32| #[trigger] nfa_states@.contains(s) ==> start_states(g, tokens@).contains(s),
                forall|k: int|
                    0 <= k < i && (#[trigger] symbols@[k]).kind == SymbolType::Terminal ==> nfa_states@.contains(
                        g.variables@[symbols@[k].index as int].start_state,
                    ),
                eof_valid ==> tokens@.has_non_terminal_token(),
                forall|k: int| 0 <= k < i && (#[trigger] symbols@[k]).kind != SymbolType::Terminal ==> eof_valid,
            decreases symbols.len() - i,
        {
            let token = symbols[i];
            assert(tokens@.has(symbols@[i as int]));
            if token.is_terminal() {
                assert(tokens@.terminals.contains(token.index as int));
                let state = self.lexical_grammar.variables[token.index as usize].start_state;
                let ghost earlier = nfa_states@;
                nfa_states.push(state);
                proof {
                    assert(nfa_states@[earlier.len() as int] == state);
                    assert forall|s: u32| earlier.contains(s) implies nfa_states@.contains(s) by {
                        let k = choose|k: int| 0 <= k < earlier.len() && earlier[k] == s;
                        assert(nfa_states@[k] == s);
                    }
                    assert forall|s: u32| #[trigger] nfa_states@.contains(s) implies start_states(g, tokens@).contains(s) by {
                        let k = choose|k: int| 0 <= k < nfa_states@.len() && nfa_states@[k] == s;
                        if k < earlier.len() {
                            assert(earlier.contains(earlier[k]));
                        }
                    }
                }
            } else {
                eof_valid = true;
            }
            i = i + 1;
        }
        let ghost entry = entry_config(g, tokens@);
        proof {
            assert forall|s: u32| start_states(g, tokens@).contains(s) implies nfa_states@.contains(s) by {
                let t = choose|t: int| #[trigger] tokens@.terminals.contains(t) && g.variables@[t].start_state == s;
                tokens.lemma_terminals_fit(t);
                let n = t as u32;
                assert(tokens@.terminals.contains(n as int));
                let k = choose|k: int| 0 <= k < symbols@.len() && symbols@[k] == terminal_symbol(n as int);
                assert(symbols@[k].kind == SymbolType::Terminal);
            }
            assert(nfa_states@.to_set() =~= start_states(g, tokens@));
            if tokens@.has_non_terminal_token() {
                if tokens@.eof {
                    let k = choose|k: int| 0 <= k < symbols@.len() && symbols@[k] == end_symbol();
                    assert(symbols@[k].kind != SymbolType::Terminal);
                } else if tokens@.end_of_nonterminal_extra {
                    let mark = Symbol { kind: SymbolType::EndOfNonTerminalExtra, index: 0 };
                    let k = choose|k: int| 0 <= k < symbols@.len() && symbols@[k] == mark;
                    assert(symbols@[k].kind != SymbolType::Terminal);
                } else {
                    let t = choose|t: int| tokens@.externals.contains(t);
                    tokens.lemma_externals_fit(t);
                    let n = t as u32;
                    assert(tokens@.externals.contains(n as int));
                    let external = Symbol { kind: SymbolType::External, index: n };
                    let k = choose|k: int| 0 <= k < symbols@.len() && symbols@[k] == external;
                    assert(symbols@[k].kind != SymbolType::Terminal);
                }
            }
            g.nfa.lemma_closure(start_states(g, tokens@));
            lemma_discover(g, self.configs@, seq![entry]);
            assert(seq![entry].contains(seq![entry][0]));
        }
        let (state_id, _) = self.add_state(nfa_states, eof_valid);
        let ghost first = self.configs@;
        proof {
            let m = before.configs@.len() as int;
            assert forall|i: int, k: int| 0 <= i < m && 0 <= k < successors(g, first[i]).len() implies first.contains(
                #[trigger] successors(g, first[i])[k],
            ) by {
                assert(first[i] == before.configs@[i]);
                assert(before.configs@.contains(successors(g, before.configs@[i])[k]));
            }
            if numbers_fit(first) {
                assert forall|i: int| 0 <= i < m implies #[trigger] self.table@[i] == state_for(g, first, first[i]) by {
                    assert(before.table@[i] == state_for(g, before.configs@, before.configs@[i]));
                    assert(self.table.states@[i] == before.table.states@[i]);
                    assert forall|k: int| 0 <= k < successors(g, first[i]).len() implies before.configs@.contains(
                        #[trigger] successors(g, first[i])[k],
                    ) by {
                        assert(before.configs@.contains(successors(g, before.configs@[i])[k]));
                    }
                    lemma_state_for(g, before.configs@, first, first[i]);
                }
            }
        }
        loop
            invariant
                self.wf(),
                self.lexical_grammar == g,
                extends(first, self.configs@),
                explored(g, self.configs@, self.taken()),
                numbers_fit(self.configs@) ==> filled(g, self.configs@, self.table@, self.taken()),
                explore(g, self.configs@, self.taken() as nat) == explore(g, first, before.configs@.len()),
            ensures
                self.state_queue@.len() == 0,
            decreases config_bound(g) - self.taken(),
        {
            let ghost step = *self;
            match self.state_queue.pop_front() {
                None => {
                    break;
                },
                Some(entry) => {
                    let ghost p = self.taken() - 1;
                    let ghost config = self.configs@[p];
                    proof {
                        assert(entry == step.state_queue@[0]);
                        assert(entry_for(step.state_queue@[0], config, p));
                        assert forall|k: int| 0 <= k < self.state_queue@.len() implies entry_for(
                            #[trigger] self.state_queue@[k],
                            self.configs@[self.taken() + k],
                            self.taken() + k,
                        ) by {
                            assert(self.state_queue@[k] == step.state_queue@[k + 1]);
                        }
                        lemma_config_count(g, self.configs@);
                        assert(config_wf(g, self.configs@[p]));
                    }
                    let QueueEntry { state_id, nfa_states, eof_valid } = entry;
                    self.populate_state(state_id, nfa_states, eof_valid);
                    proof {
                        if numbers_fit(self.configs@) {
                            assert forall|i: int| 0 <= i < step.table@.len() && i != p implies #[trigger] self.table@[i]
                                == step.table@[i] by {
                                assert(self.table.states@[i] == step.table.states@[i]);
                            }
                        }
                        lemma_step(g, step.configs@, self.configs@, step.table@, self.table@, p);
                    }
                },
            }
        }
        proof {
            lemma_number_of(g, first, self.configs@, entry);
            assert(self.configs@[first.index_of(entry)] == entry);
            if numbers_fit(self.configs@) {
                assert(self.table@ =~= table_for(g, self.configs@));
            }
        }
        state_id
    }
}

/// The entry of the queue is for the configuration at `number`.
pub open spec fn entry_for(entry: QueueEntry, config: Config, number: int) -> bool {
    entry.nfa_states@ == config.0 && entry.eof_valid == config.1 && entry.state_id == number as u32
}


/// Looking at one more configuration keeps what was known of the earlier ones.
proof fn lemma_step(
    g: &LexicalGrammar,
    configs: Seq<Config>,
    next: Seq<Config>,
    states: Seq<StateModel>,
    new_states: Seq<StateModel>,
    p: int,
)
    requires
        g.wf(),
        configs_wf(g, configs),
        0 <= p < configs.len(),
        next == discover(configs, successors(g, configs[p])),
        explored(g, configs, p),
        numbers_fit(configs) ==> filled(g, configs, states, p),
        states.len() == configs.len(),
        new_states.len() == next.len(),
        numbers_fit(next) ==> new_states[p] == state_for(g, next, configs[p]),
        numbers_fit(next) ==> forall|i: int| 0 <= i < states.len() && i != p ==> #[trigger] new_states[i] == states[i],
        numbers_fit(next) ==> forall|i: int| states.len() <= i < new_states.len() ==> #[trigger] new_states[i] == blank_state(),
    ensures
        extends(configs, next),
        configs_wf(g, next),
        explored(g, next, p + 1),
        numbers_fit(next) ==> filled(g, next, new_states, p + 1),
{
    lemma_look_at(g, configs, p);
    if numbers_fit(next) {
        assert forall|i: int| 0 <= i < p + 1 implies #[trigger] new_states[i] == state_for(g, next, next[i]) by {
            assert(next[i] == configs[i]);
            if i < p {
                assert(states[i] == state_for(g, configs, configs[i]));
                assert forall|k: int| 0 <= k < successors(g, configs[i]).len() implies configs.contains(
                    #[trigger] successors(g, configs[i])[k],
                ) by {}
                lemma_state_for(g, configs, next, configs[i]);
            }
        }
        assert forall|i: int| p + 1 <= i < new_states.len() implies #[trigger] new_states[i] == blank_state() by {
            if i < states.len() {
                assert(states[i] == blank_state());
            }
        }
    }
}

} // verus!
