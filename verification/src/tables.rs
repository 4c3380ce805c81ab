//! Lexer tables, and the parts of a parse table that lexing depends on.

use vstd::prelude::*;

use crate::character_set::{char_order_key, ranges_wf, CharRange, CharacterSet};
use crate::rules::{kind_rank, Symbol, SymbolType, TokenSet};

verus! {

/// The number of a lexer state.
pub type LexStateId = u32;

/// The number of a parse state.
pub type ParseStateId = u32;

/// What the lexer does when it reads a character.
#[derive(Clone, Copy, Debug, PartialEq, Eq, Structural)]
pub struct AdvanceAction {
    pub state: LexStateId,
    /// The character is part of the token, not of a separator before it.
    pub in_main_token: bool,
}

/// A state of the lexer.
#[derive(Debug)]
pub struct LexState {
    pub accept_action: Option<Symbol>,
    pub eof_action: Option<AdvanceAction>,
    pub advance_actions: Vec<(CharacterSet, AdvanceAction)>,
}

/// The contents of a lexer state.
#[verifier::ext_equal]
pub struct StateModel {
    pub accept_action: Option<Symbol>,
    pub eof_action: Option<AdvanceAction>,
    pub advance_actions: Seq<(Seq<CharRange>, AdvanceAction)>,
}

impl View for LexState {
    type V = StateModel;

    open spec fn view(&self) -> StateModel {
        StateModel {
            accept_action: self.accept_action,
            eof_action: self.eof_action,
            advance_actions: action_views(self.advance_actions@),
        }
    }
}

/// The contents of a list of actions.
pub open spec fn action_views(actions: Seq<(CharacterSet, AdvanceAction)>) -> Seq<(Seq<CharRange>, AdvanceAction)> {
    Seq::new(actions.len(), |i: int| (actions[i].0@, actions[i].1))
}

/// A lexer.
#[derive(Debug)]
pub struct LexTable {
    pub states: Vec<LexState>,
}

impl View for LexTable {
    type V = Seq<StateModel>;

    open spec fn view(&self) -> Seq<StateModel> {
        Seq::new(self.states@.len(), |i: int| self.states@[i]@)
    }
}

/// The character sets of the actions are canonical, and the actions lead to states
/// below `n`.
pub open spec fn state_wf(s: StateModel, n: nat) -> bool {
    &&& forall|i: int|
        0 <= i < s.advance_actions.len() ==> ranges_wf((#[trigger] s.advance_actions[i]).0)
            && s.advance_actions[i].1.state < n
    &&& s.eof_action matches Some(action) ==> action.state < n
}

/// Every action leads to a state of the table, and state numbers fit in 32 bits.
pub open spec fn table_wf(states: Seq<StateModel>) -> bool {
    &&& states.len() <= u32::MAX + 1
    &&& forall|i: int| 0 <= i < states.len() ==> state_wf(#[trigger] states[i], states.len())
}

/// The state that neither accepts nor advances.
pub open spec fn blank_state() -> StateModel {
    StateModel { accept_action: None, eof_action: None, advance_actions: Seq::empty() }
}

/// The action, with its target renumbered.
pub open spec fn renumber_action(action: AdvanceAction, ids: Seq<u32>) -> AdvanceAction {
    AdvanceAction { state: ids[action.state as int], in_main_token: action.in_main_token }
}

/// The state, with the targets of its actions renumbered: what led to state `k` leads
/// to state `ids[k]`.
pub open spec fn renumber_state(s: StateModel, ids: Seq<u32>) -> StateModel {
    StateModel {
        accept_action: s.accept_action,
        eof_action: match s.eof_action {
            Some(action) => Some(renumber_action(action, ids)),
            None => None,
        },
        advance_actions: Seq::new(
            s.advance_actions.len(),
            |i: int| (s.advance_actions[i].0, renumber_action(s.advance_actions[i].1, ids)),
        ),
    }
}

impl LexState {
    /// The state that neither accepts nor advances.
    pub fn new() -> (r: Self)
        ensures
            r@ == blank_state(),
            r.advance_actions@.len() == 0,
    {
        let r = LexState { accept_action: None, eof_action: None, advance_actions: Vec::new() };
        assert(r@ =~= blank_state());
        r
    }

    /// A copy of the state with the targets of its actions renumbered.
    pub fn renumbered(&self, ids: &Vec<u32>) -> (r: Self)
        requires
            state_wf(self@, ids@.len()),
        ensures
            r@ == renumber_state(self@, ids@),
    {
        let mut actions: Vec<(CharacterSet, AdvanceAction)> = Vec::new();
        let mut i: usize = 0;
        while i < self.advance_actions.len()
            invariant
                i <= self.advance_actions@.len(),
                actions@.len() == i,
                state_wf(self@, ids@.len()),
                forall|k: int|
                    0 <= k < i ==> (#[trigger] actions@[k]).0@ == self.advance_actions@[k].0@ && actions@[k].1
                        == renumber_action(self.advance_actions@[k].1, ids@),
            decreases self.advance_actions.len() - i,
        {
            let action = self.advance_actions[i].1;
            assert(self@.advance_actions[i as int].1 == action);
            actions.push((
                self.advance_actions[i].0.clone(),
                AdvanceAction { state: ids[action.state as usize], in_main_token: action.in_main_token },
            ));
            i = i + 1;
        }
        let eof_action = match self.eof_action {
            Some(action) => Some(
                AdvanceAction { state: ids[action.state as usize], in_main_token: action.in_main_token },
            ),
            None => None,
        };
        let r = LexState { accept_action: self.accept_action, eof_action, advance_actions: actions };
        assert(r@ =~= renumber_state(self@, ids@));
        r
    }
}

impl LexTable {
    /// The table without states.
    pub fn new() -> (r: Self)
        ensures
            r@.len() == 0,
            r.states@.len() == 0,
    {
        LexTable { states: Vec::new() }
    }
}

/// The sort key of an optional symbol: none comes first, then the symbols by kind and
/// number.
pub open spec fn symbol_key(symbol: Option<Symbol>) -> Seq<u32> {
    match symbol {
        None => seq![0u32],
        Some(s) => seq![1u32, kind_rank(s.kind), s.index],
    }
}

/// The sort key of an action: its target, then whether it is in the main token.
pub open spec fn action_key(action: AdvanceAction) -> Seq<u32> {
    seq![action.state, if action.in_main_token { 1u32 } else { 0u32 }]
}

/// The sort key of an optional action: none comes first.
pub open spec fn eof_key(action: Option<AdvanceAction>) -> Seq<u32> {
    match action {
        None => seq![0u32],
        Some(a) => seq![1u32] + action_key(a),
    }
}

/// The sort key of a list of actions, without its end mark.
pub open spec fn actions_key(actions: Seq<(Seq<CharRange>, AdvanceAction)>) -> Seq<u32>
    decreases actions.len(),
{
    if actions.len() == 0 {
        Seq::empty()
    } else {
        actions_key(actions.drop_last()) + seq![1u32] + char_order_key(actions.last().0) + action_key(actions.last().1)
    }
}

/// The sort key of a lexer state. States are ordered by what they accept, then by what
/// they do at the end of the input, then by their actions, one after the other; a list
/// of actions comes before those that go on after it.
pub open spec fn state_key(s: StateModel) -> Seq<u32> {
    symbol_key(s.accept_action) + eof_key(s.eof_action) + actions_key(s.advance_actions) + seq![0u32]
}

impl LexState {
    /// The sort key of the state.
    pub fn sort_key(&self) -> (key: Vec<u32>)
        requires
            forall|i: int| 0 <= i < self.advance_actions@.len() ==> (#[trigger] self.advance_actions@[i]).0.wf(),
        ensures
            key@ == state_key(self@),
    {
        let mut key: Vec<u32> = Vec::new();
        match self.accept_action {
            None => {
                key.push(0);
            },
            Some(s) => {
                key.push(1);
                key.push(s.kind.rank());
                key.push(s.index);
            },
        }
        assert(key@ =~= symbol_key(self.accept_action));
        match self.eof_action {
            None => {
                key.push(0);
            },
            Some(a) => {
                key.push(1);
                key.push(a.state);
                key.push(if a.in_main_token { 1 } else { 0 });
            },
        }
        assert(key@ =~= symbol_key(self.accept_action) + eof_key(self.eof_action));
        let ghost head = key@;
        let ghost actions = self@.advance_actions;
        let mut i: usize = 0;
        assert(actions.take(0).len() == 0);
        assert(head + actions_key(actions.take(0)) =~= head);
        while i < self.advance_actions.len()
            invariant
                i <= self.advance_actions@.len(),
                actions == action_views(self.advance_actions@),
                forall|i: int| 0 <= i < self.advance_actions@.len() ==> (#[trigger] self.advance_actions@[i]).0.wf(),
                key@ == head + actions_key(actions.take(i as int)),
            decreases self.advance_actions.len() - i,
        {
            let ghost before = key@;
            key.push(1);
            let mut chars = self.advance_actions[i].0.order_key();
            key.append(&mut chars);
            let action = self.advance_actions[i].1;
            key.push(action.state);
            key.push(if action.in_main_token { 1 } else { 0 });
            proof {
                let next = actions.take(i + 1);
                assert(next.drop_last() =~= actions.take(i as int));
                assert(next.last() == actions[i as int]);
                assert(key@ =~= head + actions_key(next));
            }
            i = i + 1;
        }
        assert(actions.take(i as int) =~= actions);
        key.push(0);
        assert(key@ =~= state_key(self@));
        key
    }
}

/// What the parser does when it meets a token.
#[derive(Clone, Copy, Debug)]
pub enum ParseAction {
    Accept,
    Shift { state: ParseStateId, is_repetition: bool },
    ShiftExtra,
    Recover,
    Reduce { symbol: Symbol, child_count: usize, dynamic_precedence: i32, production_id: usize },
}

/// The tokens that a parse state has actions for, each with the number of its list of
/// actions.
#[derive(Debug)]
pub struct TerminalEntries {
    entries: Vec<(Symbol, usize)>,
}

/// No token has two entries.
pub open spec fn distinct_tokens(entries: Seq<(Symbol, usize)>) -> bool {
    forall|i: int, j: int| 0 <= i < j < entries.len() ==> (#[trigger] entries[i]).0 != (#[trigger] entries[j]).0
}

/// Entry `i` is for the token.
pub open spec fn entry_is_for(entries: Seq<(Symbol, usize)>, symbol: Symbol, i: int) -> bool {
    0 <= i < entries.len() && entries[i].0 == symbol
}

impl View for TerminalEntries {
    type V = Map<Symbol, usize>;

    closed spec fn view(&self) -> Map<Symbol, usize> {
        Map::new(
            |symbol: Symbol| exists|i: int| entry_is_for(self.entries@, symbol, i),
            |symbol: Symbol| self.entries@[choose|i: int| entry_is_for(self.entries@, symbol, i)].1,
        )
    }
}

impl TerminalEntries {
    #[verifier::type_invariant]
    spec fn inv(&self) -> bool {
        distinct_tokens(self.entries@)
    }

    /// No entries.
    pub fn new() -> (r: Self)
        ensures
            r@ == (Map::<Symbol, usize>::empty()),
    {
        let r = TerminalEntries { entries: Vec::new() };
        assert(r@ =~= Map::empty());
        r
    }

    /// The position of the entry of a token.
    fn position(&self, symbol: Symbol) -> (r: Option<usize>)
        ensures
            r matches Some(i) ==> entry_is_for(self.entries@, symbol, i as int) && self@.contains_key(symbol) && self@[symbol]
                == self.entries@[i as int].1,
            r is None ==> !self@.contains_key(symbol) && forall|i: int| !entry_is_for(self.entries@, symbol, i),
    {
        proof {
            use_type_invariant(self);
        }
        let mut i: usize = 0;
        while i < self.entries.len()
            invariant
                i <= self.entries@.len(),
                distinct_tokens(self.entries@),
                forall|k: int| 0 <= k < i ==> !entry_is_for(self.entries@, symbol, k),
            decreases self.entries.len() - i,
        {
            if self.entries[i].0 == symbol {
                assert(entry_is_for(self.entries@, symbol, i as int));
                return Some(i);
            }
            i = i + 1;
        }
        assert forall|k: int| !entry_is_for(self.entries@, symbol, k) by {}
        None
    }

    /// Sets the entry of a token.
    pub fn insert(&mut self, symbol: Symbol, entry: usize)
        ensures
            final(self)@ == old(self)@.insert(symbol, entry),
    {
        proof {
            use_type_invariant(&*self);
        }
        let ghost before = self.entries@;
        let mut entries: Vec<(Symbol, usize)> = Vec::new();
        let position = self.position(symbol);
        std::mem::swap(&mut entries, &mut self.entries);
        match position {
            Some(i) => {
                entries.set(i, (symbol, entry));
            },
            None => {
                assert forall|i: int| 0 <= i < before.len() implies (#[trigger] before[i]).0 != symbol by {
                    assert(!entry_is_for(before, symbol, i));
                }
                entries.push((symbol, entry));
            },
        }
        *self = TerminalEntries { entries };
        proof {
            let after = self.entries@;
            let new = match position {
                Some(i) => i as int,
                None => before.len() as int,
            };
            assert(entry_is_for(after, symbol, new));
            assert forall|s: Symbol, i: int| s != symbol implies entry_is_for(after, s, i) == entry_is_for(before, s, i) by {}
            assert forall|s: Symbol| #[trigger] self@.contains_key(s) == old(self)@.insert(symbol, entry).contains_key(s) by {
                if s != symbol && old(self)@.contains_key(s) {
                    let i = choose|i: int| entry_is_for(before, s, i);
                    assert(entry_is_for(after, s, i));
                }
                if s != symbol && self@.contains_key(s) {
                    let i = choose|i: int| entry_is_for(after, s, i);
                    assert(entry_is_for(before, s, i));
                }
            }
            assert forall|s: Symbol| #[trigger] self@.contains_key(s) implies self@[s] == old(self)@.insert(symbol, entry)[s] by {
                let i = choose|i: int| entry_is_for(after, s, i);
                if s != symbol {
                    let j = choose|j: int| entry_is_for(before, s, j);
                    assert(entry_is_for(before, s, i));
                    assert(i == j);
                }
            }
            assert(self@ =~= old(self)@.insert(symbol, entry));
        }
    }

    /// Whether there is an entry for the token.
    pub fn contains_key(&self, symbol: Symbol) -> (r: bool)
        ensures
            r == self@.contains_key(symbol),
    {
        self.position(symbol).is_some()
    }

    /// The entry of the token.
    pub fn get(&self, symbol: Symbol) -> (r: Option<usize>)
        ensures
            r == (if self@.contains_key(symbol) {
                Some(self@[symbol])
            } else {
                None
            }),
    {
        match self.position(symbol) {
            Some(i) => Some(self.entries[i].1),
            None => None,
        }
    }

    /// The tokens that have entries, each once.
    pub fn keys(&self) -> (r: Vec<Symbol>)
        ensures
            r@.no_duplicates(),
            forall|s: Symbol| #[trigger] r@.contains(s) <==> self@.contains_key(s),
    {
        proof {
            use_type_invariant(self);
        }
        let mut r: Vec<Symbol> = Vec::new();
        let mut i: usize = 0;
        while i < self.entries.len()
            invariant
                i <= self.entries@.len(),
                r@.len() == i,
                forall|k: int| 0 <= k < i ==> r@[k] == (#[trigger] self.entries@[k]).0,
            decreases self.entries.len() - i,
        {
            r.push(self.entries[i].0);
            i = i + 1;
        }
        assert forall|s: Symbol| #[trigger] r@.contains(s) <==> self@.contains_key(s) by {
            if r@.contains(s) {
                let k = choose|k: int| 0 <= k < r@.len() && r@[k] == s;
                assert(self.entries@[k].0 == s);
                assert(entry_is_for(self.entries@, s, k));
            }
            if self@.contains_key(s) {
                let k = choose|k: int| entry_is_for(self.entries@, s, k);
                assert(r@[k] == self.entries@[k].0);
            }
        }
        assert forall|j: int, k: int| 0 <= j < r@.len() && 0 <= k < r@.len() && j != k implies r@[j] != r@[k] by {
            assert(r@[j] == self.entries@[j].0 && r@[k] == self.entries@[k].0);
        }
        r
    }
}

/// A state of the parser.
#[derive(Debug)]
pub struct ParseState {
    pub terminal_entries: TerminalEntries,
    pub reserved_words: TokenSet,
    pub lex_state_id: LexStateId,
}

/// The parts of a parse table that lexing depends on.
#[derive(Debug)]
pub struct ParseTable {
    pub states: Vec<ParseState>,
    pub action_lists: Vec<Vec<ParseAction>>,
}

/// The two tables differ in the lexer states of their parse states at most.
pub open spec fn same_but_lex_ids(a: ParseTable, b: ParseTable) -> bool {
    &&& a.action_lists == b.action_lists
    &&& a.states@.len() == b.states@.len()
    &&& forall|i: int|
        0 <= i < a.states@.len() ==> (#[trigger] a.states@[i]).terminal_entries == b.states@[i].terminal_entries
            && a.states@[i].reserved_words == b.states@[i].reserved_words
}

impl ParseTable {
    /// The parts of the table refer to each other properly, its terminals are below
    /// `n`, and state numbers fit in 32 bits.
    pub open spec fn wf(&self, n: nat) -> bool {
        &&& self.states@.len() <= u32::MAX + 1
        &&& forall|i: int| 0 <= i < self.states@.len() ==> self.state_wf(#[trigger] self.states@[i], n)
        &&& forall|a: int, b: int|
            0 <= a < self.action_lists@.len() && 0 <= b < self.action_lists@[a]@.len() ==> self.action_wf(
                #[trigger] self.action_lists@[a]@[b],
            )
    }

    /// The state's entries are lists of actions, and its terminals are below `n`.
    pub open spec fn state_wf(&self, state: ParseState, n: nat) -> bool {
        &&& forall|s: Symbol|
            #[trigger] state.terminal_entries@.contains_key(s) ==> state.terminal_entries@[s] < self.action_lists@.len() && (
            s.kind == SymbolType::Terminal ==> s.index < n)
        &&& forall|t: int| #[trigger] state.reserved_words@.terminals.contains(t) ==> t < n
    }

    /// What the action shifts to is a state of the table.
    pub open spec fn action_wf(&self, action: ParseAction) -> bool {
        action matches ParseAction::Shift { state, .. } ==> state < self.states@.len()
    }

    /// Renumbers the lexer states of the parse states: `k` becomes `ids[k]`.
    pub fn renumber_lex_states(&mut self, ids: &Vec<u32>)
        requires
            forall|i: int| 0 <= i < old(self).states@.len() ==> (#[trigger] old(self).states@[i]).lex_state_id < ids@.len(),
        ensures
            same_but_lex_ids(*old(self), *final(self)),
            forall|i: int|
                0 <= i < final(self).states@.len() ==> (#[trigger] final(self).states@[i]).lex_state_id
                    == ids@[old(self).states@[i].lex_state_id as int],
    {
        let ghost before = *self;
        let mut i: usize = 0;
        while i < self.states.len()
            invariant
                i <= self.states@.len(),
                same_but_lex_ids(before, *self),
                forall|k: int| 0 <= k < before.states@.len() ==> (#[trigger] before.states@[k]).lex_state_id < ids@.len(),
                forall|k: int|
                    0 <= k < i ==> (#[trigger] self.states@[k]).lex_state_id == ids@[before.states@[k].lex_state_id as int],
                forall|k: int| i <= k < self.states@.len() ==> (#[trigger] self.states@[k]).lex_state_id == before.states@[k].lex_state_id,
            decreases self.states.len() - i,
        {
            let old_id = self.states[i].lex_state_id;
            assert(before.states@[i as int].lex_state_id < ids@.len());
            self.states[i].lex_state_id = ids[old_id as usize];
            i = i + 1;
        }
    }
}

} // verus!
