//! The parts of a grammar that lexing depends on.

use vstd::prelude::*;

use crate::nfa::{Nfa, NfaState};
use crate::rules::Symbol;

verus! {

/// The number of an interned name.
#[derive(Clone, Copy, Debug, PartialEq, Eq, Structural)]
pub struct StrId(pub u32);

impl Default for StrId {
    fn default() -> (r: Self)
        ensures
            r == StrId(0),
    {
        StrId(0)
    }
}

/// How a variable shows up in a syntax tree.
#[derive(Clone, Copy, Debug, PartialEq, Eq, Structural)]
pub enum VariableType {
    Hidden,
    Auxiliary,
    Anonymous,
    Named,
}

/// A token of the lexical grammar.
#[derive(Clone, Copy, Debug)]
pub struct LexicalVariable {
    pub name: StrId,
    pub kind: VariableType,
    pub implicit_precedence: i32,
    pub start_state: u32,
    /// The token must follow the one before it without a separator.
    pub is_immediate: bool,
}

/// The tokens of a language, and the automaton that recognizes them.
#[derive(Debug)]
pub struct LexicalGrammar {
    pub nfa: Nfa,
    pub variables: Vec<LexicalVariable>,
}

impl LexicalGrammar {
    /// The automaton and the tokens refer to each other properly, and token numbers fit
    /// in 32 bits.
    pub open spec fn wf(&self) -> bool {
        &&& self.nfa.wf()
        &&& self.variables@.len() <= u32::MAX + 1
        &&& forall|i: int|
            0 <= i < self.variables@.len() ==> (#[trigger] self.variables@[i]).start_state < self.nfa.states@.len()
        &&& forall|i: int|
            0 <= i < self.nfa.states@.len() ==> self.recognizes_a_variable(#[trigger] self.nfa.states@[i])
    }

    /// What the state recognizes, if anything, is a variable of the grammar.
    pub open spec fn recognizes_a_variable(&self, state: NfaState) -> bool {
        match state {
            NfaState::Accept { variable_index, .. } => variable_index < self.variables@.len(),
            _ => true,
        }
    }

    /// State `state` of the automaton belongs to the variable `v`: the first whose
    /// start state is not before it.
    pub open spec fn state_is_of_variable(&self, state: u32, v: int) -> bool {
        &&& 0 <= v < self.variables@.len()
        &&& self.variables@[v].start_state >= state
        &&& forall|w: int| 0 <= w < v ==> (#[trigger] self.variables@[w]).start_state < state
    }

    /// Whether one of the automaton states belongs to the variable at `index`.
    pub fn any_state_of_variable(&self, states: &Vec<u32>, index: usize) -> (r: bool)
        ensures
            r == exists|k: int| 0 <= k < states@.len() && self.state_is_of_variable(#[trigger] states@[k], index as int),
    {
        let mut k: usize = 0;
        while k < states.len()
            invariant
                k <= states@.len(),
                forall|m: int| 0 <= m < k ==> !self.state_is_of_variable(#[trigger] states@[m], index as int),
            decreases states.len() - k,
        {
            let state = states[k];
            let mut v: usize = 0;
            while v < self.variables.len() && self.variables[v].start_state < state
                invariant
                    v <= self.variables@.len(),
                    forall|w: int| 0 <= w < v ==> (#[trigger] self.variables@[w]).start_state < state,
                decreases self.variables.len() - v,
            {
                v = v + 1;
            }
            if v < self.variables.len() && v == index {
                assert(self.state_is_of_variable(states@[k as int], index as int));
                return true;
            }
            assert(!self.state_is_of_variable(states@[k as int], index as int)) by {
                if self.state_is_of_variable(state, index as int) {
                    if index < v {
                        assert(self.variables@[index as int].start_state < state);
                    } else {
                        assert(self.variables@[v as int].start_state < state);
                    }
                }
            }
            k = k + 1;
        }
        false
    }
}

/// The parts of the syntax grammar that lexing depends on.
#[derive(Debug)]
pub struct SyntaxGrammar {
    /// Symbols that may appear anywhere.
    pub extra_symbols: Vec<Symbol>,
    /// The token that stands in for keywords.
    pub word_token: Option<Symbol>,
}

} // verus!
