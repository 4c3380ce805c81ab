//! A cursor over the states that an automaton can be in.

use vstd::prelude::*;

use crate::nfa::{compute_closure, Nfa, NfaState};
use crate::transitions::{
    any_separator, group_transitions, is_grouping, moves, transition_views, transitions_of, NfaTransition,
};

verus! {

/// The variables that the states `ids` recognize, each with its precedence.
pub open spec fn completions_of(nfa: &Nfa, ids: Seq<u32>) -> Seq<(usize, i32)>
    decreases ids.len(),
{
    if ids.len() == 0 {
        Seq::empty()
    } else {
        let front = completions_of(nfa, ids.drop_last());
        match nfa.states@[ids.last() as int] {
            NfaState::Accept { variable_index, precedence } => front.push((variable_index, precedence)),
            _ => front,
        }
    }
}

/// A set of states of an automaton.
#[derive(Debug)]
pub struct NfaCursor<'a> {
    pub nfa: &'a Nfa,
    pub state_ids: Vec<u32>,
}

impl<'a> NfaCursor<'a> {
    /// The cursor is on states of its automaton.
    pub open spec fn wf(&self) -> bool {
        self.nfa.wf() && self.nfa.are_states(self.state_ids@)
    }

    /// A cursor on the states that can be reached from `states` without reading
    /// anything.
    pub fn new(nfa: &'a Nfa, states: Vec<u32>) -> (r: Self)
        requires
            nfa.wf(),
            nfa.are_states(states@),
        ensures
            r.wf(),
            r.nfa == nfa,
            r.state_ids@ == nfa.closure(states@.to_set()),
    {
        let ghost from = states@.to_set();
        let state_ids = compute_closure(nfa, states);
        proof {
            nfa.lemma_closure(from);
        }
        NfaCursor { nfa, state_ids }
    }

    /// Puts the cursor on the states that can be reached from `states` without reading
    /// anything.
    pub fn reset(&mut self, states: Vec<u32>)
        requires
            old(self).nfa.wf(),
            old(self).nfa.are_states(states@),
        ensures
            final(self).wf(),
            final(self).nfa == old(self).nfa,
            final(self).state_ids@ == old(self).nfa.closure(states@.to_set()),
    {
        proof {
            self.nfa.lemma_closure(states@.to_set());
        }
        self.state_ids = compute_closure(self.nfa, states);
    }

    /// Puts the cursor on just the given states.
    pub fn force_reset(&mut self, states: Vec<u32>)
        requires
            old(self).nfa.wf(),
            old(self).nfa.are_states(states@),
        ensures
            final(self).wf(),
            final(self).nfa == old(self).nfa,
            final(self).state_ids@ == states@,
    {
        self.state_ids = states;
    }

    /// The transitions of the states under the cursor.
    pub fn transitions(&self) -> (r: Vec<NfaTransition>)
        requires
            self.wf(),
        ensures
            transition_views(r@) == transitions_of(self.nfa, self.state_ids@),
            is_grouping(moves(self.nfa, self.state_ids@), transition_views(r@)),
    {
        group_transitions(self.nfa, &self.state_ids).0
    }

    /// The transitions of the states under the cursor, and whether any of the states
    /// reads a separator.
    pub fn transitions_and_any_sep(&self) -> (r: (Vec<NfaTransition>, bool))
        requires
            self.wf(),
        ensures
            transition_views(r.0@) == transitions_of(self.nfa, self.state_ids@),
            is_grouping(moves(self.nfa, self.state_ids@), transition_views(r.0@)),
            r.1 == any_separator(moves(self.nfa, self.state_ids@)),
    {
        group_transitions(self.nfa, &self.state_ids)
    }

    /// The variables that the states under the cursor recognize.
    pub fn completions(&self) -> (r: Vec<(usize, i32)>)
        requires
            self.wf(),
        ensures
            r@ == completions_of(self.nfa, self.state_ids@),
    {
        let mut r: Vec<(usize, i32)> = Vec::new();
        let mut i: usize = 0;
        assert(self.state_ids@.take(0).len() == 0);
        while i < self.state_ids.len()
            invariant
                self.wf(),
                i <= self.state_ids@.len(),
                r@ == completions_of(self.nfa, self.state_ids@.take(i as int)),
            decreases self.state_ids.len() - i,
        {
            let id = self.state_ids[i];
            proof {
                assert(self.state_ids@.take(i + 1).drop_last() =~= self.state_ids@.take(i as int));
                assert(self.state_ids@.take(i + 1).last() == id);
                assert(self.state_ids@[i as int] < self.nfa.states@.len());
            }
            match &self.nfa.states[id as usize] {
                NfaState::Accept { variable_index, precedence } => {
                    r.push((*variable_index, *precedence));
                },
                _ => {},
            }
            i = i + 1;
        }
        assert(self.state_ids@.take(i as int) =~= self.state_ids@);
        r
    }
}

} // verus!
