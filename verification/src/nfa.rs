//! Nondeterministic automata over characters, and a cursor that walks them.

use vstd::prelude::*;

use crate::character_set::CharacterSet;
use crate::sorted::{
    insert_sorted, lemma_distinct_bounded, lemma_members, lemma_sorted_unique, list_contains, members, strictly_sorted,
};

verus! {

/// A state of an automaton.
#[derive(Debug)]
pub enum NfaState {
    /// Reads one of `chars` and goes on to `state_id`.
    Advance { chars: CharacterSet, state_id: u32, is_sep: bool, precedence: i32 },
    /// Goes on to either state without reading anything.
    Split(u32, u32),
    /// Recognizes a variable of the lexical grammar.
    Accept { variable_index: usize, precedence: i32 },
}

/// An automaton.
#[derive(Debug)]
pub struct Nfa {
    pub states: Vec<NfaState>,
}

impl Nfa {
    /// Every state leads to states of the automaton, and state numbers fit in 32 bits.
    pub open spec fn wf(&self) -> bool {
        &&& self.states@.len() <= u32::MAX + 1
        &&& forall|i: int| 0 <= i < self.states@.len() ==> self.state_wf(#[trigger] self.states@[i])
    }

    /// The state leads to states of the automaton.
    pub open spec fn state_wf(&self, state: NfaState) -> bool {
        match state {
            NfaState::Advance { chars, state_id, .. } => chars.wf() && state_id < self.states@.len(),
            NfaState::Split(left, right) => left < self.states@.len() && right < self.states@.len(),
            NfaState::Accept { .. } => true,
        }
    }

    /// All the numbers are numbers of states.
    pub open spec fn are_states(&self, ids: Seq<u32>) -> bool {
        forall|i: int| 0 <= i < ids.len() ==> (#[trigger] ids[i]) < self.states@.len()
    }

    /// State `a` splits, and `b` is one of the two states it goes to.
    pub open spec fn splits_to(&self, a: u32, b: u32) -> bool {
        match self.states@[a as int] {
            NfaState::Split(left, right) => b == left || b == right,
            _ => false,
        }
    }

    /// Each state of the path splits to the next one.
    pub open spec fn is_split_path(&self, path: Seq<u32>) -> bool {
        &&& path.len() > 0
        &&& forall|i: int| 0 <= i < path.len() - 1 ==> #[trigger] self.splits_to(path[i], path[i + 1])
    }

    /// State `x` can be reached from one of `from` without reading anything.
    pub open spec fn reaches(&self, from: Set<u32>, x: u32) -> bool {
        exists|path: Seq<u32>| #[trigger] self.is_split_path(path) && from.contains(path[0]) && path.last() == x
    }

    /// State `x` does not split.
    pub open spec fn is_stop(&self, x: u32) -> bool {
        !(self.states@[x as int] is Split)
    }

    /// The states that read or recognize something and that can be reached from `from`
    /// without reading anything, in ascending order.
    pub open spec fn closure(&self, from: Set<u32>) -> Seq<u32> {
        members(self.states@.len(), |x: u32| self.is_stop(x) && self.reaches(from, x))
    }

    /// The members of a closure.
    pub proof fn lemma_closure(&self, from: Set<u32>)
        requires
            self.wf(),
        ensures
            strictly_sorted(self.closure(from)),
            self.are_states(self.closure(from)),
            forall|x: u32|
                #[trigger] self.closure(from).contains(x) <==> x < self.states@.len() && self.is_stop(x)
                    && self.reaches(from, x),
    {
        let p = |x: u32| self.is_stop(x) && self.reaches(from, x);
        lemma_members(self.states@.len(), p);
        let c = self.closure(from);
        assert forall|i: int| 0 <= i < c.len() implies (#[trigger] c[i]) < self.states@.len() by {
            assert(c.contains(c[i]));
        }
    }

    /// A path that follows a reachable state leads to a reachable state.
    proof fn lemma_reaches_step(&self, from: Set<u32>, a: u32, b: u32)
        requires
            self.reaches(from, a),
            self.splits_to(a, b),
        ensures
            self.reaches(from, b),
    {
        let path = choose|path: Seq<u32>|
            #[trigger] self.is_split_path(path) && from.contains(path[0]) && path.last() == a;
        let longer = path.push(b);
        assert forall|i: int| 0 <= i < longer.len() - 1 implies #[trigger] self.splits_to(longer[i], longer[i + 1]) by {
            if i < path.len() - 1 {
                assert(self.splits_to(path[i], path[i + 1]));
            }
        }
        assert(self.is_split_path(longer));
        assert(longer[0] == path[0]);
    }

    /// What a set that is closed under splitting has of a path's start, it has of its end.
    proof fn lemma_closed_under_paths(&self, set: Set<u32>, path: Seq<u32>)
        requires
            self.is_split_path(path),
            set.contains(path[0]),
            forall|a: u32, b: u32| set.contains(a) && #[trigger] self.splits_to(a, b) ==> set.contains(b),
        ensures
            set.contains(path.last()),
        decreases path.len(),
    {
        if path.len() > 1 {
            let front = path.drop_last();
            assert forall|i: int| 0 <= i < front.len() - 1 implies #[trigger] self.splits_to(front[i], front[i + 1]) by {
                assert(self.splits_to(path[i], path[i + 1]));
            }
            self.lemma_closed_under_paths(set, front);
            assert(self.splits_to(path[path.len() - 2], path[path.len() - 2 + 1]));
        }
    }
}

/// Adds the numbers of the states that splitting reaches from `ids`, and keeps those
/// that do not split.
pub fn compute_closure(nfa: &Nfa, ids: Vec<u32>) -> (r: Vec<u32>)
    requires
        nfa.wf(),
        nfa.are_states(ids@),
    ensures
        r@ == nfa.closure(ids@.to_set()),
{
    let ghost from = ids@.to_set();
    let ghost first = ids@.len();
    let mut list: Vec<u32> = ids;
    let mut result: Vec<u32> = Vec::new();
    let mut i: usize = 0;
    proof {
        assert forall|x: u32| list@.contains(x) implies nfa.reaches(from, x) by {
            let path = seq![x];
            assert(nfa.is_split_path(path));
            assert(from.contains(path[0]));
        }
    }
    while i < list.len()
        invariant
            nfa.wf(),
            i <= list@.len(),
            first <= list@.len(),
            nfa.are_states(list@),
            list@.skip(first as int).no_duplicates(),
            forall|x: u32| from.contains(x) ==> list@.contains(x),
            forall|x: u32| #[trigger] list@.contains(x) ==> nfa.reaches(from, x),
            forall|k: int, b: u32|
                #![trigger nfa.splits_to(list@[k], b)]
                0 <= k < i && nfa.splits_to(list@[k], b) ==> list@.contains(b),
            strictly_sorted(result@),
            forall|x: u32|
                #[trigger] result@.contains(x) <==> nfa.is_stop(x) && list@.take(i as int).contains(x),
        decreases first + nfa.states@.len() - i,
    {
        let id = list[i];
        let ghost before = list@;
        proof {
            assert(list@.contains(list@[i as int]));
            lemma_added_bounded(list@, first as int, nfa.states@.len());
            assert(nfa.state_wf(nfa.states@[id as int]));
        }
        match &nfa.states[id as usize] {
            NfaState::Split(left, right) => {
                assert(nfa.splits_to(id, *left) && nfa.splits_to(id, *right));
                proof {
                    nfa.lemma_reaches_step(from, id, *left);
                    nfa.lemma_reaches_step(from, id, *right);
                }
                add_new(&mut list, *left, Ghost(first as int));
                let ghost middle = list@;
                add_new(&mut list, *right, Ghost(first as int));
                proof {
                    assert(forall|k: int| 0 <= k < before.len() ==> list@[k] == before[k]);
                    assert forall|k: int, b: u32|
                        #![trigger nfa.splits_to(list@[k], b)]
                        0 <= k < i + 1 && nfa.splits_to(list@[k], b) implies list@.contains(b) by {
                        if k < i {
                            assert(nfa.splits_to(before[k], b));
                        }
                    }
                    assert(list@.take(i + 1) =~= before.take(i as int).push(id));
                    lemma_push_contains(before.take(i as int), id);
                    assert(!nfa.is_stop(id));
                }
            },
            _ => {
                insert_sorted(&mut result, id);
                proof {
                    assert(list@.take(i + 1) =~= before.take(i as int).push(id));
                    lemma_push_contains(before.take(i as int), id);
                    assert(nfa.is_stop(id));
                }
            },
        }
        i = i + 1;
    }
    proof {
        assert(list@.take(i as int) =~= list@);
        let all = list@.to_set();
        assert forall|a: u32, b: u32| all.contains(a) && #[trigger] nfa.splits_to(a, b) implies all.contains(b) by {
            let k = choose|k: int| 0 <= k < list@.len() && list@[k] == a;
            assert(nfa.splits_to(list@[k], b));
        }
        nfa.lemma_closure(from);
        assert forall|x: u32| #[trigger] result@.contains(x) <==> nfa.closure(from).contains(x) by {
            if result@.contains(x) {
                assert(list@.contains(x));
                let k = choose|k: int| 0 <= k < list@.len() && list@[k] == x;
                assert(list@[k] < nfa.states@.len());
            }
            if nfa.reaches(from, x) {
                let path = choose|path: Seq<u32>|
                    #[trigger] nfa.is_split_path(path) && from.contains(path[0]) && path.last() == x;
                nfa.lemma_closed_under_paths(all, path);
            }
        }
        lemma_sorted_unique(result@, nfa.closure(from));
    }
    result
}

proof fn lemma_push_contains(s: Seq<u32>, x: u32)
    ensures
        forall|y: u32| #[trigger] s.push(x).contains(y) <==> s.contains(y) || y == x,
{
    assert forall|y: u32| #[trigger] s.push(x).contains(y) <==> s.contains(y) || y == x by {
        if s.contains(y) {
            let k = choose|k: int| 0 <= k < s.len() && s[k] == y;
            assert(s.push(x)[k] == y);
        }
        assert(s.push(x)[s.len() as int] == x);
    }
}

/// The list stays short: what has been added to it are different states.
proof fn lemma_added_bounded(list: Seq<u32>, first: int, n: nat)
    requires
        0 <= first <= list.len(),
        list.skip(first).no_duplicates(),
        forall|i: int| 0 <= i < list.len() ==> (#[trigger] list[i]) < n,
    ensures
        list.len() <= first + n,
{
    let added = list.skip(first);
    assert forall|i: int| 0 <= i < added.len() implies (#[trigger] added[i]) < n by {
        assert(added[i] == list[first + i]);
    }
    lemma_distinct_bounded(added, n);
}

/// Adds a number to the end of a list unless the list has it.
fn add_new(list: &mut Vec<u32>, x: u32, first: Ghost<int>)
    requires
        0 <= first@ <= old(list)@.len(),
        old(list)@.skip(first@).no_duplicates(),
    ensures
        final(list)@ == (if old(list)@.contains(x) { old(list)@ } else { old(list)@.push(x) }),
        final(list)@.skip(first@).no_duplicates(),
        forall|y: u32| #[trigger] final(list)@.contains(y) <==> old(list)@.contains(y) || y == x,
{
    let ghost before = list@;
    if !list_contains(list, x) {
        list.push(x);
        proof {
            lemma_push_contains(before, x);
            let added = before.skip(first@);
            assert(list@.skip(first@) =~= added.push(x));
            assert forall|i: int| 0 <= i < added.len() implies added[i] != x by {
                assert(before[first@ + i] == added[i]);
            }
        }
    }
}

} // verus!
