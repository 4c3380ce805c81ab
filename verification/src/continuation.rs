//! How a word can go on after a keyword.

use vstd::prelude::*;

use crate::character_set::{holds, CharRange, CharacterSet};
use crate::cursor::NfaCursor;
use crate::grammars::LexicalGrammar;
use crate::hashing::{insert_pair, new_pair_set, pairs_in};
use crate::nfa::{Nfa, NfaState};
use crate::transitions::{
    can_move, covered, describes, fires, goes_to, is_grouping, moves, transition_views, transitions_of, NfaTransition,
    Transition,
};

verus! {

/// How many pairs of state sets a search looks at before it gives up.
pub const SEARCH_BUDGET: usize = 10_000;

/// The states that the automaton can be in when it starts to read a variable.
pub open spec fn start_set(g: &LexicalGrammar, variable: int) -> Seq<u32> {
    g.nfa.closure(Set::empty().insert(g.variables@[variable].start_state))
}

/// One of the states recognizes the variable.
pub open spec fn completes(g: &LexicalGrammar, variable: int, ids: Seq<u32>) -> bool {
    exists|i: int| 0 <= i < ids.len() && recognizes(g, #[trigger] ids[i], variable)
}

/// The state recognizes the variable.
pub open spec fn recognizes(g: &LexicalGrammar, id: u32, variable: int) -> bool {
    match g.nfa.states@[id as int] {
        NfaState::Accept { variable_index, .. } => variable_index == variable,
        _ => false,
    }
}

/// Some character is in both sets.
pub open spec fn meet(a: Seq<CharRange>, b: Seq<CharRange>) -> bool {
    exists|c: int| #[trigger] holds(a, c) && holds(b, c)
}

/// Where the two state sets go together by the transition `wt` of the one and those of
/// `kts` that have a character in common with it.
pub open spec fn pairs_for(nfa: &Nfa, wt: Transition, kts: Seq<Transition>) -> Seq<(Seq<u32>, Seq<u32>)>
    decreases kts.len(),
{
    if kts.len() == 0 {
        Seq::empty()
    } else {
        let front = pairs_for(nfa, wt, kts.drop_last());
        if meet(wt.characters, kts.last().characters) {
            front.push((nfa.closure(wt.states.to_set()), nfa.closure(kts.last().states.to_set())))
        } else {
            front
        }
    }
}

/// Where two state sets go together by reading the same character.
pub open spec fn joint_pairs(nfa: &Nfa, wts: Seq<Transition>, kts: Seq<Transition>) -> Seq<(Seq<u32>, Seq<u32>)>
    decreases wts.len(),
{
    if wts.len() == 0 {
        Seq::empty()
    } else {
        joint_pairs(nfa, wts.drop_last(), kts) + pairs_for(nfa, wts.last(), kts)
    }
}

/// Where a pair of state sets goes by reading one character.
pub open spec fn next_pairs(nfa: &Nfa, pair: (Seq<u32>, Seq<u32>)) -> Seq<(Seq<u32>, Seq<u32>)> {
    joint_pairs(nfa, transitions_of(nfa, pair.0), transitions_of(nfa, pair.1))
}

/// The characters that some of the states read.
pub open spec fn readable(nfa: &Nfa, ids: Seq<u32>) -> Set<int> {
    Set::new(|c: int| can_move(moves(nfa, ids), c))
}

/// What a pair of state sets contributes: if the second set completes the keyword, the
/// characters that the first set reads.
pub open spec fn contribution(g: &LexicalGrammar, keyword: int, pair: (Seq<u32>, Seq<u32>)) -> Set<int> {
    if completes(g, keyword, pair.1) {
        readable(&g.nfa, pair.0)
    } else {
        Set::empty()
    }
}

/// The characters that a depth-first search finds within its budget. `stack` holds the
/// pairs of state sets that are left to look at, the next one last.
pub open spec fn search(
    g: &LexicalGrammar,
    keyword: int,
    stack: Seq<(Seq<u32>, Seq<u32>)>,
    visited: Set<(Seq<u32>, Seq<u32>)>,
    found: Set<int>,
    budget: nat,
) -> Set<int>
    decreases budget,
{
    if stack.len() == 0 || budget == 0 {
        found
    } else if visited.contains(stack.last()) {
        search(g, keyword, stack.drop_last(), visited, found, (budget - 1) as nat)
    } else {
        search(
            g,
            keyword,
            stack.drop_last() + next_pairs(&g.nfa, stack.last()),
            visited.insert(stack.last()),
            found.union(contribution(g, keyword, stack.last())),
            (budget - 1) as nat,
        )
    }
}

/// The search looks at everything there is before its budget runs out.
pub open spec fn search_ends(
    g: &LexicalGrammar,
    stack: Seq<(Seq<u32>, Seq<u32>)>,
    visited: Set<(Seq<u32>, Seq<u32>)>,
    budget: nat,
) -> bool
    decreases budget,
{
    if stack.len() == 0 {
        true
    } else if budget == 0 {
        false
    } else if visited.contains(stack.last()) {
        search_ends(g, stack.drop_last(), visited, (budget - 1) as nat)
    } else {
        search_ends(
            g,
            stack.drop_last() + next_pairs(&g.nfa, stack.last()),
            visited.insert(stack.last()),
            (budget - 1) as nat,
        )
    }
}

/// Where the search for the continuations of a keyword starts.
pub open spec fn search_start(g: &LexicalGrammar, word: int, keyword: int) -> Seq<(Seq<u32>, Seq<u32>)> {
    seq![(start_set(g, word), start_set(g, keyword))]
}

/// The characters by which the word token is found to go on after the keyword.
pub open spec fn continuation_chars(g: &LexicalGrammar, word: int, keyword: int) -> Set<int> {
    search(g, keyword, search_start(g, word, keyword), Set::empty(), Set::empty(), SEARCH_BUDGET as nat)
}

/// The views of a stack of pairs.
spec fn pair_views(stack: Seq<(Vec<u32>, Vec<u32>)>) -> Seq<(Seq<u32>, Seq<u32>)> {
    Seq::new(stack.len(), |i: int| (stack[i].0@, stack[i].1@))
}

/// The states of every pair are states of the automaton.
spec fn pairs_wf(nfa: &Nfa, stack: Seq<(Vec<u32>, Vec<u32>)>) -> bool {
    forall|i: int| 0 <= i < stack.len() ==> nfa.are_states((#[trigger] stack[i]).0@) && nfa.are_states(stack[i].1@)
}

/// Whether one of the states recognizes the variable.
fn any_completes(g: &LexicalGrammar, variable: usize, ids: &Vec<u32>) -> (r: bool)
    requires
        g.nfa.are_states(ids@),
    ensures
        r == completes(g, variable as int, ids@),
{
    let mut i: usize = 0;
    while i < ids.len()
        invariant
            i <= ids@.len(),
            g.nfa.are_states(ids@),
            forall|k: int| 0 <= k < i ==> !recognizes(g, #[trigger] ids@[k], variable as int),
        decreases ids.len() - i,
    {
        assert(ids@[i as int] < g.nfa.states@.len());
        match &g.nfa.states[ids[i] as usize] {
            NfaState::Accept { variable_index, .. } => {
                if *variable_index == variable {
                    assert(recognizes(g, ids@[i as int], variable as int));
                    return true;
                }
            },
            _ => {},
        }
        i = i + 1;
    }
    false
}

/// The targets of a transition are states of the automaton.
pub proof fn lemma_transition_states(nfa: &Nfa, ids: Seq<u32>, ts: Seq<Transition>)
    requires
        nfa.wf(),
        nfa.are_states(ids),
        is_grouping(moves(nfa, ids), ts),
    ensures
        forall|k: int| 0 <= k < ts.len() ==> nfa.are_states((#[trigger] ts[k]).states),
{
    let ms = moves(nfa, ids);
    lemma_move_targets(nfa, ids);
    assert forall|k: int| 0 <= k < ts.len() implies nfa.are_states((#[trigger] ts[k]).states) by {
        let t = ts[k];
        let c = t.characters[0].start as int;
        assert(t.characters[0].start <= c < t.characters[0].end);
        assert(holds(ts[k].characters, c));
        assert forall|i: int| 0 <= i < t.states.len() implies (#[trigger] t.states[i]) < nfa.states@.len() by {
            assert(t.states.contains(t.states[i]));
            assert(goes_to(ms, c, t.states[i]));
        }
    }
}

proof fn lemma_move_targets(nfa: &Nfa, ids: Seq<u32>)
    requires
        nfa.wf(),
        nfa.are_states(ids),
    ensures
        forall|i: int| 0 <= i < moves(nfa, ids).len() ==> (#[trigger] moves(nfa, ids)[i]).state < nfa.states@.len(),
    decreases ids.len(),
{
    if ids.len() > 0 {
        let front = ids.drop_last();
        assert forall|i: int| 0 <= i < front.len() implies (#[trigger] front[i]) < nfa.states@.len() by {
            assert(front[i] == ids[i]);
        }
        lemma_move_targets(nfa, front);
        assert(ids[ids.len() - 1] < nfa.states@.len());
        assert(nfa.state_wf(nfa.states@[ids.last() as int]));
        let ms = moves(nfa, ids);
        let fs = moves(nfa, front);
        assert forall|i: int| 0 <= i < ms.len() implies (#[trigger] ms[i]).state < nfa.states@.len() by {
            if i < fs.len() {
                assert(ms[i] == fs[i]);
            }
        }
    }
}

/// Pushes where the two state sets go together.
fn push_joint_pairs(
    nfa: &Nfa,
    wts: &Vec<NfaTransition>,
    kts: &Vec<NfaTransition>,
    w_cursor: &mut NfaCursor,
    k_cursor: &mut NfaCursor,
    stack: &mut Vec<(Vec<u32>, Vec<u32>)>,
)
    requires
        nfa.wf(),
        old(w_cursor).nfa == nfa,
        old(k_cursor).nfa == nfa,
        pairs_wf(nfa, old(stack)@),
        forall|i: int| 0 <= i < wts@.len() ==> nfa.are_states((#[trigger] wts@[i]).states@) && wts@[i].characters.wf(),
        forall|i: int| 0 <= i < kts@.len() ==> nfa.are_states((#[trigger] kts@[i]).states@) && kts@[i].characters.wf(),
    ensures
        final(w_cursor).nfa == nfa,
        final(k_cursor).nfa == nfa,
        pairs_wf(nfa, final(stack)@),
        pair_views(final(stack)@) == pair_views(old(stack)@) + joint_pairs(
            nfa,
            transition_views(wts@),
            transition_views(kts@),
        ),
{
    let ghost before = pair_views(stack@);
    let ghost ws = transition_views(wts@);
    let ghost ks = transition_views(kts@);
    let mut i: usize = 0;
    assert(ws.take(0).len() == 0);
    assert(before + joint_pairs(nfa, ws.take(0), ks) =~= before);
    while i < wts.len()
        invariant
            nfa.wf(),
            w_cursor.nfa == nfa,
            k_cursor.nfa == nfa,
            pairs_wf(nfa, stack@),
            i <= wts@.len(),
            ws == transition_views(wts@),
            ks == transition_views(kts@),
            forall|i: int| 0 <= i < wts@.len() ==> nfa.are_states((#[trigger] wts@[i]).states@) && wts@[i].characters.wf(),
            forall|i: int| 0 <= i < kts@.len() ==> nfa.are_states((#[trigger] kts@[i]).states@) && kts@[i].characters.wf(),
            pair_views(stack@) == before + joint_pairs(nfa, ws.take(i as int), ks),
        decreases wts.len() - i,
    {
        let wt = &wts[i];
        let ghost middle = pair_views(stack@);
        let ghost w = ws[i as int];
        let mut j: usize = 0;
        assert(ks.take(0).len() == 0);
        assert(middle + pairs_for(nfa, w, ks.take(0)) =~= middle);
        while j < kts.len()
            invariant
                nfa.wf(),
                w_cursor.nfa == nfa,
                k_cursor.nfa == nfa,
                pairs_wf(nfa, stack@),
                i < wts@.len(),
                j <= kts@.len(),
                ws == transition_views(wts@),
                ks == transition_views(kts@),
                *wt == wts@[i as int],
                w == wt@,
                forall|i: int| 0 <= i < wts@.len() ==> nfa.are_states((#[trigger] wts@[i]).states@) && wts@[i].characters.wf(),
                forall|i: int| 0 <= i < kts@.len() ==> nfa.are_states((#[trigger] kts@[i]).states@) && kts@[i].characters.wf(),
                pair_views(stack@) == middle + pairs_for(nfa, w, ks.take(j as int)),
            decreases kts.len() - j,
        {
            let kt = &kts[j];
            let ghost k = ks[j as int];
            let ghost earlier = pair_views(stack@);
            proof {
                assert(k == kt@);
                assert(ks.take(j + 1).drop_last() =~= ks.take(j as int));
                assert(ks.take(j + 1).last() == k);
            }
            let mut wc = wt.characters.clone();
            let mut kc = kt.characters.clone();
            let shared = wc.remove_intersection(&mut kc);
            if !shared.is_empty() {
                w_cursor.reset(wt.states.clone());
                k_cursor.reset(kt.states.clone());
                let pair = (w_cursor.state_ids.clone(), k_cursor.state_ids.clone());
                let ghost old_stack = stack@;
                stack.push(pair);
                proof {
                    let c = shared@[0].start as int;
                    assert(holds(shared@, c));
                    assert(holds(w.characters, c) && holds(k.characters, c));
                    assert(meet(w.characters, k.characters));
                    assert(pair_views(stack@) =~= earlier.push((pair.0@, pair.1@)));
                    assert(pair_views(stack@) =~= middle + pairs_for(nfa, w, ks.take(j + 1)));
                    assert forall|m: int| 0 <= m < stack@.len() implies nfa.are_states((#[trigger] stack@[m]).0@)
                        && nfa.are_states(stack@[m].1@) by {
                        if m < old_stack.len() {
                            assert(stack@[m] == old_stack[m]);
                        }
                    }
                }
            } else {
                proof {
                    if meet(w.characters, k.characters) {
                        let c = choose|c: int| #[trigger] holds(w.characters, c) && holds(k.characters, c);
                        assert(holds(shared@, c));
                    }
                }
            }
            j = j + 1;
        }
        proof {
            assert(ks.take(j as int) =~= ks);
            assert(ws.take(i + 1).drop_last() =~= ws.take(i as int));
            assert(ws.take(i + 1).last() == w);
            assert(pair_views(stack@) =~= before + joint_pairs(nfa, ws.take(i + 1), ks));
        }
        i = i + 1;
    }
    assert(ws.take(i as int) =~= ws);
}

/// The characters by which the word token can go on where a whole keyword has been
/// read: those that follow some spelling of the keyword in a longer word.
///
/// The search for them stops after a fixed number of steps. What it has found until
/// then is returned.
pub fn word_continuation_chars(grammar: &LexicalGrammar, w_index: usize, k_index: usize) -> (r: CharacterSet)
    requires
        grammar.wf(),
        w_index < grammar.variables@.len(),
        k_index < grammar.variables@.len(),
    ensures
        r.wf(),
        forall|c: int| holds(r@, c) <==> continuation_chars(grammar, w_index as int, k_index as int).contains(c),
{
    let nfa = &grammar.nfa;
    let ghost target = continuation_chars(grammar, w_index as int, k_index as int);
    let ghost keyword = k_index as int;
    assert(grammar.variables@[w_index as int].start_state < nfa.states@.len());
    assert(grammar.variables@[k_index as int].start_state < nfa.states@.len());
    let mut w_start: Vec<u32> = Vec::new();
    w_start.push(grammar.variables[w_index].start_state);
    let mut k_start: Vec<u32> = Vec::new();
    k_start.push(grammar.variables[k_index].start_state);
    proof {
        assert(w_start@.to_set() =~= Set::empty().insert(w_start@[0])) by {
            assert forall|x: u32| w_start@.to_set().contains(x) implies x == w_start@[0] by {}
            assert(w_start@.contains(w_start@[0]));
        }
        assert(k_start@.to_set() =~= Set::empty().insert(k_start@[0])) by {
            assert forall|x: u32| k_start@.to_set().contains(x) implies x == k_start@[0] by {}
            assert(k_start@.contains(k_start@[0]));
        }
    }
    let mut w_cursor = NfaCursor::new(nfa, w_start);
    let mut k_cursor = NfaCursor::new(nfa, k_start);
    let mut result = CharacterSet::empty();
    let mut visited = new_pair_set();
    let mut stack: Vec<(Vec<u32>, Vec<u32>)> = Vec::new();
    stack.push((w_cursor.state_ids.clone(), k_cursor.state_ids.clone()));
    let mut budget: usize = SEARCH_BUDGET;
    let ghost mut found: Set<int> = Set::empty();
    proof {
        assert(pair_views(stack@) =~= search_start(grammar, w_index as int, keyword));
    }
    while stack.len() > 0 && budget > 0
        invariant
            grammar.wf(),
            *nfa == grammar.nfa,
            keyword == k_index as int,
            w_cursor.nfa == nfa,
            k_cursor.nfa == nfa,
            result.wf(),
            pairs_wf(nfa, stack@),
            forall|c: int| #[trigger] holds(result@, c) <==> found.contains(c),
            target == search(grammar, keyword, pair_views(stack@), pairs_in(visited), found, budget as nat),
        decreases budget,
    {
        let ghost old_stack = stack@;
        let ghost old_views = pair_views(stack@);
        let n = stack.len();
        let (ws, ks) = stack.remove(n - 1);
        let ghost pair = (ws@, ks@);
        proof {
            assert(old_views.last() == pair);
            assert(pair_views(stack@) =~= old_views.drop_last());
            assert(nfa.are_states(old_stack[n - 1].0@) && nfa.are_states(old_stack[n - 1].1@));
            assert forall|m: int| 0 <= m < stack@.len() implies nfa.are_states((#[trigger] stack@[m]).0@) && nfa.are_states(
                stack@[m].1@,
            ) by {
                assert(stack@[m] == old_stack[m]);
            }
        }
        budget = budget - 1;
        let ghost old_visited = pairs_in(visited);
        if insert_pair(&mut visited, (ws.clone(), ks.clone())) {
            let k_complete = any_completes(grammar, k_index, &ks);
            w_cursor.force_reset(ws);
            let w_transitions = w_cursor.transitions();
            k_cursor.force_reset(ks);
            let k_transitions = k_cursor.transitions();
            proof {
                lemma_transition_states(nfa, pair.0, transition_views(w_transitions@));
                lemma_transition_states(nfa, pair.1, transition_views(k_transitions@));
                assert forall|i: int| 0 <= i < w_transitions@.len() implies nfa.are_states(
                    (#[trigger] w_transitions@[i]).states@,
                ) && w_transitions@[i].characters.wf() by {
                    assert(nfa.are_states(transition_views(w_transitions@)[i].states));
                }
                assert forall|i: int| 0 <= i < k_transitions@.len() implies nfa.are_states(
                    (#[trigger] k_transitions@[i]).states@,
                ) && k_transitions@[i].characters.wf() by {
                    assert(nfa.are_states(transition_views(k_transitions@)[i].states));
                }
            }
            if k_complete {
                let ghost earlier = result@;
                result = add_characters(result, &w_transitions);
                proof {
                    lemma_readable(nfa, pair.0, transition_views(w_transitions@));
                }
            }
            proof {
                found = found.union(contribution(grammar, keyword, pair));
            }
            push_joint_pairs(nfa, &w_transitions, &k_transitions, &mut w_cursor, &mut k_cursor, &mut stack);
            proof {
                assert(pair_views(stack@) == old_views.drop_last() + next_pairs(&grammar.nfa, pair));
            }
        } else {
            assert(pairs_in(visited) =~= old_visited);
        }
    }
    result
}

/// The characters of a grouping are those that can be read.
proof fn lemma_readable(nfa: &Nfa, ids: Seq<u32>, ts: Seq<Transition>)
    requires
        is_grouping(moves(nfa, ids), ts),
    ensures
        forall|c: int| #[trigger] covered(ts, c) <==> readable(nfa, ids).contains(c),
{
    let ms = moves(nfa, ids);
    assert forall|c: int| #[trigger] covered(ts, c) <==> readable(nfa, ids).contains(c) by {
        if covered(ts, c) {
            let k = choose|k: int| 0 <= k < ts.len() && #[trigger] holds(ts[k].characters, c);
            assert(describes(ms, c, ts[k]));
            let i = choose|i: int| #[trigger] fires(ms, i, c) && ms[i].precedence == ts[k].precedence;
            assert(can_move(ms, c));
        }
        if can_move(ms, c) {
            assert(covered(ts, c));
        }
    }
}

/// Adds the characters of all the transitions.
fn add_characters(set: CharacterSet, ts: &Vec<NfaTransition>) -> (r: CharacterSet)
    requires
        set.wf(),
        forall|i: int| 0 <= i < ts@.len() ==> (#[trigger] ts@[i]).characters.wf(),
    ensures
        r.wf(),
        forall|c: int| #[trigger] holds(r@, c) <==> holds(set@, c) || covered(transition_views(ts@), c),
{
    let ghost before = set@;
    let ghost views = transition_views(ts@);
    let mut r = set;
    let mut i: usize = 0;
    assert(forall|c: int| !covered(views.take(0), c));
    while i < ts.len()
        invariant
            i <= ts@.len(),
            r.wf(),
            views == transition_views(ts@),
            forall|i: int| 0 <= i < ts@.len() ==> (#[trigger] ts@[i]).characters.wf(),
            forall|c: int| #[trigger] holds(r@, c) <==> holds(before, c) || covered(views.take(i as int), c),
        decreases ts.len() - i,
    {
        let ghost old_r = r@;
        r = r.add(&ts[i].characters);
        proof {
            let a = views.take(i as int);
            let b = views.take(i + 1);
            assert forall|c: int| #[trigger] holds(r@, c) <==> holds(before, c) || covered(b, c) by {
                assert(holds(old_r, c) <==> holds(before, c) || covered(a, c));
                if covered(a, c) {
                    let k = choose|k: int| 0 <= k < a.len() && #[trigger] holds(a[k].characters, c);
                    assert(holds(b[k].characters, c));
                }
                if holds(ts@[i as int].characters@, c) {
                    assert(holds(b[i as int].characters, c));
                }
                if covered(b, c) {
                    let k = choose|k: int| 0 <= k < b.len() && #[trigger] holds(b[k].characters, c);
                    if k < i {
                        assert(holds(a[k].characters, c));
                    }
                }
            }
        }
        i = i + 1;
    }
    assert(views.take(i as int) =~= views);
    r
}

} // verus!
