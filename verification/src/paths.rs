//! The paths of an automaton, state by state, and how they make up its runs.

use vstd::prelude::*;

use crate::character_set::holds;
use crate::nfa::{Nfa, NfaState};
use crate::runs::{lemma_run, run};
use crate::transitions::{fires, goes_to, moves};

verus! {

/// One move of a single state: `a` goes to `b`, reading a code point or nothing.
pub open spec fn moves_to(nfa: &Nfa, a: u32, input: Option<int>, b: u32) -> bool {
    match nfa.states@[a as int] {
        NfaState::Advance { chars, state_id, .. } => input matches Some(c) && holds(chars@, c) && b == state_id,
        NfaState::Split(left, right) => input is None && (b == left || b == right),
        NfaState::Accept { .. } => false,
    }
}

/// The moves `trace`, one after the other, lead from `a` to `b`.
pub open spec fn walks(nfa: &Nfa, a: u32, trace: Seq<Option<int>>, b: u32) -> bool
    decreases trace.len(),
{
    if trace.len() == 0 {
        a == b
    } else {
        exists|m: u32| walks(nfa, a, trace.drop_last(), m) && #[trigger] moves_to(nfa, m, trace.last(), b)
    }
}

/// The text that the moves read.
pub open spec fn letters(trace: Seq<Option<int>>) -> Seq<int>
    decreases trace.len(),
{
    if trace.len() == 0 {
        Seq::empty()
    } else {
        match trace.last() {
            Some(c) => letters(trace.drop_last()).push(c),
            None => letters(trace.drop_last()),
        }
    }
}

/// The automaton can get from `a` to `b` by reading the text.
pub open spec fn spells(nfa: &Nfa, a: u32, text: Seq<int>, b: u32) -> bool {
    exists|trace: Seq<Option<int>>| #[trigger] walks(nfa, a, trace, b) && letters(trace) == text
}

/// The state reads something or recognizes a token.
pub open spec fn is_still(nfa: &Nfa, x: u32) -> bool {
    !(nfa.states@[x as int] is Split)
}

/// Nothing is read by staying where one is.
pub proof fn lemma_spells_nothing(nfa: &Nfa, a: u32)
    ensures
        spells(nfa, a, Seq::empty(), a),
{
    let none = Seq::<Option<int>>::empty();
    assert(walks(nfa, a, none, a));
    assert(letters(none) =~= Seq::empty());
}

/// One more move.
pub proof fn lemma_spells_move(nfa: &Nfa, a: u32, text: Seq<int>, m: u32, input: Option<int>, b: u32)
    requires
        spells(nfa, a, text, m),
        moves_to(nfa, m, input, b),
    ensures
        spells(
            nfa,
            a,
            match input {
                Some(c) => text.push(c),
                None => text,
            },
            b,
        ),
{
    let trace = choose|trace: Seq<Option<int>>| #[trigger] walks(nfa, a, trace, m) && letters(trace) == text;
    let longer = trace.push(input);
    assert(longer.drop_last() =~= trace);
    assert(longer.last() == input);
    assert(walks(nfa, a, longer, b));
}

/// Going on without reading.
pub proof fn lemma_spells_silently(nfa: &Nfa, a: u32, text: Seq<int>, m: u32, b: u32)
    requires
        spells(nfa, a, text, m),
        spells(nfa, m, Seq::empty(), b),
    ensures
        spells(nfa, a, text, b),
{
    let trace = choose|trace: Seq<Option<int>>|
        #[trigger] walks(nfa, m, trace, b) && letters(trace) == Seq::<int>::empty();
    lemma_silent_trace(nfa, a, text, m, trace, b);
}

proof fn lemma_silent_trace(nfa: &Nfa, a: u32, text: Seq<int>, m: u32, trace: Seq<Option<int>>, b: u32)
    requires
        spells(nfa, a, text, m),
        walks(nfa, m, trace, b),
        letters(trace).len() == 0,
    ensures
        spells(nfa, a, text, b),
    decreases trace.len(),
{
    if trace.len() > 0 {
        let n = choose|n: u32| walks(nfa, m, trace.drop_last(), n) && #[trigger] moves_to(nfa, n, trace.last(), b);
        assert(trace.last() is None);
        lemma_silent_trace(nfa, a, text, m, trace.drop_last(), n);
        lemma_spells_move(nfa, a, text, n, None, b);
    }
}

/// A path that reads a text and then `c` has a state that reads `c` on it.
pub proof fn lemma_last_reader(nfa: &Nfa, a: u32, text: Seq<int>, c: int, b: u32) -> (r: (u32, u32))
    requires
        spells(nfa, a, text.push(c), b),
    ensures
        spells(nfa, a, text, r.0),
        moves_to(nfa, r.0, Some(c), r.1),
        spells(nfa, r.1, Seq::empty(), b),
{
    let trace = choose|trace: Seq<Option<int>>| #[trigger] walks(nfa, a, trace, b) && letters(trace) == text.push(c);
    lemma_last_reader_in(nfa, a, text, c, trace, b)
}

proof fn lemma_last_reader_in(nfa: &Nfa, a: u32, text: Seq<int>, c: int, trace: Seq<Option<int>>, b: u32) -> (r: (u32, u32))
    requires
        walks(nfa, a, trace, b),
        letters(trace) == text.push(c),
    ensures
        spells(nfa, a, text, r.0),
        moves_to(nfa, r.0, Some(c), r.1),
        spells(nfa, r.1, Seq::empty(), b),
    decreases trace.len(),
{
    assert(text.push(c).len() > 0);
    let front = trace.drop_last();
    let m = choose|m: u32| walks(nfa, a, front, m) && #[trigger] moves_to(nfa, m, trace.last(), b);
    match trace.last() {
        Some(d) => {
            assert(letters(trace).last() == d);
            assert(letters(trace).drop_last() =~= letters(front));
            assert(text.push(c).drop_last() =~= text);
            assert(letters(front) == text);
            lemma_spells_nothing(nfa, b);
            (m, b)
        },
        None => {
            let r = lemma_last_reader_in(nfa, a, text, c, front, m);
            lemma_spells_move(nfa, r.1, Seq::empty(), m, None, b);
            r
        },
    }
}

/// Splitting is moving without reading.
proof fn lemma_split_path_spells(nfa: &Nfa, path: Seq<u32>)
    requires
        nfa.is_split_path(path),
    ensures
        spells(nfa, path[0], Seq::empty(), path.last()),
    decreases path.len(),
{
    if path.len() == 1 {
        lemma_spells_nothing(nfa, path[0]);
    } else {
        let front = path.drop_last();
        assert forall|i: int| 0 <= i < front.len() - 1 implies #[trigger] nfa.splits_to(front[i], front[i + 1]) by {
            assert(nfa.splits_to(path[i], path[i + 1]));
        }
        lemma_split_path_spells(nfa, front);
        let k = path.len() - 2;
        assert(nfa.splits_to(path[k], path[k + 1]));
        assert(moves_to(nfa, path[k], None, path[k + 1]));
        lemma_spells_move(nfa, path[0], Seq::empty(), path[k], None, path[k + 1]);
    }
}

proof fn lemma_silent_is_split_path(nfa: &Nfa, a: u32, trace: Seq<Option<int>>, b: u32) -> (path: Seq<u32>)
    requires
        walks(nfa, a, trace, b),
        letters(trace).len() == 0,
    ensures
        nfa.is_split_path(path),
        path[0] == a,
        path.last() == b,
    decreases trace.len(),
{
    if trace.len() == 0 {
        seq![a]
    } else {
        let m = choose|m: u32| walks(nfa, a, trace.drop_last(), m) && #[trigger] moves_to(nfa, m, trace.last(), b);
        let front = lemma_silent_is_split_path(nfa, a, trace.drop_last(), m);
        let path = front.push(b);
        assert forall|i: int| 0 <= i < path.len() - 1 implies #[trigger] nfa.splits_to(path[i], path[i + 1]) by {
            if i < front.len() - 1 {
                assert(nfa.splits_to(front[i], front[i + 1]));
            } else {
                assert(path[i] == m && path[i + 1] == b);
                assert(trace.last() is None);
            }
        }
        path
    }
}

/// A state is reached without reading where a silent path leads to it.
proof fn lemma_reaches(nfa: &Nfa, from: Set<u32>, x: u32)
    ensures
        nfa.reaches(from, x) <==> exists|s: u32| from.contains(s) && #[trigger] spells(nfa, s, Seq::empty(), x),
{
    if nfa.reaches(from, x) {
        let path = choose|path: Seq<u32>| #[trigger] nfa.is_split_path(path) && from.contains(path[0]) && path.last() == x;
        lemma_split_path_spells(nfa, path);
    }
    if exists|s: u32| from.contains(s) && #[trigger] spells(nfa, s, Seq::empty(), x) {
        let s = choose|s: u32| from.contains(s) && #[trigger] spells(nfa, s, Seq::empty(), x);
        let trace = choose|trace: Seq<Option<int>>|
            #[trigger] walks(nfa, s, trace, x) && letters(trace) == Seq::<int>::empty();
        let path = lemma_silent_is_split_path(nfa, s, trace, x);
        assert(nfa.is_split_path(path));
    }
}

/// The closure of a set has the still states that silent paths lead to.
pub proof fn lemma_closure_paths(nfa: &Nfa, from: Set<u32>, x: u32)
    requires
        nfa.wf(),
    ensures
        nfa.closure(from).contains(x) <==> x < nfa.states@.len() && is_still(nfa, x) && exists|s: u32|
            from.contains(s) && #[trigger] spells(nfa, s, Seq::empty(), x),
{
    nfa.lemma_closure(from);
    lemma_reaches(nfa, from, x);
}

/// Move `i` is that of state `x`.
pub open spec fn is_move_of(nfa: &Nfa, ids: Seq<u32>, i: int, x: u32) -> bool {
    &&& 0 <= i < moves(nfa, ids).len()
    &&& nfa.states@[x as int] matches NfaState::Advance { chars, state_id, is_sep, precedence }
    &&& moves(nfa, ids)[i].characters == chars@
    &&& moves(nfa, ids)[i].state == state_id
    &&& moves(nfa, ids)[i].is_separator == is_sep
    &&& moves(nfa, ids)[i].precedence == precedence
}

/// Each move is that of one of the states.
pub proof fn lemma_move_state(nfa: &Nfa, ids: Seq<u32>, i: int) -> (x: u32)
    requires
        0 <= i < moves(nfa, ids).len(),
    ensures
        ids.contains(x),
        is_move_of(nfa, ids, i, x),
    decreases ids.len(),
{
    let front = ids.drop_last();
    let last = ids.last();
    assert(ids[ids.len() - 1] == last);
    if i < moves(nfa, front).len() {
        let x = lemma_move_state(nfa, front, i);
        let k = choose|k: int| 0 <= k < front.len() && front[k] == x;
        assert(ids[k] == x);
        assert(moves(nfa, ids)[i] == moves(nfa, front)[i]);
        x
    } else {
        last
    }
}

/// Each of the states that reads something has a move.
pub proof fn lemma_state_move(nfa: &Nfa, ids: Seq<u32>, x: u32) -> (i: int)
    requires
        ids.contains(x),
        nfa.states@[x as int] is Advance,
    ensures
        is_move_of(nfa, ids, i, x),
    decreases ids.len(),
{
    let front = ids.drop_last();
    let k = choose|k: int| 0 <= k < ids.len() && ids[k] == x;
    if k < front.len() {
        assert(front[k] == x);
        let i = lemma_state_move(nfa, front, x);
        assert(moves(nfa, ids)[i] == moves(nfa, front)[i]);
        i
    } else {
        moves(nfa, front).len() as int
    }
}

/// Some state among `ids` goes to `y` by reading `c` just where a move does.
proof fn lemma_goes_to(nfa: &Nfa, ids: Seq<u32>, c: int, y: u32)
    ensures
        goes_to(moves(nfa, ids), c, y) <==> exists|z: u32| ids.contains(z) && #[trigger] moves_to(nfa, z, Some(c), y),
{
    let ms = moves(nfa, ids);
    if goes_to(ms, c, y) {
        let i = choose|i: int| #[trigger] fires(ms, i, c) && ms[i].state == y;
        let z = lemma_move_state(nfa, ids, i);
        assert(moves_to(nfa, z, Some(c), y));
    }
    if exists|z: u32| ids.contains(z) && #[trigger] moves_to(nfa, z, Some(c), y) {
        let z = choose|z: u32| ids.contains(z) && #[trigger] moves_to(nfa, z, Some(c), y);
        let i = lemma_state_move(nfa, ids, z);
        assert(fires(ms, i, c));
    }
}

/// Where moves and silent paths lead stays within the automaton.
pub proof fn lemma_spells_wf(nfa: &Nfa, a: u32, text: Seq<int>, b: u32)
    requires
        nfa.wf(),
        a < nfa.states@.len(),
        spells(nfa, a, text, b),
    ensures
        b < nfa.states@.len(),
{
    let trace = choose|trace: Seq<Option<int>>| #[trigger] walks(nfa, a, trace, b) && letters(trace) == text;
    lemma_walks_wf(nfa, a, trace, b);
}

proof fn lemma_walks_wf(nfa: &Nfa, a: u32, trace: Seq<Option<int>>, b: u32)
    requires
        nfa.wf(),
        a < nfa.states@.len(),
        walks(nfa, a, trace, b),
    ensures
        b < nfa.states@.len(),
    decreases trace.len(),
{
    if trace.len() > 0 {
        let m = choose|m: u32| walks(nfa, a, trace.drop_last(), m) && #[trigger] moves_to(nfa, m, trace.last(), b);
        lemma_walks_wf(nfa, a, trace.drop_last(), m);
        assert(nfa.state_wf(nfa.states@[m as int]));
    }
}

/// Some path leads from one of `from` to `x` by reading the text.
pub open spec fn spelled_from(nfa: &Nfa, from: Set<u32>, text: Seq<int>, x: u32) -> bool {
    exists|s: u32| from.contains(s) && #[trigger] spells(nfa, s, text, x)
}

/// A run goes through the still states that paths lead to.
pub proof fn lemma_run_paths(nfa: &Nfa, from: Set<u32>, text: Seq<int>, x: u32)
    requires
        nfa.wf(),
        forall|s: u32| from.contains(s) ==> s < nfa.states@.len(),
    ensures
        run(nfa, nfa.closure(from), text).contains(x) <==> x < nfa.states@.len() && is_still(nfa, x) && spelled_from(
            nfa,
            from,
            text,
            x,
        ),
    decreases text.len(),
{
    if text.len() == 0 {
        assert(text =~= Seq::empty());
        lemma_closure_paths(nfa, from, x);
    } else {
        let front = text.drop_last();
        let c = text.last();
        assert(front.push(c) =~= text);
        let ids = run(nfa, nfa.closure(from), front);
        let next = Set::new(|y: u32| goes_to(moves(nfa, ids), c, y));
        assert(run(nfa, nfa.closure(from), text) == nfa.closure(next));
        lemma_closure_paths(nfa, next, x);
        nfa.lemma_closure(from);
        lemma_run(nfa, nfa.closure(from), front);
        if nfa.closure(next).contains(x) {
            let y = choose|y: u32| next.contains(y) && #[trigger] spells(nfa, y, Seq::empty(), x);
            lemma_goes_to(nfa, ids, c, y);
            let z = choose|z: u32| ids.contains(z) && #[trigger] moves_to(nfa, z, Some(c), y);
            lemma_run_paths(nfa, from, front, z);
            let s = choose|s: u32| from.contains(s) && #[trigger] spells(nfa, s, front, z);
            lemma_spells_move(nfa, s, front, z, Some(c), y);
            lemma_spells_silently(nfa, s, text, y, x);
            assert(spells(nfa, s, text, x));
        }
        if x < nfa.states@.len() && is_still(nfa, x) && spelled_from(nfa, from, text, x) {
            let s = choose|s: u32| from.contains(s) && #[trigger] spells(nfa, s, text, x);
            let (z, y) = lemma_last_reader(nfa, s, front, c, x);
            assert(nfa.states@[z as int] is Advance);
            lemma_spells_wf(nfa, s, front, z);
            lemma_run_paths(nfa, from, front, z);
            assert(spelled_from(nfa, from, front, z));
            lemma_goes_to(nfa, ids, c, y);
            assert(next.contains(y));
        }
    }
}

} // verus!
