//! What the characters that continue a keyword mean, in terms of texts.

use vstd::prelude::*;

use crate::character_set::holds;
use crate::continuation::{
    completes, continuation_chars, contribution, joint_pairs, meet, next_pairs, pairs_for, readable, recognizes, search,
    search_ends, search_start, start_set, SEARCH_BUDGET,
};
use crate::grammars::LexicalGrammar;
use crate::nfa::{Nfa, NfaState};
use crate::paths::{
    is_still, lemma_move_state, lemma_run_paths, lemma_spells_wf, lemma_state_move, spelled_from, spells,
};
use crate::runs::{lemma_run, lemma_step, lemma_transition_is_step, lemma_transitions_of, run, step};
use crate::transitions::{can_move, covered, fires, moves, transitions_of, Transition};

verus! {

/// Some text is a spelling of the keyword, and the word token can go on with `c` after
/// it.
pub open spec fn extends_keyword(g: &LexicalGrammar, word: int, keyword: int, c: int) -> bool {
    exists|text: Seq<int>| #[trigger] extends_text(g, word, keyword, text, c)
}

/// The text is a spelling of the keyword, and the word token can go on with `c` after
/// it.
pub open spec fn extends_text(g: &LexicalGrammar, word: int, keyword: int, text: Seq<int>, c: int) -> bool {
    &&& completes(g, keyword, run(&g.nfa, start_set(g, keyword), text))
    &&& can_move(moves(&g.nfa, run(&g.nfa, start_set(g, word), text)), c)
}

/// The text leads from the start state of the token to a state that recognizes it.
pub open spec fn is_spelling(g: &LexicalGrammar, token: int, text: Seq<int>) -> bool {
    exists|x: u32|
        #[trigger] spells(&g.nfa, g.variables@[token].start_state, text, x) && (
        g.nfa.states@[x as int] matches NfaState::Accept { variable_index, .. } && variable_index == token)
}

/// The text leads from the start state of the token to a state that can read `c`.
pub open spec fn can_go_on(g: &LexicalGrammar, token: int, text: Seq<int>, c: int) -> bool {
    exists|x: u32|
        #[trigger] spells(&g.nfa, g.variables@[token].start_state, text, x) && (
        g.nfa.states@[x as int] matches NfaState::Advance { chars, .. } && holds(chars@, c))
}

/// Paths of the automaton spell the keyword with some text, and lead with it from the
/// start of the word token to a state that can read `c`.
pub open spec fn continues_keyword(g: &LexicalGrammar, word: int, keyword: int, c: int) -> bool {
    exists|text: Seq<int>| #[trigger] is_spelling(g, keyword, text) && can_go_on(g, word, text, c)
}

/// Paths of the automaton spell the keyword with some text that is shorter than `limit`,
/// and lead with it from the start of the word token to a state that can read `c`.
pub open spec fn continues_keyword_within(g: &LexicalGrammar, word: int, keyword: int, c: int, limit: nat) -> bool {
    exists|text: Seq<int>|
        #[trigger] is_spelling(g, keyword, text) && can_go_on(g, word, text, c) && text.len() < limit
}

/// After some text that is shorter than `limit`, the runs from the start states complete
/// the keyword and can go on with `c`.
spec fn runs_extend(g: &LexicalGrammar, word: int, keyword: int, c: int, limit: nat) -> bool {
    exists|text: Seq<int>| #[trigger] extends_text(g, word, keyword, text, c) && text.len() < limit
}

/// The run from the start state of a token, in terms of paths.
proof fn lemma_token_run(g: &LexicalGrammar, token: int, text: Seq<int>, x: u32)
    requires
        g.wf(),
        0 <= token < g.variables@.len(),
    ensures
        run(&g.nfa, start_set(g, token), text).contains(x) <==> is_still(&g.nfa, x) && spells(
            &g.nfa,
            g.variables@[token].start_state,
            text,
            x,
        ),
{
    let s = g.variables@[token].start_state;
    let from = Set::<u32>::empty().insert(s);
    assert(s < g.nfa.states@.len());
    lemma_run_paths(&g.nfa, from, text, x);
    if spelled_from(&g.nfa, from, text, x) {
        let r = choose|r: u32| from.contains(r) && #[trigger] spells(&g.nfa, r, text, x);
        assert(r == s);
    }
    if spells(&g.nfa, s, text, x) {
        assert(from.contains(s));
        lemma_spells_wf(&g.nfa, s, text, x);
    }
}

/// Runs and paths agree on what extends a keyword.
pub proof fn lemma_extends(g: &LexicalGrammar, word: int, keyword: int, c: int)
    requires
        g.wf(),
        0 <= word < g.variables@.len(),
        0 <= keyword < g.variables@.len(),
    ensures
        forall|text: Seq<int>|
            #[trigger] extends_text(g, word, keyword, text, c) <==> is_spelling(g, keyword, text) && can_go_on(
                g,
                word,
                text,
                c,
            ),
{
    assert forall|text: Seq<int>| #[trigger] extends_text(g, word, keyword, text, c) <==> is_spelling(g, keyword, text)
        && can_go_on(g, word, text, c) by {
        let ks = run(&g.nfa, start_set(g, keyword), text);
        let ws = run(&g.nfa, start_set(g, word), text);
        if completes(g, keyword, ks) {
            let i = choose|i: int| 0 <= i < ks.len() && recognizes(g, #[trigger] ks[i], keyword);
            assert(ks.contains(ks[i]));
            lemma_token_run(g, keyword, text, ks[i]);
            assert(is_spelling(g, keyword, text));
        }
        if is_spelling(g, keyword, text) {
            let x = choose|x: u32|
                #[trigger] spells(&g.nfa, g.variables@[keyword].start_state, text, x) && (
                g.nfa.states@[x as int] matches NfaState::Accept { variable_index, .. } && variable_index == keyword);
            lemma_token_run(g, keyword, text, x);
            let i = choose|i: int| 0 <= i < ks.len() && ks[i] == x;
            assert(recognizes(g, ks[i], keyword));
        }
        if can_move(moves(&g.nfa, ws), c) {
            let i = choose|i: int| fires(moves(&g.nfa, ws), i, c);
            let x = lemma_move_state(&g.nfa, ws, i);
            lemma_token_run(g, word, text, x);
            assert(can_go_on(g, word, text, c));
        }
        if can_go_on(g, word, text, c) {
            let x = choose|x: u32|
                #[trigger] spells(&g.nfa, g.variables@[word].start_state, text, x) && (
                g.nfa.states@[x as int] matches NfaState::Advance { chars, .. } && holds(chars@, c));
            lemma_token_run(g, word, text, x);
            let i = lemma_state_move(&g.nfa, ws, x);
            assert(fires(moves(&g.nfa, ws), i, c));
        }
    }
}

/// Where the two transitions lead together.
spec fn joint(nfa: &Nfa, wt: Transition, kt: Transition) -> (Seq<u32>, Seq<u32>) {
    (nfa.closure(wt.states.to_set()), nfa.closure(kt.states.to_set()))
}

proof fn lemma_pairs_for(nfa: &Nfa, wt: Transition, kts: Seq<Transition>)
    ensures
        forall|p: (Seq<u32>, Seq<u32>)| #[trigger] pairs_for(nfa, wt, kts).contains(p) ==> exists|j: int|
            0 <= j < kts.len() && meet(wt.characters, (#[trigger] kts[j]).characters) && p == joint(nfa, wt, kts[j]),
        forall|j: int|
            0 <= j < kts.len() && meet(wt.characters, (#[trigger] kts[j]).characters) ==> pairs_for(nfa, wt, kts).contains(
                joint(nfa, wt, kts[j]),
            ),
    decreases kts.len(),
{
    if kts.len() > 0 {
        let front = kts.drop_last();
        lemma_pairs_for(nfa, wt, front);
        let fs = pairs_for(nfa, wt, front);
        let all = pairs_for(nfa, wt, kts);
        assert forall|p: (Seq<u32>, Seq<u32>)| #[trigger] all.contains(p) implies exists|j: int|
            0 <= j < kts.len() && meet(wt.characters, (#[trigger] kts[j]).characters) && p == joint(nfa, wt, kts[j]) by {
            let m = choose|m: int| 0 <= m < all.len() && all[m] == p;
            if m < fs.len() {
                assert(fs[m] == p);
                assert(fs.contains(p));
                let j = choose|j: int|
                    0 <= j < front.len() && meet(wt.characters, (#[trigger] front[j]).characters) && p == joint(
                        nfa,
                        wt,
                        front[j],
                    );
                assert(kts[j] == front[j]);
            } else {
                assert(kts[kts.len() - 1] == kts.last());
            }
        }
        assert forall|j: int| 0 <= j < kts.len() && meet(wt.characters, (#[trigger] kts[j]).characters) implies all.contains(
            joint(nfa, wt, kts[j]),
        ) by {
            if j < front.len() {
                assert(front[j] == kts[j]);
                assert(fs.contains(joint(nfa, wt, front[j])));
                let m = choose|m: int| 0 <= m < fs.len() && fs[m] == joint(nfa, wt, front[j]);
                assert(all[m] == fs[m]);
            } else {
                assert(all[fs.len() as int] == joint(nfa, wt, kts[j]));
            }
        }
    }
}

/// Two transitions of a pair of state sets that have a character in common lead to `p`.
spec fn joins_to(nfa: &Nfa, wts: Seq<Transition>, kts: Seq<Transition>, i: int, j: int, p: (Seq<u32>, Seq<u32>)) -> bool {
    0 <= i < wts.len() && 0 <= j < kts.len() && meet(wts[i].characters, kts[j].characters) && p == joint(
        nfa,
        wts[i],
        kts[j],
    )
}

proof fn lemma_joint_pairs(nfa: &Nfa, wts: Seq<Transition>, kts: Seq<Transition>)
    ensures
        forall|p: (Seq<u32>, Seq<u32>)| #[trigger] joint_pairs(nfa, wts, kts).contains(p) ==> exists|i: int, j: int|
            #[trigger] joins_to(nfa, wts, kts, i, j, p),
        forall|i: int, j: int, p: (Seq<u32>, Seq<u32>)|
            #[trigger] joins_to(nfa, wts, kts, i, j, p) ==> joint_pairs(nfa, wts, kts).contains(p),
    decreases wts.len(),
{
    if wts.len() > 0 {
        let front = wts.drop_last();
        let last = wts.last();
        lemma_joint_pairs(nfa, front, kts);
        lemma_pairs_for(nfa, last, kts);
        let fs = joint_pairs(nfa, front, kts);
        let ls = pairs_for(nfa, last, kts);
        let all = joint_pairs(nfa, wts, kts);
        assert(all == fs + ls);
        assert forall|p: (Seq<u32>, Seq<u32>)| #[trigger] all.contains(p) implies exists|i: int, j: int|
            #[trigger] joins_to(nfa, wts, kts, i, j, p) by {
            let m = choose|m: int| 0 <= m < all.len() && all[m] == p;
            if m < fs.len() {
                assert(fs[m] == p);
                assert(fs.contains(p));
                let (i, j) = choose|i: int, j: int| #[trigger] joins_to(nfa, front, kts, i, j, p);
                assert(joins_to(nfa, wts, kts, i, j, p));
            } else {
                assert(ls[m - fs.len()] == p);
                assert(ls.contains(p));
                let j = choose|j: int|
                    0 <= j < kts.len() && meet(last.characters, (#[trigger] kts[j]).characters) && p == joint(
                        nfa,
                        last,
                        kts[j],
                    );
                assert(joins_to(nfa, wts, kts, wts.len() - 1, j, p));
            }
        }
        assert forall|i: int, j: int, p: (Seq<u32>, Seq<u32>)| #[trigger] joins_to(nfa, wts, kts, i, j, p) implies all.contains(
            p,
        ) by {
            if i < front.len() {
                assert(joins_to(nfa, front, kts, i, j, p));
                let m = choose|m: int| 0 <= m < fs.len() && fs[m] == p;
                assert(all[m] == p);
            } else {
                assert(ls.contains(joint(nfa, last, kts[j])));
                let m = choose|m: int| 0 <= m < ls.len() && ls[m] == p;
                assert(all[fs.len() + m] == p);
            }
        }
    }
}

/// What follows a pair is what reading one character leads to.
proof fn lemma_next_pairs(nfa: &Nfa, pair: (Seq<u32>, Seq<u32>))
    requires
        nfa.wf(),
        nfa.are_states(pair.0),
        nfa.are_states(pair.1),
    ensures
        forall|p: (Seq<u32>, Seq<u32>)| #[trigger] next_pairs(nfa, pair).contains(p) ==> exists|c: int|
            p == (#[trigger] step(nfa, pair.0, c), step(nfa, pair.1, c)) && can_move(moves(nfa, pair.0), c) && can_move(
                moves(nfa, pair.1),
                c,
            ),
        forall|c: int|
            can_move(moves(nfa, pair.0), c) && can_move(moves(nfa, pair.1), c) ==> next_pairs(nfa, pair).contains(
                (#[trigger] step(nfa, pair.0, c), step(nfa, pair.1, c)),
            ),
{
    let wts = transitions_of(nfa, pair.0);
    let kts = transitions_of(nfa, pair.1);
    lemma_joint_pairs(nfa, wts, kts);
    lemma_transitions_of(nfa, pair.0);
    lemma_transitions_of(nfa, pair.1);
    let all = next_pairs(nfa, pair);
    assert forall|p: (Seq<u32>, Seq<u32>)| #[trigger] all.contains(p) implies exists|c: int|
        p == (#[trigger] step(nfa, pair.0, c), step(nfa, pair.1, c)) && can_move(moves(nfa, pair.0), c) && can_move(
            moves(nfa, pair.1),
            c,
        ) by {
        let (i, j) = choose|i: int, j: int| #[trigger] joins_to(nfa, wts, kts, i, j, p);
        let c = choose|c: int| #[trigger] holds(wts[i].characters, c) && holds(kts[j].characters, c);
        lemma_transition_is_step(nfa, pair.0, i, c);
        lemma_transition_is_step(nfa, pair.1, j, c);
        assert(p == (step(nfa, pair.0, c), step(nfa, pair.1, c)));
    }
    assert forall|c: int| can_move(moves(nfa, pair.0), c) && can_move(moves(nfa, pair.1), c) implies all.contains(
        (#[trigger] step(nfa, pair.0, c), step(nfa, pair.1, c)),
    ) by {
        assert(covered(wts, c) && covered(kts, c));
        let i = choose|i: int| 0 <= i < wts.len() && #[trigger] holds(wts[i].characters, c);
        let j = choose|j: int| 0 <= j < kts.len() && #[trigger] holds(kts[j].characters, c);
        lemma_transition_is_step(nfa, pair.0, i, c);
        lemma_transition_is_step(nfa, pair.1, j, c);
        assert(meet(wts[i].characters, kts[j].characters));
        assert(joins_to(nfa, wts, kts, i, j, joint(nfa, wts[i], kts[j])));
    }
}

/// The pair is where some text leads that is no longer than `n`.
spec fn is_read(g: &LexicalGrammar, word: int, keyword: int, p: (Seq<u32>, Seq<u32>), n: nat) -> bool {
    exists|text: Seq<int>|
        p == (#[trigger] run(&g.nfa, start_set(g, word), text), run(&g.nfa, start_set(g, keyword), text)) && text.len()
            <= n
}

proof fn lemma_start_sets(g: &LexicalGrammar, word: int, keyword: int)
    requires
        g.wf(),
    ensures
        g.nfa.are_states(start_set(g, word)),
        g.nfa.are_states(start_set(g, keyword)),
{
    g.nfa.lemma_closure(Set::empty().insert(g.variables@[word].start_state));
    g.nfa.lemma_closure(Set::empty().insert(g.variables@[keyword].start_state));
}

/// One more character.
proof fn lemma_is_read_step(g: &LexicalGrammar, word: int, keyword: int, p: (Seq<u32>, Seq<u32>), c: int, n: nat)
    requires
        is_read(g, word, keyword, p, n),
    ensures
        is_read(g, word, keyword, (step(&g.nfa, p.0, c), step(&g.nfa, p.1, c)), n + 1),
{
    let text = choose|text: Seq<int>|
        p == (#[trigger] run(&g.nfa, start_set(g, word), text), run(&g.nfa, start_set(g, keyword), text)) && text.len()
            <= n;
    let longer = text.push(c);
    assert(longer.drop_last() =~= text);
    assert((step(&g.nfa, p.0, c), step(&g.nfa, p.1, c)) == (
        run(&g.nfa, start_set(g, word), longer),
        run(&g.nfa, start_set(g, keyword), longer),
    ));
}

proof fn lemma_is_read_states(g: &LexicalGrammar, word: int, keyword: int, p: (Seq<u32>, Seq<u32>), n: nat)
    requires
        g.wf(),
        is_read(g, word, keyword, p, n),
    ensures
        g.nfa.are_states(p.0),
        g.nfa.are_states(p.1),
{
    let text = choose|text: Seq<int>|
        p == (#[trigger] run(&g.nfa, start_set(g, word), text), run(&g.nfa, start_set(g, keyword), text)) && text.len()
            <= n;
    lemma_start_sets(g, word, keyword);
    lemma_run(&g.nfa, start_set(g, word), text);
    lemma_run(&g.nfa, start_set(g, keyword), text);
}

proof fn lemma_search_sound(
    g: &LexicalGrammar,
    word: int,
    keyword: int,
    stack: Seq<(Seq<u32>, Seq<u32>)>,
    visited: Set<(Seq<u32>, Seq<u32>)>,
    found: Set<int>,
    budget: nat,
    n: nat,
    limit: nat,
)
    requires
        g.wf(),
        n + budget == limit,
        forall|i: int| 0 <= i < stack.len() ==> is_read(g, word, keyword, #[trigger] stack[i], n),
        forall|c: int| #[trigger] found.contains(c) ==> runs_extend(g, word, keyword, c, limit),
    ensures
        forall|c: int|
            #[trigger] search(g, keyword, stack, visited, found, budget).contains(c) ==> runs_extend(
                g,
                word,
                keyword,
                c,
                limit,
            ),
    decreases budget,
{
    if stack.len() > 0 && budget > 0 {
        let p = stack.last();
        let rest = stack.drop_last();
        assert(is_read(g, word, keyword, stack[stack.len() - 1], n));
        assert forall|i: int| 0 <= i < rest.len() implies is_read(g, word, keyword, #[trigger] rest[i], n + 1) by {
            assert(is_read(g, word, keyword, stack[i], n));
            assert(rest[i] == stack[i]);
        }
        if visited.contains(p) {
            lemma_search_sound(g, word, keyword, rest, visited, found, (budget - 1) as nat, n + 1, limit);
            assert(search(g, keyword, stack, visited, found, budget) == search(
                g,
                keyword,
                rest,
                visited,
                found,
                (budget - 1) as nat,
            ));
        } else {
            let next = next_pairs(&g.nfa, p);
            let longer = rest + next;
            lemma_is_read_states(g, word, keyword, p, n);
            lemma_next_pairs(&g.nfa, p);
            assert forall|i: int| 0 <= i < longer.len() implies is_read(g, word, keyword, #[trigger] longer[i], n + 1) by {
                if i < rest.len() {
                    assert(longer[i] == rest[i]);
                } else {
                    assert(next[i - rest.len()] == longer[i]);
                    assert(next.contains(longer[i]));
                    let c = choose|c: int| longer[i] == (#[trigger] step(&g.nfa, p.0, c), step(&g.nfa, p.1, c));
                    lemma_is_read_step(g, word, keyword, p, c, n);
                }
            }
            let more = found.union(contribution(g, keyword, p));
            assert forall|c: int| #[trigger] more.contains(c) implies runs_extend(g, word, keyword, c, limit) by {
                if !found.contains(c) {
                    let text = choose|text: Seq<int>|
                        p == (#[trigger] run(&g.nfa, start_set(g, word), text), run(&g.nfa, start_set(g, keyword), text))
                            && text.len() <= n;
                    assert(readable(&g.nfa, p.0).contains(c));
                    assert(extends_text(g, word, keyword, text, c));
                }
            }
            lemma_search_sound(g, word, keyword, longer, visited.insert(p), more, (budget - 1) as nat, n + 1, limit);
            assert(search(g, keyword, stack, visited, found, budget) == search(
                g,
                keyword,
                longer,
                visited.insert(p),
                more,
                (budget - 1) as nat,
            ));
        }
    }
}

/// What is found extends the keyword, after a text that is shorter than ten thousand
/// characters.
proof fn lemma_continuations_are_near(g: &LexicalGrammar, word: int, keyword: int, c: int)
    requires
        g.wf(),
        continuation_chars(g, word, keyword).contains(c),
    ensures
        runs_extend(g, word, keyword, c, 10_000),
{
    let stack = search_start(g, word, keyword);
    assert(is_read(g, word, keyword, stack[0], 0)) by {
        let text = Seq::<int>::empty();
        assert(stack[0] == (run(&g.nfa, start_set(g, word), text), run(&g.nfa, start_set(g, keyword), text)));
    }
    lemma_search_sound(g, word, keyword, stack, Set::empty(), Set::empty(), 10_000, 0, 10_000);
}

/// Every character that is found continues the keyword: the word token can go on with
/// it after some spelling of the keyword.
pub proof fn law_continuations_are_real(g: &LexicalGrammar, word: int, keyword: int, c: int)
    requires
        g.wf(),
        continuation_chars(g, word, keyword).contains(c),
    ensures
        extends_keyword(g, word, keyword, c),
{
    lemma_continuations_are_near(g, word, keyword, c);
}

/// Every character that is found continues the keyword by paths of the automaton: the word
/// token can go on with it after some spelling of the keyword, which is shorter than ten
/// thousand characters, since the search looks at no more than ten thousand pairs of state
/// sets.
pub proof fn law_continuations_are_spelled(g: &LexicalGrammar, word: int, keyword: int, c: int)
    requires
        g.wf(),
        0 <= word < g.variables@.len(),
        0 <= keyword < g.variables@.len(),
        continuation_chars(g, word, keyword).contains(c),
    ensures
        continues_keyword(g, word, keyword, c),
        continues_keyword_within(g, word, keyword, c, 10_000),
{
    lemma_extends(g, word, keyword, c);
    lemma_continuations_are_near(g, word, keyword, c);
    let text = choose|text: Seq<int>| #[trigger] extends_text(g, word, keyword, text, c) && text.len() < 10_000;
    assert(is_spelling(g, keyword, text));
}

/// Whatever the search has to look at is already behind it or on its stack.
spec fn is_frontier(
    g: &LexicalGrammar,
    word: int,
    keyword: int,
    stack: Seq<(Seq<u32>, Seq<u32>)>,
    visited: Set<(Seq<u32>, Seq<u32>)>,
    found: Set<int>,
) -> bool {
    &&& visited.contains((start_set(g, word), start_set(g, keyword))) || stack.contains(
        (start_set(g, word), start_set(g, keyword)),
    )
    &&& forall|p: (Seq<u32>, Seq<u32>), q: (Seq<u32>, Seq<u32>)|
        visited.contains(p) && #[trigger] next_pairs(&g.nfa, p).contains(q) ==> visited.contains(q) || stack.contains(q)
    &&& forall|p: (Seq<u32>, Seq<u32>), c: int|
        visited.contains(p) && #[trigger] contribution(g, keyword, p).contains(c) ==> found.contains(c)
}

proof fn lemma_search_complete(
    g: &LexicalGrammar,
    word: int,
    keyword: int,
    stack: Seq<(Seq<u32>, Seq<u32>)>,
    visited: Set<(Seq<u32>, Seq<u32>)>,
    found: Set<int>,
    budget: nat,
) -> (all: Set<(Seq<u32>, Seq<u32>)>)
    requires
        is_frontier(g, word, keyword, stack, visited, found),
        search_ends(g, stack, visited, budget),
    ensures
        is_frontier(
            g,
            word,
            keyword,
            Seq::empty(),
            all,
            search(g, keyword, stack, visited, found, budget),
        ),
    decreases budget,
{
    if stack.len() == 0 {
        assert(stack =~= Seq::empty());
        visited
    } else {
        let p = stack.last();
        let rest = stack.drop_last();
        assert forall|q: (Seq<u32>, Seq<u32>)| stack.contains(q) implies q == p || rest.contains(q) by {
            let m = choose|m: int| 0 <= m < stack.len() && stack[m] == q;
            if m < rest.len() {
                assert(rest[m] == q);
            }
        }
        if visited.contains(p) {
            lemma_search_complete(g, word, keyword, rest, visited, found, (budget - 1) as nat)
        } else {
            let next = next_pairs(&g.nfa, p);
            let longer = rest + next;
            assert forall|q: (Seq<u32>, Seq<u32>)| rest.contains(q) || next.contains(q) implies longer.contains(q) by {
                if rest.contains(q) {
                    let m = choose|m: int| 0 <= m < rest.len() && rest[m] == q;
                    assert(longer[m] == q);
                } else {
                    let m = choose|m: int| 0 <= m < next.len() && next[m] == q;
                    assert(longer[rest.len() + m] == q);
                }
            }
            lemma_search_complete(
                g,
                word,
                keyword,
                longer,
                visited.insert(p),
                found.union(contribution(g, keyword, p)),
                (budget - 1) as nat,
            )
        }
    }
}

/// A closed set of pairs has the pair that any text leads to, as long as both sides can
/// read it.
proof fn lemma_closed_reads(
    g: &LexicalGrammar,
    word: int,
    keyword: int,
    all: Set<(Seq<u32>, Seq<u32>)>,
    found: Set<int>,
    text: Seq<int>,
)
    requires
        g.wf(),
        is_frontier(g, word, keyword, Seq::empty(), all, found),
        run(&g.nfa, start_set(g, word), text).len() > 0,
        run(&g.nfa, start_set(g, keyword), text).len() > 0,
    ensures
        all.contains((run(&g.nfa, start_set(g, word), text), run(&g.nfa, start_set(g, keyword), text))),
    decreases text.len(),
{
    if text.len() > 0 {
        let front = text.drop_last();
        let c = text.last();
        let a = run(&g.nfa, start_set(g, word), front);
        let b = run(&g.nfa, start_set(g, keyword), front);
        lemma_step(&g.nfa, a, c);
        lemma_step(&g.nfa, b, c);
        assert(a.len() > 0) by {
            if a.len() == 0 {
                assert(moves(&g.nfa, a).len() == 0);
            }
        }
        assert(b.len() > 0) by {
            if b.len() == 0 {
                assert(moves(&g.nfa, b).len() == 0);
            }
        }
        lemma_closed_reads(g, word, keyword, all, found, front);
        lemma_start_sets(g, word, keyword);
        lemma_run(&g.nfa, start_set(g, word), front);
        lemma_run(&g.nfa, start_set(g, keyword), front);
        lemma_next_pairs(&g.nfa, (a, b));
        assert(next_pairs(&g.nfa, (a, b)).contains((step(&g.nfa, a, c), step(&g.nfa, b, c))));
    }
}

/// Unless the search runs out of its budget, it finds every character that continues
/// the keyword.
pub proof fn law_continuations_are_all_found(g: &LexicalGrammar, word: int, keyword: int, c: int)
    requires
        g.wf(),
        search_ends(g, search_start(g, word, keyword), Set::empty(), 10_000),
        extends_keyword(g, word, keyword, c),
    ensures
        continuation_chars(g, word, keyword).contains(c),
{
    let stack = search_start(g, word, keyword);
    assert(stack[0] == (start_set(g, word), start_set(g, keyword)));
    let found = continuation_chars(g, word, keyword);
    let all = lemma_search_complete(g, word, keyword, stack, Set::empty(), Set::empty(), SEARCH_BUDGET as nat);
    let text = choose|text: Seq<int>| #[trigger] extends_text(g, word, keyword, text, c);
    let a = run(&g.nfa, start_set(g, word), text);
    let b = run(&g.nfa, start_set(g, keyword), text);
    assert(a.len() > 0) by {
        if a.len() == 0 {
            assert(moves(&g.nfa, a).len() == 0);
        }
    }
    lemma_closed_reads(g, word, keyword, all, found, text);
    assert(contribution(g, keyword, (a, b)).contains(c));
}

/// If the search ends within its budget, every character with which paths of the automaton
/// continue the keyword is found.
pub proof fn law_spelled_continuations_are_found(g: &LexicalGrammar, word: int, keyword: int, c: int)
    requires
        g.wf(),
        0 <= word < g.variables@.len(),
        0 <= keyword < g.variables@.len(),
        search_ends(g, search_start(g, word, keyword), Set::empty(), 10_000),
        continues_keyword(g, word, keyword, c),
    ensures
        continuation_chars(g, word, keyword).contains(c),
{
    lemma_extends(g, word, keyword, c);
    let text = choose|text: Seq<int>| #[trigger] is_spelling(g, keyword, text) && can_go_on(g, word, text, c);
    assert(extends_text(g, word, keyword, text, c));
    law_continuations_are_all_found(g, word, keyword, c);
}

/// The most ways in which a pair of state sets can go on together.
pub open spec fn ways(nfa: &Nfa, p: (Seq<u32>, Seq<u32>)) -> nat {
    transitions_of(nfa, p.0).len() * transitions_of(nfa, p.1).len()
}

/// The most ways in which the pairs that have not been visited can go on.
pub open spec fn ways_left(nfa: &Nfa, pairs: Seq<(Seq<u32>, Seq<u32>)>, visited: Set<(Seq<u32>, Seq<u32>)>) -> nat
    decreases pairs.len(),
{
    if pairs.len() == 0 {
        0
    } else {
        ways_left(nfa, pairs.drop_last(), visited) + (if visited.contains(pairs.last()) {
            0
        } else {
            ways(nfa, pairs.last())
        })
    }
}

/// The list has every pair of state sets that the two tokens can be in after the same
/// text.
pub open spec fn has_all_pairs(g: &LexicalGrammar, word: int, keyword: int, pairs: Seq<(Seq<u32>, Seq<u32>)>) -> bool {
    &&& pairs.no_duplicates()
    &&& pairs.contains((start_set(g, word), start_set(g, keyword)))
    &&& forall|i: int, c: int|
        0 <= i < pairs.len() && can_move(moves(&g.nfa, pairs[i].0), c) && can_move(moves(&g.nfa, pairs[i].1), c)
            ==> pairs.contains((#[trigger] step(&g.nfa, pairs[i].0, c), step(&g.nfa, pairs[i].1, c)))
    &&& forall|i: int| 0 <= i < pairs.len() ==> g.nfa.are_states((#[trigger] pairs[i]).0) && g.nfa.are_states(pairs[i].1)
}

proof fn lemma_pairs_for_len(nfa: &Nfa, wt: Transition, kts: Seq<Transition>)
    ensures
        pairs_for(nfa, wt, kts).len() <= kts.len(),
    decreases kts.len(),
{
    if kts.len() > 0 {
        lemma_pairs_for_len(nfa, wt, kts.drop_last());
    }
}

proof fn lemma_joint_pairs_len(nfa: &Nfa, wts: Seq<Transition>, kts: Seq<Transition>)
    ensures
        joint_pairs(nfa, wts, kts).len() <= wts.len() * kts.len(),
    decreases wts.len(),
{
    if wts.len() > 0 {
        lemma_joint_pairs_len(nfa, wts.drop_last(), kts);
        lemma_pairs_for_len(nfa, wts.last(), kts);
        let n = wts.len();
        let k = kts.len();
        assert((n - 1) * k + k == n * k) by (nonlinear_arith);
    }
}

/// Visiting a pair uses up its ways.
proof fn lemma_ways_left(
    nfa: &Nfa,
    pairs: Seq<(Seq<u32>, Seq<u32>)>,
    visited: Set<(Seq<u32>, Seq<u32>)>,
    p: (Seq<u32>, Seq<u32>),
)
    requires
        pairs.no_duplicates(),
        !visited.contains(p),
    ensures
        ways_left(nfa, pairs, visited) == ways_left(nfa, pairs, visited.insert(p)) + (if pairs.contains(p) {
            ways(nfa, p)
        } else {
            0
        }),
    decreases pairs.len(),
{
    if pairs.len() > 0 {
        let front = pairs.drop_last();
        assert(front.no_duplicates());
        lemma_ways_left(nfa, front, visited, p);
        assert(pairs[pairs.len() - 1] == pairs.last());
        if front.contains(p) {
            let i = choose|i: int| 0 <= i < front.len() && front[i] == p;
            assert(pairs[i] == p);
        }
        if pairs.contains(p) && pairs.last() != p {
            let i = choose|i: int| 0 <= i < pairs.len() && pairs[i] == p;
            assert(front[i] == p);
        }
    }
}

proof fn lemma_search_ends(
    g: &LexicalGrammar,
    pairs: Seq<(Seq<u32>, Seq<u32>)>,
    stack: Seq<(Seq<u32>, Seq<u32>)>,
    visited: Set<(Seq<u32>, Seq<u32>)>,
    budget: nat,
)
    requires
        g.wf(),
        pairs.no_duplicates(),
        forall|i: int, c: int|
            0 <= i < pairs.len() && can_move(moves(&g.nfa, pairs[i].0), c) && can_move(moves(&g.nfa, pairs[i].1), c)
                ==> pairs.contains((#[trigger] step(&g.nfa, pairs[i].0, c), step(&g.nfa, pairs[i].1, c))),
        forall|i: int|
            0 <= i < pairs.len() ==> g.nfa.are_states((#[trigger] pairs[i]).0) && g.nfa.are_states(pairs[i].1),
        forall|i: int| 0 <= i < stack.len() ==> pairs.contains(#[trigger] stack[i]),
        stack.len() + ways_left(&g.nfa, pairs, visited) <= budget,
    ensures
        search_ends(g, stack, visited, budget),
    decreases budget,
{
    if stack.len() > 0 {
        let p = stack.last();
        let rest = stack.drop_last();
        assert(pairs.contains(stack[stack.len() - 1]));
        assert forall|i: int| 0 <= i < rest.len() implies pairs.contains(#[trigger] rest[i]) by {
            assert(rest[i] == stack[i]);
        }
        if visited.contains(p) {
            lemma_search_ends(g, pairs, rest, visited, (budget - 1) as nat);
        } else {
            let next = next_pairs(&g.nfa, p);
            let longer = rest + next;
            let i = choose|i: int| 0 <= i < pairs.len() && pairs[i] == p;
            lemma_joint_pairs_len(&g.nfa, transitions_of(&g.nfa, p.0), transitions_of(&g.nfa, p.1));
            lemma_ways_left(&g.nfa, pairs, visited, p);
            lemma_next_pairs(&g.nfa, pairs[i]);
            assert forall|j: int| 0 <= j < longer.len() implies pairs.contains(#[trigger] longer[j]) by {
                if j < rest.len() {
                    assert(longer[j] == rest[j]);
                } else {
                    assert(next[j - rest.len()] == longer[j]);
                    assert(next.contains(longer[j]));
                    let c = choose|c: int|
                        longer[j] == (#[trigger] step(&g.nfa, p.0, c), step(&g.nfa, p.1, c)) && can_move(
                            moves(&g.nfa, p.0),
                            c,
                        ) && can_move(moves(&g.nfa, p.1), c);
                    assert(pairs.contains((step(&g.nfa, pairs[i].0, c), step(&g.nfa, pairs[i].1, c))));
                }
            }
            lemma_search_ends(g, pairs, longer, visited.insert(p), (budget - 1) as nat);
        }
    }
}

/// If the pairs of state sets that the two tokens can be in after the same text, taken
/// together, have fewer than ten thousand ways to go on, every character that continues
/// the keyword is found.
pub proof fn law_small_searches_find_all(
    g: &LexicalGrammar,
    word: int,
    keyword: int,
    pairs: Seq<(Seq<u32>, Seq<u32>)>,
    c: int,
)
    requires
        g.wf(),
        0 <= word < g.variables@.len(),
        0 <= keyword < g.variables@.len(),
        has_all_pairs(g, word, keyword, pairs),
        ways_left(&g.nfa, pairs, Set::empty()) < 10_000,
        continues_keyword(g, word, keyword, c),
    ensures
        continuation_chars(g, word, keyword).contains(c),
{
    lemma_search_ends(g, pairs, search_start(g, word, keyword), Set::empty(), 10_000);
    law_spelled_continuations_are_found(g, word, keyword, c);
}

} // verus!
