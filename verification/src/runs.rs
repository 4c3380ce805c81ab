//! What an automaton does on a text, and why the moves of its states can always be
//! grouped into transitions.

use vstd::prelude::*;

use crate::character_set::{
    char_order_key, holds, lemma_canonical, lemma_order_key_injective, ranges_wf, CharRange, END,
};
use crate::nfa::Nfa;
use crate::order::{lemma_lex_irreflexive, lemma_lex_total, lemma_lex_transitive, lex_lt};
use crate::sorted::{lemma_members, members};
use crate::transitions::{
    can_move, covered, describes, fires, goes_to, is_grouping, moves, same_label, transitions_of, Move, Transition,
};

verus! {

/// The states that the automaton is in after it has read `c` in the states `ids`.
pub open spec fn step(nfa: &Nfa, ids: Seq<u32>, c: int) -> Seq<u32> {
    nfa.closure(Set::new(|x: u32| goes_to(moves(nfa, ids), c, x)))
}

/// The states that the automaton is in after it has read a text, given as code points,
/// in the states `ids`.
pub open spec fn run(nfa: &Nfa, ids: Seq<u32>, text: Seq<int>) -> Seq<u32>
    decreases text.len(),
{
    if text.len() == 0 {
        ids
    } else {
        step(nfa, run(nfa, ids, text.drop_last()), text.last())
    }
}

/// The first code points that satisfy `p`, as ranges.
spec fn ranges_below(n: nat, p: spec_fn(int) -> bool) -> Seq<CharRange>
    decreases n,
{
    if n == 0 {
        Seq::empty()
    } else {
        let front = ranges_below((n - 1) as nat, p);
        if !p(n - 1) {
            front
        } else if front.len() > 0 && front.last().end == n - 1 {
            front.drop_last().push(CharRange { start: front.last().start, end: n as u32 })
        } else {
            front.push(CharRange { start: (n - 1) as u32, end: n as u32 })
        }
    }
}

proof fn lemma_ranges_below(n: nat, p: spec_fn(int) -> bool)
    requires
        n <= END,
    ensures
        ranges_wf(ranges_below(n, p)),
        forall|i: int| 0 <= i < ranges_below(n, p).len() ==> (#[trigger] ranges_below(n, p)[i]).end <= n,
        forall|c: int| #[trigger] holds(ranges_below(n, p), c) <==> 0 <= c < n && p(c),
    decreases n,
{
    if n > 0 {
        let m = (n - 1) as nat;
        lemma_ranges_below(m, p);
        let front = ranges_below(m, p);
        let all = ranges_below(n, p);
        assert forall|i: int| 0 <= i < all.len() implies (#[trigger] all[i]).start < all[i].end <= n by {
            if i < front.len() {
                assert(front[i].end <= m);
                assert(front[i].start < front[i].end);
            }
        }
        assert forall|i: int, j: int| 0 <= i < j < all.len() implies (#[trigger] all[i]).end < (#[trigger] all[j]).start by {
            assert(all[i] == front[i]);
            assert(front[i].end <= m);
            if j < front.len() {
                assert(front[i].end < front[j].start);
            } else if front.len() > 0 {
                assert(front[front.len() - 1].end <= m);
                if i < front.len() - 1 {
                    assert(front[i].end < front[front.len() - 1].start);
                }
            }
        }
        assert forall|c: int| #[trigger] holds(all, c) <==> 0 <= c < n && p(c) by {
            assert(holds(front, c) <==> 0 <= c < m && p(c));
            if holds(all, c) {
                let i = choose|i: int| 0 <= i < all.len() && (#[trigger] all[i]).start <= c < all[i].end;
                if i < front.len() && c != m {
                    assert(front[i].start <= c < front[i].end);
                } else if i < front.len() {
                    assert(front[i].end <= m);
                    assert(p(m as int));
                }
            }
            if holds(front, c) {
                let i = choose|i: int| 0 <= i < front.len() && (#[trigger] front[i]).start <= c < front[i].end;
                assert(all[i].start <= c < all[i].end);
            }
            if c == m && p(c) {
                assert(all[all.len() - 1].start <= c < all[all.len() - 1].end);
            }
        }
    }
}

/// The highest precedence of the moves that read `c`.
proof fn lemma_top_precedence(ms: Seq<Move>, c: int, n: int) -> (p: i32)
    requires
        0 <= n <= ms.len(),
        exists|i: int| i < n && fires(ms, i, c),
    ensures
        exists|i: int| i < n && #[trigger] fires(ms, i, c) && ms[i].precedence == p,
        forall|i: int| i < n && #[trigger] fires(ms, i, c) ==> ms[i].precedence <= p,
    decreases n,
{
    if exists|i: int| i < n - 1 && fires(ms, i, c) {
        let q = lemma_top_precedence(ms, c, n - 1);
        if fires(ms, n - 1, c) && ms[n - 1].precedence > q {
            ms[n - 1].precedence
        } else {
            q
        }
    } else {
        assert(fires(ms, n - 1, c));
        ms[n - 1].precedence
    }
}

/// `p` is the highest precedence of the moves that read `c`.
spec fn is_top_precedence(ms: Seq<Move>, c: int, p: i32) -> bool {
    &&& exists|i: int| #[trigger] fires(ms, i, c) && ms[i].precedence == p
    &&& forall|i: int| #[trigger] fires(ms, i, c) ==> ms[i].precedence <= p
}

/// What the moves that read `c` amount to.
spec fn label_of(ms: Seq<Move>, c: int) -> Transition {
    Transition {
        characters: Seq::empty(),
        is_separator: forall|i: int| #[trigger] fires(ms, i, c) ==> ms[i].is_separator,
        precedence: choose|p: i32| is_top_precedence(ms, c, p),
        states: members((u32::MAX + 1) as nat, |x: u32| goes_to(ms, c, x)),
    }
}

proof fn lemma_label_of(ms: Seq<Move>, c: int)
    requires
        can_move(ms, c),
    ensures
        describes(ms, c, label_of(ms, c)),
{
    let i = choose|i: int| fires(ms, i, c);
    assert(i < ms.len() && fires(ms, i, c));
    let p = lemma_top_precedence(ms, c, ms.len() as int);
    let w = choose|i: int| i < ms.len() && #[trigger] fires(ms, i, c) && ms[i].precedence == p;
    assert(fires(ms, w, c) && ms[w].precedence == p);
    assert forall|i: int| #[trigger] fires(ms, i, c) implies ms[i].precedence <= p by {
        assert(i < ms.len());
    }
    assert(is_top_precedence(ms, c, p));
    lemma_members((u32::MAX + 1) as nat, |x: u32| goes_to(ms, c, x));
}

/// The transition that `c` belongs to.
spec fn class_of(ms: Seq<Move>, c: int) -> Transition {
    Transition {
        characters: ranges_below(
            END as nat,
            |d: int| can_move(ms, d) && same_label(label_of(ms, d), label_of(ms, c)),
        ),
        ..label_of(ms, c)
    }
}

proof fn lemma_class_of(ms: Seq<Move>, c: int)
    requires
        can_move(ms, c),
        0 <= c < END,
    ensures
        ranges_wf(class_of(ms, c).characters),
        class_of(ms, c).characters.len() > 0,
        holds(class_of(ms, c).characters, c),
        forall|d: int| #[trigger] holds(class_of(ms, c).characters, d) ==> describes(ms, d, class_of(ms, c)),
{
    let p = |d: int| can_move(ms, d) && same_label(label_of(ms, d), label_of(ms, c));
    lemma_ranges_below(END as nat, p);
    let t = class_of(ms, c);
    assert(p(c));
    assert(holds(t.characters, c));
    assert forall|d: int| #[trigger] holds(t.characters, d) implies describes(ms, d, t) by {
        assert(p(d));
        lemma_label_of(ms, d);
    }
}

spec fn in_key_order(ts: Seq<Transition>) -> bool {
    forall|j: int, k: int|
        0 <= j < k < ts.len() ==> lex_lt(
            char_order_key((#[trigger] ts[j]).characters),
            char_order_key((#[trigger] ts[k]).characters),
        )
}

/// Puts a transition where it belongs among others.
proof fn lemma_insert_in_order(ts: Seq<Transition>, t: Transition) -> (r: Seq<Transition>)
    requires
        in_key_order(ts),
        forall|k: int| 0 <= k < ts.len() ==> char_order_key((#[trigger] ts[k]).characters) != char_order_key(t.characters),
    ensures
        in_key_order(r),
        r.contains(t),
        forall|k: int| 0 <= k < ts.len() ==> r.contains(#[trigger] ts[k]),
        forall|k: int| 0 <= k < r.len() ==> #[trigger] r[k] == t || ts.contains(r[k]),
    decreases ts.len(),
{
    let key = char_order_key(t.characters);
    if ts.len() == 0 {
        let r = seq![t];
        assert(r[0] == t);
        r
    } else {
        let last = ts.last();
        let last_key = char_order_key(last.characters);
        lemma_lex_total(last_key, key);
        assert(char_order_key(ts[ts.len() - 1].characters) != key);
        if lex_lt(last_key, key) {
            let r = ts.push(t);
            assert(r[ts.len() as int] == t);
            assert forall|j: int, k: int| 0 <= j < k < r.len() implies lex_lt(
                char_order_key((#[trigger] r[j]).characters),
                char_order_key((#[trigger] r[k]).characters),
            ) by {
                if k < ts.len() {
                    assert(lex_lt(char_order_key(ts[j].characters), char_order_key(ts[k].characters)));
                } else if j < ts.len() - 1 {
                    assert(lex_lt(char_order_key(ts[j].characters), char_order_key(ts[ts.len() - 1].characters)));
                    lemma_lex_transitive(char_order_key(ts[j].characters), last_key, key);
                }
            }
            assert forall|k: int| 0 <= k < ts.len() implies r.contains(#[trigger] ts[k]) by {
                assert(r[k] == ts[k]);
            }
            assert forall|k: int| 0 <= k < r.len() implies #[trigger] r[k] == t || ts.contains(r[k]) by {
                if k < ts.len() {
                    assert(ts[k] == r[k]);
                }
            }
            r
        } else {
            let front = ts.drop_last();
            assert forall|k: int| 0 <= k < front.len() implies char_order_key((#[trigger] front[k]).characters) != key by {
                assert(front[k] == ts[k]);
            }
            assert forall|j: int, k: int| 0 <= j < k < front.len() implies lex_lt(
                char_order_key((#[trigger] front[j]).characters),
                char_order_key((#[trigger] front[k]).characters),
            ) by {
                assert(front[j] == ts[j] && front[k] == ts[k]);
            }
            let s = lemma_insert_in_order(front, t);
            let r = s.push(last);
            assert forall|j: int, k: int| 0 <= j < k < r.len() implies lex_lt(
                char_order_key((#[trigger] r[j]).characters),
                char_order_key((#[trigger] r[k]).characters),
            ) by {
                if k < s.len() {
                    assert(lex_lt(char_order_key(s[j].characters), char_order_key(s[k].characters)));
                } else if s[j] != t {
                    assert(front.contains(s[j]));
                    let m = choose|m: int| 0 <= m < front.len() && front[m] == s[j];
                    assert(ts[m] == s[j]);
                    assert(lex_lt(char_order_key(ts[m].characters), char_order_key(ts[ts.len() - 1].characters)));
                }
            }
            assert forall|k: int| 0 <= k < ts.len() implies r.contains(#[trigger] ts[k]) by {
                if k < front.len() {
                    assert(s.contains(front[k]));
                    let m = choose|m: int| 0 <= m < s.len() && s[m] == front[k];
                    assert(r[m] == ts[k]);
                } else {
                    assert(r[s.len() as int] == ts[k]);
                }
            }
            assert forall|k: int| 0 <= k < r.len() implies #[trigger] r[k] == t || ts.contains(r[k]) by {
                if k < s.len() {
                    assert(s[k] == r[k]);
                    if s[k] != t {
                        let m = choose|m: int| 0 <= m < front.len() && front[m] == s[k];
                        assert(ts[m] == r[k]);
                    }
                } else {
                    assert(ts[ts.len() - 1] == r[k]);
                }
            }
            let m = choose|m: int| 0 <= m < s.len() && s[m] == t;
            assert(r[m] == t);
            r
        }
    }
}

/// Groups the moves as far as they read code points below `n`.
spec fn is_grouping_below(ms: Seq<Move>, ts: Seq<Transition>, n: nat) -> bool {
    &&& in_key_order(ts)
    &&& forall|k: int| 0 <= k < ts.len() ==> is_class(ms, #[trigger] ts[k])
    &&& forall|c: int| 0 <= c < n && #[trigger] can_move(ms, c) ==> covered(ts, c)
}

spec fn is_class(ms: Seq<Move>, t: Transition) -> bool {
    exists|c: int| 0 <= c < END && can_move(ms, c) && #[trigger] class_of(ms, c) == t
}

proof fn lemma_build_grouping(ms: Seq<Move>, n: nat) -> (ts: Seq<Transition>)
    requires
        n <= END,
    ensures
        is_grouping_below(ms, ts, n),
    decreases n,
{
    if n == 0 {
        Seq::empty()
    } else {
        let front = lemma_build_grouping(ms, (n - 1) as nat);
        let c = n - 1;
        if !can_move(ms, c) || covered(front, c) {
            front
        } else {
            let t = class_of(ms, c);
            lemma_class_of(ms, c);
            assert forall|k: int| 0 <= k < front.len() implies char_order_key((#[trigger] front[k]).characters) != char_order_key(
                t.characters,
            ) by {
                assert(is_class(ms, front[k]));
                let d = choose|d: int| 0 <= d < END && can_move(ms, d) && #[trigger] class_of(ms, d) == front[k];
                lemma_class_of(ms, d);
                if char_order_key(front[k].characters) == char_order_key(t.characters) {
                    lemma_order_key_injective(front[k].characters, t.characters);
                    assert(holds(front[k].characters, c));
                }
            }
            let ts = lemma_insert_in_order(front, t);
            assert(is_class(ms, t));
            assert forall|k: int| 0 <= k < ts.len() implies is_class(ms, #[trigger] ts[k]) by {
                if ts[k] != t {
                    let m = choose|m: int| 0 <= m < front.len() && front[m] == ts[k];
                    assert(is_class(ms, front[m]));
                }
            }
            assert forall|d: int| 0 <= d < n && #[trigger] can_move(ms, d) implies covered(ts, d) by {
                if d == c {
                    let m = choose|m: int| 0 <= m < ts.len() && ts[m] == t;
                    assert(holds(ts[m].characters, d));
                } else {
                    let k = choose|k: int| 0 <= k < front.len() && #[trigger] holds(front[k].characters, d);
                    assert(ts.contains(front[k]));
                    let m = choose|m: int| 0 <= m < ts.len() && ts[m] == front[k];
                    assert(holds(ts[m].characters, d));
                }
            }
            ts
        }
    }
}

/// Moves can always be grouped.
pub proof fn lemma_grouping_exists(ms: Seq<Move>) -> (ts: Seq<Transition>)
    requires
        forall|i: int| 0 <= i < ms.len() ==> ranges_wf((#[trigger] ms[i]).characters),
    ensures
        is_grouping(ms, ts),
{
    let ts = lemma_build_grouping(ms, END as nat);
    assert forall|k: int| 0 <= k < ts.len() implies {
        &&& ranges_wf((#[trigger] ts[k]).characters)
        &&& ts[k].characters.len() > 0
        &&& forall|c: int| #[trigger] holds(ts[k].characters, c) ==> describes(ms, c, ts[k])
    } by {
        assert(is_class(ms, ts[k]));
        let d = choose|d: int| 0 <= d < END && can_move(ms, d) && #[trigger] class_of(ms, d) == ts[k];
        lemma_class_of(ms, d);
    }
    assert forall|c: int| #[trigger] can_move(ms, c) implies covered(ts, c) by {
        let i = choose|i: int| fires(ms, i, c);
        assert(fires(ms, i, c));
        assert(ranges_wf(ms[i].characters));
    }
    assert forall|j: int, k: int| 0 <= j < k < ts.len() implies !same_label(#[trigger] ts[j], #[trigger] ts[k]) by {
        assert(is_class(ms, ts[j]) && is_class(ms, ts[k]));
        let a = choose|d: int| 0 <= d < END && can_move(ms, d) && #[trigger] class_of(ms, d) == ts[j];
        let b = choose|d: int| 0 <= d < END && can_move(ms, d) && #[trigger] class_of(ms, d) == ts[k];
        if same_label(ts[j], ts[k]) {
            let p = |d: int| can_move(ms, d) && same_label(label_of(ms, d), label_of(ms, a));
            let q = |d: int| can_move(ms, d) && same_label(label_of(ms, d), label_of(ms, b));
            lemma_ranges_below(END as nat, p);
            lemma_ranges_below(END as nat, q);
            assert forall|c: int| #[trigger] holds(ts[j].characters, c) == holds(ts[k].characters, c) by {
                assert(p(c) == q(c));
            }
            lemma_canonical(ts[j].characters, ts[k].characters);
            assert(lex_lt(char_order_key(ts[j].characters), char_order_key(ts[k].characters)));
            lemma_lex_irreflexive(char_order_key(ts[j].characters));
        }
    }
    ts
}

proof fn lemma_move_ranges(nfa: &Nfa, ids: Seq<u32>)
    requires
        nfa.wf(),
        nfa.are_states(ids),
    ensures
        forall|i: int| 0 <= i < moves(nfa, ids).len() ==> ranges_wf((#[trigger] moves(nfa, ids)[i]).characters),
    decreases ids.len(),
{
    if ids.len() > 0 {
        let front = ids.drop_last();
        assert forall|i: int| 0 <= i < front.len() implies (#[trigger] front[i]) < nfa.states@.len() by {
            assert(front[i] == ids[i]);
        }
        lemma_move_ranges(nfa, front);
        assert(ids[ids.len() - 1] < nfa.states@.len());
        assert(nfa.state_wf(nfa.states@[ids.last() as int]));
        let ms = moves(nfa, ids);
        let fs = moves(nfa, front);
        assert forall|i: int| 0 <= i < ms.len() implies ranges_wf((#[trigger] ms[i]).characters) by {
            if i < fs.len() {
                assert(ms[i] == fs[i]);
            }
        }
    }
}

/// The transitions of a set of states group its moves.
pub proof fn lemma_transitions_of(nfa: &Nfa, ids: Seq<u32>)
    requires
        nfa.wf(),
        nfa.are_states(ids),
    ensures
        is_grouping(moves(nfa, ids), transitions_of(nfa, ids)),
{
    lemma_move_ranges(nfa, ids);
    let ts = lemma_grouping_exists(moves(nfa, ids));
    assert(is_grouping(moves(nfa, ids), ts));
}

/// A transition leads where reading one of its characters leads.
pub proof fn lemma_transition_is_step(nfa: &Nfa, ids: Seq<u32>, k: int, c: int)
    requires
        nfa.wf(),
        nfa.are_states(ids),
        0 <= k < transitions_of(nfa, ids).len(),
        holds(transitions_of(nfa, ids)[k].characters, c),
    ensures
        nfa.closure(transitions_of(nfa, ids)[k].states.to_set()) == step(nfa, ids, c),
        can_move(moves(nfa, ids), c),
{
    lemma_transitions_of(nfa, ids);
    let t = transitions_of(nfa, ids)[k];
    let ms = moves(nfa, ids);
    assert(describes(ms, c, t));
    assert(t.states.to_set() =~= Set::new(|x: u32| goes_to(ms, c, x)));
    let i = choose|i: int| #[trigger] fires(ms, i, c) && ms[i].precedence == t.precedence;
    assert(fires(ms, i, c));
}

/// A step leads to states of the automaton, and to none if nothing reads the
/// character.
pub proof fn lemma_step(nfa: &Nfa, ids: Seq<u32>, c: int)
    requires
        nfa.wf(),
    ensures
        nfa.are_states(step(nfa, ids, c)),
        step(nfa, ids, c).len() > 0 ==> can_move(moves(nfa, ids), c),
{
    let from = Set::new(|x: u32| goes_to(moves(nfa, ids), c, x));
    nfa.lemma_closure(from);
    let s = step(nfa, ids, c);
    if s.len() > 0 {
        assert(s.contains(s[0]));
        let path = choose|path: Seq<u32>|
            #[trigger] nfa.is_split_path(path) && from.contains(path[0]) && path.last() == s[0];
        assert(goes_to(moves(nfa, ids), c, path[0]));
        let ms = moves(nfa, ids);
        let i = choose|i: int| #[trigger] fires(ms, i, c) && ms[i].state == path[0];
        assert(fires(ms, i, c));
    }
}

/// A run stays on states of the automaton.
pub proof fn lemma_run(nfa: &Nfa, ids: Seq<u32>, text: Seq<int>)
    requires
        nfa.wf(),
        nfa.are_states(ids),
    ensures
        nfa.are_states(run(nfa, ids, text)),
{
    if text.len() > 0 {
        lemma_step(nfa, run(nfa, ids, text.drop_last()), text.last());
    }
}

} // verus!
