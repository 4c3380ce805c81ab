//! The moves that a set of automaton states can make, grouped by character.

use vstd::prelude::*;

use crate::character_set::{
    char_order_key, holds, lemma_canonical, lemma_order_key_injective, ranges_wf, CharRange, CharacterSet,
};
use crate::nfa::{Nfa, NfaState};
use crate::order::{
    goes_before, is_stable_order, lemma_goes_before_asymmetric, lemma_lex_irreflexive, lemma_lex_transitive, lex_lt,
    stable_order, views,
};
use crate::sorted::{insert_sorted, lemma_sorted_unique, same_list, strictly_sorted};

verus! {

/// What one automaton state does: it reads one of `characters` and goes to `state`.
pub struct Move {
    pub characters: Seq<CharRange>,
    pub is_separator: bool,
    pub precedence: i32,
    pub state: u32,
}

/// A transition of a set of automaton states: on each of `characters`, together they
/// go to `states`.
#[verifier::ext_equal]
pub struct Transition {
    pub characters: Seq<CharRange>,
    pub is_separator: bool,
    pub precedence: i32,
    pub states: Seq<u32>,
}

/// A transition of a set of automaton states.
#[derive(Debug)]
pub struct NfaTransition {
    pub characters: CharacterSet,
    pub is_separator: bool,
    pub precedence: i32,
    pub states: Vec<u32>,
}

impl View for NfaTransition {
    type V = Transition;

    open spec fn view(&self) -> Transition {
        Transition {
            characters: self.characters@,
            is_separator: self.is_separator,
            precedence: self.precedence,
            states: self.states@,
        }
    }
}

/// The views of a list of transitions.
pub open spec fn transition_views(ts: Seq<NfaTransition>) -> Seq<Transition> {
    Seq::new(ts.len(), |i: int| ts[i]@)
}

/// The moves of the states `ids`, in order.
pub open spec fn moves(nfa: &Nfa, ids: Seq<u32>) -> Seq<Move>
    decreases ids.len(),
{
    if ids.len() == 0 {
        Seq::empty()
    } else {
        let front = moves(nfa, ids.drop_last());
        match nfa.states@[ids.last() as int] {
            NfaState::Advance { chars, state_id, is_sep, precedence } => front.push(
                Move { characters: chars@, is_separator: is_sep, precedence, state: state_id },
            ),
            _ => front,
        }
    }
}

/// Move `i` reads `c`.
pub open spec fn fires(ms: Seq<Move>, i: int, c: int) -> bool {
    0 <= i < ms.len() && holds(ms[i].characters, c)
}

/// Some move reads `c`.
pub open spec fn can_move(ms: Seq<Move>, c: int) -> bool {
    exists|i: int| fires(ms, i, c)
}

/// `t` says what the moves that read `c` amount to: its states are all of their
/// targets, it is a separator if all of them are, and its precedence is their
/// highest.
pub open spec fn describes(ms: Seq<Move>, c: int, t: Transition) -> bool {
    &&& strictly_sorted(t.states)
    &&& forall|x: u32| #[trigger] t.states.contains(x) <==> goes_to(ms, c, x)
    &&& t.is_separator == (forall|i: int| #[trigger] fires(ms, i, c) ==> ms[i].is_separator)
    &&& exists|i: int| #[trigger] fires(ms, i, c) && ms[i].precedence == t.precedence
    &&& forall|i: int| #[trigger] fires(ms, i, c) ==> ms[i].precedence <= t.precedence
}

/// Some move that reads `c` goes to `x`.
pub open spec fn goes_to(ms: Seq<Move>, c: int, x: u32) -> bool {
    exists|i: int| #[trigger] fires(ms, i, c) && ms[i].state == x
}

/// The two transitions differ in their characters at most.
pub open spec fn same_label(t: Transition, u: Transition) -> bool {
    t.states == u.states && t.is_separator == u.is_separator && t.precedence == u.precedence
}

/// `ts` groups the moves `ms` by character: each character that can be read is in one
/// transition, which describes what it does; characters that do the same are in the
/// same transition; and the transitions are ordered by their characters.
pub open spec fn is_grouping(ms: Seq<Move>, ts: Seq<Transition>) -> bool {
    &&& forall|k: int| 0 <= k < ts.len() ==> ranges_wf((#[trigger] ts[k]).characters) && ts[k].characters.len() > 0
    &&& forall|k: int, c: int|
        0 <= k < ts.len() && #[trigger] holds(ts[k].characters, c) ==> describes(ms, c, ts[k])
    &&& forall|c: int| #[trigger] can_move(ms, c) ==> covered(ts, c)
    &&& forall|j: int, k: int| 0 <= j < k < ts.len() ==> !same_label(#[trigger] ts[j], #[trigger] ts[k])
    &&& forall|j: int, k: int|
        0 <= j < k < ts.len() ==> lex_lt(
            char_order_key((#[trigger] ts[j]).characters),
            char_order_key((#[trigger] ts[k]).characters),
        )
}

/// Some transition has `c`.
pub open spec fn covered(ts: Seq<Transition>, c: int) -> bool {
    exists|k: int| 0 <= k < ts.len() && #[trigger] holds(ts[k].characters, c)
}

/// The transitions of the states `ids`.
pub open spec fn transitions_of(nfa: &Nfa, ids: Seq<u32>) -> Seq<Transition> {
    choose|ts: Seq<Transition>| is_grouping(moves(nfa, ids), ts)
}

/// Some move is that of a separator.
pub open spec fn any_separator(ms: Seq<Move>) -> bool {
    exists|i: int| 0 <= i < ms.len() && (#[trigger] ms[i]).is_separator
}

/// Two descriptions of one character agree.
pub proof fn lemma_describes_unique(ms: Seq<Move>, c: int, t: Transition, u: Transition)
    requires
        describes(ms, c, t),
        describes(ms, c, u),
    ensures
        same_label(t, u),
{
    lemma_sorted_unique(t.states, u.states);
    let i = choose|i: int| #[trigger] fires(ms, i, c) && ms[i].precedence == t.precedence;
    let j = choose|j: int| #[trigger] fires(ms, j, c) && ms[j].precedence == u.precedence;
    assert(fires(ms, i, c) && fires(ms, j, c));
}

/// Moves can be grouped in one way only.
pub proof fn lemma_grouping_unique(ms: Seq<Move>, ts: Seq<Transition>, us: Seq<Transition>)
    requires
        is_grouping(ms, ts),
        is_grouping(ms, us),
    ensures
        ts == us,
{
    lemma_grouping_same_elements(ms, ts, us);
    lemma_grouping_same_elements(ms, us, ts);
    lemma_sorted_by_characters_unique(ts, us);
}

proof fn lemma_grouping_same_elements(ms: Seq<Move>, ts: Seq<Transition>, us: Seq<Transition>)
    requires
        is_grouping(ms, ts),
        is_grouping(ms, us),
    ensures
        forall|k: int| 0 <= k < ts.len() ==> us.contains(#[trigger] ts[k]),
{
    assert forall|k: int| 0 <= k < ts.len() implies us.contains(#[trigger] ts[k]) by {
        let t = ts[k];
        let c = t.characters[0].start as int;
        assert(t.characters[0].start <= c < t.characters[0].end);
        assert(holds(ts[k].characters, c));
        let w = choose|i: int| #[trigger] fires(ms, i, c) && ms[i].precedence == t.precedence;
        assert(can_move(ms, c));
        let m = choose|m: int| 0 <= m < us.len() && #[trigger] holds(us[m].characters, c);
        let u = us[m];
        lemma_describes_unique(ms, c, t, u);
        assert forall|d: int| #[trigger] holds(t.characters, d) == holds(u.characters, d) by {
            if holds(ts[k].characters, d) {
                let i = choose|i: int| #[trigger] fires(ms, i, d) && ms[i].precedence == t.precedence;
                assert(can_move(ms, d));
                let n = choose|n: int| 0 <= n < us.len() && #[trigger] holds(us[n].characters, d);
                lemma_describes_unique(ms, d, t, us[n]);
                assert(same_label(us[n], us[m]));
                assert(n == m);
            }
            if holds(us[m].characters, d) {
                let i = choose|i: int| #[trigger] fires(ms, i, d) && ms[i].precedence == u.precedence;
                assert(can_move(ms, d));
                let n = choose|n: int| 0 <= n < ts.len() && #[trigger] holds(ts[n].characters, d);
                lemma_describes_unique(ms, d, u, ts[n]);
                assert(same_label(ts[n], ts[k]));
                assert(n == k);
            }
        }
        lemma_canonical(t.characters, u.characters);
        assert(t =~= u);
    }
}

spec fn sorted_by_characters(ts: Seq<Transition>) -> bool {
    forall|j: int, k: int|
        0 <= j < k < ts.len() ==> lex_lt(
            char_order_key((#[trigger] ts[j]).characters),
            char_order_key((#[trigger] ts[k]).characters),
        )
}

proof fn lemma_sorted_by_characters_unique(ts: Seq<Transition>, us: Seq<Transition>)
    requires
        sorted_by_characters(ts),
        sorted_by_characters(us),
        forall|k: int| 0 <= k < ts.len() ==> us.contains(#[trigger] ts[k]),
        forall|k: int| 0 <= k < us.len() ==> ts.contains(#[trigger] us[k]),
    ensures
        ts == us,
    decreases ts.len(),
{
    if ts.len() == 0 {
        if us.len() > 0 {
            assert(ts.contains(us[0]));
        }
        assert(ts =~= us);
    } else {
        assert(us.contains(ts[0]));
        let last_t = ts.last();
        let last_u = us.last();
        assert(us.contains(ts[ts.len() - 1]));
        assert(ts.contains(us[us.len() - 1]));
        let m = choose|m: int| 0 <= m < us.len() && us[m] == last_t;
        let n = choose|n: int| 0 <= n < ts.len() && ts[n] == last_u;
        if m != us.len() - 1 {
            assert(lex_lt(char_order_key(us[m].characters), char_order_key(us[us.len() - 1].characters)));
            if n != ts.len() - 1 {
                assert(lex_lt(char_order_key(ts[n].characters), char_order_key(ts[ts.len() - 1].characters)));
                lemma_lex_transitive(
                    char_order_key(last_t.characters),
                    char_order_key(last_u.characters),
                    char_order_key(last_t.characters),
                );
            }
            lemma_lex_irreflexive(char_order_key(last_t.characters));
        }
        assert(last_t == last_u);
        let a = ts.drop_last();
        let b = us.drop_last();
        assert forall|k: int| 0 <= k < a.len() implies b.contains(#[trigger] a[k]) by {
            assert(us.contains(ts[k]));
            let p = choose|p: int| 0 <= p < us.len() && us[p] == ts[k];
            if p == us.len() - 1 {
                assert(lex_lt(char_order_key(ts[k].characters), char_order_key(ts[ts.len() - 1].characters)));
                lemma_lex_irreflexive(char_order_key(last_t.characters));
            }
            assert(b[p] == a[k]);
        }
        assert forall|k: int| 0 <= k < b.len() implies a.contains(#[trigger] b[k]) by {
            assert(ts.contains(us[k]));
            let p = choose|p: int| 0 <= p < ts.len() && ts[p] == us[k];
            if p == ts.len() - 1 {
                assert(lex_lt(char_order_key(us[k].characters), char_order_key(us[us.len() - 1].characters)));
                lemma_lex_irreflexive(char_order_key(last_u.characters));
            }
            assert(a[p] == b[k]);
        }
        lemma_sorted_by_characters_unique(a, b);
        assert(ts =~= a.push(last_t));
        assert(us =~= b.push(last_u));
    }
}

/// A transition that is right about every one of its characters.
spec fn is_piece(ms: Seq<Move>, t: Transition) -> bool {
    &&& ranges_wf(t.characters)
    &&& t.characters.len() > 0
    &&& forall|c: int| #[trigger] holds(t.characters, c) ==> describes(ms, c, t)
}

/// No character is in both sets.
spec fn apart(a: Seq<CharRange>, b: Seq<CharRange>) -> bool {
    forall|c: int| !(#[trigger] holds(a, c) && holds(b, c))
}

/// The transitions are right, no two have a character in common, and every character
/// that can be read is in one of them.
spec fn is_partition(ms: Seq<Move>, ts: Seq<NfaTransition>) -> bool {
    &&& is_piece_list(ms, ts)
    &&& forall|c: int| #[trigger] can_move(ms, c) ==> in_list(ts, c)
}

proof fn lemma_fires_push(ms: Seq<Move>, m: Move)
    ensures
        forall|i: int, c: int|
            #[trigger] fires(ms.push(m), i, c) <==> fires(ms, i, c) || (i == ms.len() && holds(m.characters, c)),
        forall|i: int, c: int| #[trigger] fires(ms, i, c) ==> fires(ms.push(m), i, c),
        forall|i: int| 0 <= i < ms.len() ==> ms.push(m)[i] == ms[i],
{
}

/// A move that does not read `c` changes nothing for `c`.
proof fn lemma_describes_other(ms: Seq<Move>, m: Move, c: int, t: Transition)
    requires
        describes(ms, c, t),
        !holds(m.characters, c),
    ensures
        describes(ms.push(m), c, t),
{
    lemma_fires_push(ms, m);
    let all = ms.push(m);
    assert forall|x: u32| #[trigger] t.states.contains(x) <==> goes_to(all, c, x) by {
        if goes_to(ms, c, x) {
            let i = choose|i: int| #[trigger] fires(ms, i, c) && ms[i].state == x;
            assert(fires(all, i, c));
        }
        if goes_to(all, c, x) {
            let i = choose|i: int| #[trigger] fires(all, i, c) && all[i].state == x;
            assert(fires(ms, i, c));
        }
    }
    let i = choose|i: int| #[trigger] fires(ms, i, c) && ms[i].precedence == t.precedence;
    assert(fires(all, i, c));
    assert forall|i: int| #[trigger] fires(all, i, c) implies all[i].precedence <= t.precedence by {
        assert(fires(ms, i, c));
    }
    if forall|i: int| #[trigger] fires(ms, i, c) ==> ms[i].is_separator {
        assert forall|i: int| #[trigger] fires(all, i, c) implies all[i].is_separator by {
            assert(fires(ms, i, c));
        }
    } else {
        let i = choose|i: int| #[trigger] fires(ms, i, c) && !ms[i].is_separator;
        assert(fires(all, i, c) && !all[i].is_separator);
    }
}

/// A move that reads `c`, like others before it.
proof fn lemma_describes_joined(ms: Seq<Move>, m: Move, c: int, t: Transition, u: Transition)
    requires
        describes(ms, c, t),
        holds(m.characters, c),
        strictly_sorted(u.states),
        forall|x: u32| #[trigger] u.states.contains(x) <==> t.states.contains(x) || x == m.state,
        u.is_separator == (t.is_separator && m.is_separator),
        u.precedence == (if t.precedence < m.precedence { m.precedence } else { t.precedence }),
    ensures
        describes(ms.push(m), c, u),
{
    lemma_fires_push(ms, m);
    let all = ms.push(m);
    assert(fires(all, ms.len() as int, c));
    assert forall|x: u32| #[trigger] u.states.contains(x) <==> goes_to(all, c, x) by {
        assert(t.states.contains(x) <==> goes_to(ms, c, x));
        if goes_to(ms, c, x) {
            let i = choose|i: int| #[trigger] fires(ms, i, c) && ms[i].state == x;
            assert(fires(all, i, c));
        }
        if goes_to(all, c, x) {
            let i = choose|i: int| #[trigger] fires(all, i, c) && all[i].state == x;
            if i < ms.len() {
                assert(fires(ms, i, c));
            }
        }
    }
    let i = choose|i: int| #[trigger] fires(ms, i, c) && ms[i].precedence == t.precedence;
    assert(fires(all, i, c));
    assert forall|i: int| #[trigger] fires(all, i, c) implies all[i].precedence <= u.precedence by {
        if i < ms.len() {
            assert(fires(ms, i, c));
        }
    }
    if forall|i: int| #[trigger] fires(ms, i, c) ==> ms[i].is_separator {
        if m.is_separator {
            assert forall|i: int| #[trigger] fires(all, i, c) implies all[i].is_separator by {
                if i < ms.len() {
                    assert(fires(ms, i, c));
                }
            }
        }
    } else {
        let i = choose|i: int| #[trigger] fires(ms, i, c) && !ms[i].is_separator;
        assert(fires(all, i, c) && !all[i].is_separator);
    }
}

/// The first move that reads `c`.
proof fn lemma_describes_first(ms: Seq<Move>, m: Move, c: int, u: Transition)
    requires
        !can_move(ms, c),
        holds(m.characters, c),
        u.states == seq![m.state],
        u.is_separator == m.is_separator,
        u.precedence == m.precedence,
    ensures
        describes(ms.push(m), c, u),
{
    lemma_fires_push(ms, m);
    let all = ms.push(m);
    assert(forall|i: int| !fires(ms, i, c));
    assert(fires(all, ms.len() as int, c));
    assert forall|x: u32| #[trigger] u.states.contains(x) <==> goes_to(all, c, x) by {
        assert(u.states[0] == m.state);
        if goes_to(all, c, x) {
            let i = choose|i: int| #[trigger] fires(all, i, c) && all[i].state == x;
            assert(!fires(ms, i, c));
        }
    }
}

/// Some transition of the list has `c`.
spec fn in_list(ts: Seq<NfaTransition>, c: int) -> bool {
    exists|k: int| 0 <= k < ts.len() && holds((#[trigger] ts[k]).characters@, c)
}

/// Pieces of a partition that is being rebuilt.
spec fn is_piece_list(ms: Seq<Move>, ts: Seq<NfaTransition>) -> bool {
    &&& forall|k: int| 0 <= k < ts.len() ==> is_piece(ms, (#[trigger] ts[k])@)
    &&& forall|j: int, k: int|
        0 <= j < k < ts.len() ==> apart((#[trigger] ts[j]).characters@, (#[trigger] ts[k]).characters@)
}

proof fn lemma_piece_list_push(ms: Seq<Move>, ts: Seq<NfaTransition>, t: NfaTransition)
    requires
        is_piece_list(ms, ts),
        is_piece(ms, t@),
        forall|c: int| #[trigger] holds(t.characters@, c) ==> !in_list(ts, c),
    ensures
        is_piece_list(ms, ts.push(t)),
        forall|c: int| #[trigger] in_list(ts.push(t), c) <==> in_list(ts, c) || holds(t.characters@, c),
{
    let all = ts.push(t);
    assert forall|j: int, k: int| 0 <= j < k < all.len() implies apart(
        (#[trigger] all[j]).characters@,
        (#[trigger] all[k]).characters@,
    ) by {
        if k < ts.len() {
            assert(apart(ts[j].characters@, ts[k].characters@));
        } else {
            assert forall|c: int| !(#[trigger] holds(all[j].characters@, c) && holds(all[k].characters@, c)) by {
                if holds(ts[j].characters@, c) && holds(t.characters@, c) {
                    assert(in_list(ts, c));
                }
            }
        }
    }
    assert forall|c: int| #[trigger] in_list(all, c) <==> in_list(ts, c) || holds(t.characters@, c) by {
        if in_list(all, c) {
            let k = choose|k: int| 0 <= k < all.len() && holds((#[trigger] all[k]).characters@, c);
            if k < ts.len() {
                assert(holds(ts[k].characters@, c));
            }
        }
        if in_list(ts, c) {
            let k = choose|k: int| 0 <= k < ts.len() && holds((#[trigger] ts[k]).characters@, c);
            assert(holds(all[k].characters@, c));
        }
        if holds(t.characters@, c) {
            assert(holds(all[ts.len() as int].characters@, c));
        }
    }
}

/// Takes one more move into account.
fn add_move(
    parts: Vec<NfaTransition>,
    characters: CharacterSet,
    is_separator: bool,
    precedence: i32,
    state: u32,
    ms: Ghost<Seq<Move>>,
) -> (r: Vec<NfaTransition>)
    requires
        is_partition(ms@, parts@),
        characters.wf(),
    ensures
        is_partition(ms@.push(Move { characters: characters@, is_separator, precedence, state }), r@),
{
    let ghost m = Move { characters: characters@, is_separator, precedence, state };
    let ghost all = ms@.push(m);
    let mut rest = parts;
    let mut chars = characters;
    let mut out: Vec<NfaTransition> = Vec::new();
    while rest.len() > 0
        invariant
            all == ms@.push(m),
            m == (Move { characters: m.characters, is_separator, precedence, state }),
            chars.wf(),
            is_piece_list(ms@, rest@),
            is_piece_list(all, out@),
            forall|c: int| #[trigger] in_list(rest@, c) ==> !in_list(out@, c),
            forall|c: int| #[trigger] can_move(ms@, c) ==> in_list(rest@, c) || in_list(out@, c),
            forall|c: int| #[trigger] holds(chars@, c) <==> holds(m.characters, c) && !in_list(out@, c),
        decreases rest.len(),
    {
        let ghost rest0 = rest@;
        let ghost out0 = out@;
        let ghost chars0 = chars@;
        let n = rest.len();
        let t = rest.remove(n - 1);
        let ghost old_t = t@;
        proof {
            assert(t == rest0[n - 1]);
            assert(is_piece(ms@, rest0[n - 1]@));
            assert(rest@ =~= rest0.drop_last());
            assert forall|c: int| #[trigger] in_list(rest0, c) <==> in_list(rest@, c) || holds(old_t.characters, c) by {
                if in_list(rest0, c) {
                    let k = choose|k: int| 0 <= k < rest0.len() && holds((#[trigger] rest0[k]).characters@, c);
                    if k < n - 1 {
                        assert(holds(rest@[k].characters@, c));
                    }
                }
                if in_list(rest@, c) {
                    let k = choose|k: int| 0 <= k < rest@.len() && holds((#[trigger] rest@[k]).characters@, c);
                    assert(holds(rest0[k].characters@, c));
                }
            }
            assert forall|c: int| #[trigger] holds(old_t.characters, c) implies !in_list(rest@, c) by {
                if in_list(rest@, c) {
                    let k = choose|k: int| 0 <= k < rest@.len() && holds((#[trigger] rest@[k]).characters@, c);
                    assert(apart(rest0[k].characters@, rest0[n - 1].characters@));
                    assert(holds(rest0[k].characters@, c));
                }
            }
            assert forall|c: int| #[trigger] in_list(rest@, c) implies !in_list(out0, c) by {
                assert(in_list(rest0, c));
            }
        }
        let NfaTransition { characters: mut kept, is_separator: t_separator, precedence: t_precedence, states: t_states } = t;
        let shared = kept.remove_intersection(&mut chars);
        let ghost both = shared@;
        let ghost mut out1 = out0;
        if !shared.is_empty() {
            let mut joined = t_states.clone();
            proof {
                let c = shared@[0].start as int;
                assert(holds(shared@, c));
                assert(holds(old_t.characters, c));
                assert(describes(ms@, c, old_t));
            }
            insert_sorted(&mut joined, state);
            let piece = NfaTransition {
                characters: shared,
                is_separator: t_separator && is_separator,
                precedence: if t_precedence < precedence { precedence } else { t_precedence },
                states: joined,
            };
            proof {
                assert forall|c: int| #[trigger] holds(piece@.characters, c) implies describes(all, c, piece@) by {
                    assert(holds(old_t.characters, c));
                    assert(holds(chars0, c));
                    lemma_describes_joined(ms@, m, c, old_t, piece@);
                }
                assert(is_piece(all, piece@));
                assert forall|c: int| #[trigger] holds(piece.characters@, c) implies !in_list(out0, c) by {
                    assert(holds(chars0, c));
                }
                lemma_piece_list_push(all, out0, piece);
            }
            out.push(piece);
            proof {
                out1 = out@;
            }
        }
        assert forall|c: int| #[trigger] in_list(out1, c) <==> in_list(out0, c) || (holds(old_t.characters, c) && holds(chars0, c)) by {
            assert(holds(both, c) <==> holds(old_t.characters, c) && holds(chars0, c));
        }
        if !kept.is_empty() {
            let piece = NfaTransition {
                characters: kept,
                is_separator: t_separator,
                precedence: t_precedence,
                states: t_states,
            };
            proof {
                assert forall|c: int| #[trigger] holds(piece@.characters, c) implies describes(all, c, piece@) by {
                    assert(holds(old_t.characters, c));
                    assert(in_list(rest0, c));
                    assert(!in_list(out0, c));
                    assert(!holds(chars0, c));
                    assert(describes(ms@, c, old_t));
                    lemma_describes_other(ms@, m, c, old_t);
                    assert(same_label(piece@, old_t));
                }
                assert(is_piece(all, piece@));
                assert forall|c: int| #[trigger] holds(piece.characters@, c) implies !in_list(out1, c) by {
                    assert(holds(old_t.characters, c));
                    assert(in_list(rest0, c));
                }
                lemma_piece_list_push(all, out1, piece);
            }
            out.push(piece);
        }
        proof {
            assert forall|c: int| #[trigger] in_list(out@, c) <==> in_list(out0, c) || holds(old_t.characters, c) by {
                assert(in_list(out1, c) <==> in_list(out0, c) || (holds(old_t.characters, c) && holds(chars0, c)));
            }
            assert forall|c: int| #[trigger] in_list(rest@, c) implies !in_list(out@, c) by {
                assert(in_list(rest0, c));
                assert(!holds(old_t.characters, c));
            }
            assert forall|c: int| #[trigger] holds(chars@, c) <==> holds(m.characters, c) && !in_list(out@, c) by {
                assert(holds(chars0, c) <==> holds(m.characters, c) && !in_list(out0, c));
            }
            assert forall|c: int| #[trigger] can_move(ms@, c) implies in_list(rest@, c) || in_list(out@, c) by {
                assert(in_list(rest0, c) || in_list(out0, c));
            }
        }
    }
    let ghost out1 = out@;
    let ghost left = chars@;
    assert(forall|c: int| !in_list(rest@, c));
    if !chars.is_empty() {
        let mut states: Vec<u32> = Vec::new();
        states.push(state);
        let piece = NfaTransition { characters: chars, is_separator, precedence, states };
        proof {
            assert forall|c: int| #[trigger] holds(piece@.characters, c) implies describes(all, c, piece@) by {
                assert(!in_list(out1, c));
                assert(!can_move(ms@, c));
                assert(piece@.states =~= seq![m.state]);
                lemma_describes_first(ms@, m, c, piece@);
            }
            assert(is_piece(all, piece@));
            lemma_piece_list_push(all, out1, piece);
        }
        out.push(piece);
    }
    proof {
        assert forall|c: int| #[trigger] can_move(all, c) implies in_list(out@, c) by {
            lemma_fires_push(ms@, m);
            let i = choose|i: int| fires(all, i, c);
            assert(fires(all, i, c));
            if i < ms@.len() {
                assert(fires(ms@, i, c));
                assert(can_move(ms@, c));
            } else {
                assert(holds(left, c) <==> holds(m.characters, c) && !in_list(out1, c));
            }
        }
    }
    out
}

/// Transitions that differ in more than their characters.
spec fn are_merged(ms: Seq<Move>, ts: Seq<NfaTransition>) -> bool {
    &&& forall|k: int| 0 <= k < ts.len() ==> is_piece(ms, (#[trigger] ts[k])@)
    &&& forall|j: int, k: int| 0 <= j < k < ts.len() ==> !same_label((#[trigger] ts[j])@, (#[trigger] ts[k])@)
}

/// Joins the transitions that differ in their characters only.
fn merge_alike(parts: Vec<NfaTransition>, ms: Ghost<Seq<Move>>) -> (r: Vec<NfaTransition>)
    requires
        is_partition(ms@, parts@),
    ensures
        are_merged(ms@, r@),
        forall|c: int| #[trigger] can_move(ms@, c) ==> in_list(r@, c),
{
    let mut rest = parts;
    let mut out: Vec<NfaTransition> = Vec::new();
    while rest.len() > 0
        invariant
            forall|k: int| 0 <= k < rest@.len() ==> is_piece(ms@, (#[trigger] rest@[k])@),
            are_merged(ms@, out@),
            forall|c: int| #[trigger] can_move(ms@, c) ==> in_list(rest@, c) || in_list(out@, c),
        decreases rest.len(),
    {
        let ghost rest0 = rest@;
        let ghost out0 = out@;
        let n = rest.len();
        let t = rest.remove(n - 1);
        assert(t == rest0[n - 1]);
        assert(is_piece(ms@, t@));
        let mut j: usize = 0;
        while j < out.len() && !(same_list(&out[j].states, &t.states) && out[j].is_separator == t.is_separator
            && out[j].precedence == t.precedence)
            invariant
                j <= out@.len(),
                out@ == out0,
                forall|k: int| 0 <= k < j ==> !same_label((#[trigger] out@[k])@, t@),
            decreases out.len() - j,
        {
            j = j + 1;
        }
        let ghost removed = j < out0.len();
        if j < out.len() {
            let u = out.remove(j);
            proof {
                assert(u == out0[j as int]);
                assert(is_piece(ms@, out0[j as int]@));
                assert(out@ == out0.remove(j as int));
            }
            let ghost old_u = u@;
            let ghost front = out@;
            let NfaTransition { characters: u_characters, is_separator, precedence, states } = u;
            let characters = u_characters.add(&t.characters);
            let piece = NfaTransition { characters, is_separator, precedence, states };
            out.push(piece);
            proof {
                assert(same_label(old_u, t@));
                assert forall|c: int| #[trigger] holds(piece@.characters, c) implies describes(ms@, c, piece@) by {
                    if holds(old_u.characters, c) {
                        assert(describes(ms@, c, old_u));
                    } else {
                        assert(holds(t@.characters, c));
                        assert(describes(ms@, c, t@));
                    }
                }
                assert(piece@.characters.len() > 0) by {
                    let c = old_u.characters[0].start as int;
                    assert(holds(old_u.characters, c));
                    assert(holds(piece@.characters, c));
                }
                assert(is_piece(ms@, piece@));
                assert forall|k: int| 0 <= k < out@.len() implies is_piece(ms@, (#[trigger] out@[k])@) by {
                    if k < front.len() {
                        let o = if k < j { k } else { k + 1 };
                        assert(out@[k] == out0[o]);
                    }
                }
                assert forall|a: int, b: int| 0 <= a < b < out@.len() implies !same_label(
                    (#[trigger] out@[a])@,
                    (#[trigger] out@[b])@,
                ) by {
                    let oa = if a < j { a } else { a + 1 };
                    let ob = if b < j { b } else { b + 1 };
                    assert(out@[a] == out0[oa]);
                    if b < front.len() {
                        assert(out@[b] == out0[ob]);
                    } else {
                        assert(!same_label(out0[oa]@, out0[j as int]@));
                    }
                }
                assert forall|c: int| #[trigger] can_move(ms@, c) implies in_list(rest@, c) || in_list(out@, c) by {
                    if in_list(rest0, c) {
                        let k = choose|k: int| 0 <= k < rest0.len() && holds((#[trigger] rest0[k]).characters@, c);
                        if k < n - 1 {
                            assert(holds(rest@[k].characters@, c));
                        } else {
                            assert(holds(out@[front.len() as int].characters@, c));
                        }
                    } else {
                        let k = choose|k: int| 0 <= k < out0.len() && holds((#[trigger] out0[k]).characters@, c);
                        if k == j {
                            assert(holds(out@[front.len() as int].characters@, c));
                        } else {
                            let o = if k < j { k } else { k - 1 };
                            assert(out@[o] == out0[k]);
                        }
                    }
                }
            }
        } else {
            out.push(t);
            proof {
                assert forall|c: int| #[trigger] can_move(ms@, c) implies in_list(rest@, c) || in_list(out@, c) by {
                    if in_list(rest0, c) {
                        let k = choose|k: int| 0 <= k < rest0.len() && holds((#[trigger] rest0[k]).characters@, c);
                        if k < n - 1 {
                            assert(holds(rest@[k].characters@, c));
                        } else {
                            assert(holds(out@[out0.len() as int].characters@, c));
                        }
                    } else {
                        let k = choose|k: int| 0 <= k < out0.len() && holds((#[trigger] out0[k]).characters@, c);
                        assert(out@[k] == out0[k]);
                    }
                }
            }
        }
        assert forall|k: int| 0 <= k < rest@.len() implies is_piece(ms@, (#[trigger] rest@[k])@) by {
            assert(rest@[k] == rest0[k]);
        }
    }
    assert forall|c: int| #[trigger] can_move(ms@, c) implies in_list(out@, c) by {
        assert(in_list(rest@, c) || in_list(out@, c));
    }
    out
}

impl Clone for NfaTransition {
    fn clone(&self) -> (r: Self)
        ensures
            r@ == self@,
    {
        NfaTransition {
            characters: self.characters.clone(),
            is_separator: self.is_separator,
            precedence: self.precedence,
            states: self.states.clone(),
        }
    }
}

/// Puts the transitions in order.
fn order_transitions(parts: Vec<NfaTransition>, ms: Ghost<Seq<Move>>) -> (r: Vec<NfaTransition>)
    requires
        are_merged(ms@, parts@),
        forall|c: int| #[trigger] can_move(ms@, c) ==> in_list(parts@, c),
    ensures
        is_grouping(ms@, transition_views(r@)),
{
    let mut keys: Vec<Vec<u32>> = Vec::new();
    let mut i: usize = 0;
    while i < parts.len()
        invariant
            i <= parts@.len(),
            are_merged(ms@, parts@),
            keys@.len() == i,
            forall|k: int| 0 <= k < i ==> (#[trigger] keys@[k])@ == char_order_key(parts@[k].characters@),
        decreases parts.len() - i,
    {
        assert(is_piece(ms@, parts@[i as int]@));
        let key = parts[i].characters.order_key();
        keys.push(key);
        i = i + 1;
    }
    let order = stable_order(&keys);
    let ghost ks = views(keys@);
    let mut out: Vec<NfaTransition> = Vec::new();
    let mut k: usize = 0;
    while k < order.len()
        invariant
            k <= order@.len(),
            is_stable_order(ks, order@),
            ks.len() == parts@.len(),
            out@.len() == k,
            forall|m: int| 0 <= m < k ==> (#[trigger] out@[m])@ == parts@[order@[m] as int]@,
        decreases order.len() - k,
    {
        assert(order@[k as int] < ks.len());
        out.push(parts[order[k]].clone());
        k = k + 1;
    }
    proof {
        let ts = transition_views(out@);
        assert forall|m: int| 0 <= m < ts.len() implies #[trigger] ts[m] == parts@[order@[m] as int]@ && order@[m] < parts@.len() by {
            assert(ts[m] == out@[m]@);
            assert(order@[m] < ks.len());
        }
        assert forall|m: int| 0 <= m < ts.len() implies is_piece(ms@, #[trigger] ts[m]) by {
            assert(is_piece(ms@, parts@[order@[m] as int]@));
        }
        assert forall|c: int| #[trigger] can_move(ms@, c) implies covered(ts, c) by {
            assert(in_list(parts@, c));
            let p = choose|p: int| 0 <= p < parts@.len() && holds((#[trigger] parts@[p]).characters@, c);
            assert(order@.contains(p as usize));
            let m = choose|m: int| 0 <= m < order@.len() && order@[m] == p as usize;
            assert(holds(ts[m].characters, c));
        }
        assert forall|a: int, b: int| 0 <= a < b < ts.len() implies !same_label(
            #[trigger] ts[a],
            #[trigger] ts[b],
        ) && lex_lt(char_order_key(ts[a].characters), char_order_key(ts[b].characters)) by {
            let x = order@[a] as int;
            let y = order@[b] as int;
            assert(goes_before(ks, x, y));
            assert(ks[x] == char_order_key(parts@[x].characters@));
            assert(ks[y] == char_order_key(parts@[y].characters@));
            lemma_goes_before_asymmetric(ks, x, y);
            if x < y {
                assert(!same_label(parts@[x]@, parts@[y]@));
            } else {
                assert(!same_label(parts@[y]@, parts@[x]@));
            }
            if ks[x] == ks[y] {
                assert(is_piece(ms@, parts@[x]@) && is_piece(ms@, parts@[y]@));
                lemma_order_key_injective(parts@[x].characters@, parts@[y].characters@);
                let c = parts@[x].characters@[0].start as int;
                assert(holds(parts@[x].characters@, c));
                lemma_describes_unique(ms@, c, parts@[x]@, parts@[y]@);
            }
        }
    }
    out
}

/// The transitions of the states `ids`, and whether any of their moves is that of a
/// separator.
pub fn group_transitions(nfa: &Nfa, ids: &Vec<u32>) -> (r: (Vec<NfaTransition>, bool))
    requires
        nfa.wf(),
        nfa.are_states(ids@),
    ensures
        transition_views(r.0@) == transitions_of(nfa, ids@),
        is_grouping(moves(nfa, ids@), transition_views(r.0@)),
        r.1 == any_separator(moves(nfa, ids@)),
{
    let mut parts: Vec<NfaTransition> = Vec::new();
    let mut any_sep = false;
    let mut i: usize = 0;
    assert(ids@.take(0).len() == 0);
    assert(is_partition(moves(nfa, ids@.take(0)), parts@)) by {
        assert forall|c: int| !can_move(moves(nfa, ids@.take(0)), c) by {}
    }
    while i < ids.len()
        invariant
            nfa.wf(),
            nfa.are_states(ids@),
            i <= ids@.len(),
            is_partition(moves(nfa, ids@.take(i as int)), parts@),
            any_sep == any_separator(moves(nfa, ids@.take(i as int))),
        decreases ids.len() - i,
    {
        let id = ids[i];
        let ghost front = moves(nfa, ids@.take(i as int));
        let ghost longer = moves(nfa, ids@.take(i + 1));
        proof {
            assert(ids@.take(i + 1).drop_last() =~= ids@.take(i as int));
            assert(ids@.take(i + 1).last() == id);
            assert(ids@[i as int] < nfa.states@.len());
            assert(nfa.state_wf(nfa.states@[id as int]));
        }
        match &nfa.states[id as usize] {
            NfaState::Advance { chars, state_id, is_sep, precedence } => {
                let ghost m = Move {
                    characters: chars@,
                    is_separator: *is_sep,
                    precedence: *precedence,
                    state: *state_id,
                };
                assert(longer == front.push(m));
                parts = add_move(parts, chars.clone(), *is_sep, *precedence, *state_id, Ghost(front));
                proof {
                    if any_separator(front) {
                        let k = choose|k: int| 0 <= k < front.len() && (#[trigger] front[k]).is_separator;
                        assert(longer[k].is_separator);
                    }
                    if *is_sep {
                        assert(longer[front.len() as int].is_separator);
                    }
                    if any_separator(longer) {
                        let k = choose|k: int| 0 <= k < longer.len() && (#[trigger] longer[k]).is_separator;
                        if k < front.len() {
                            assert(front[k].is_separator);
                        }
                    }
                }
                any_sep = any_sep || *is_sep;
            },
            _ => {
                assert(longer == front);
            },
        }
        i = i + 1;
    }
    assert(ids@.take(i as int) =~= ids@);
    let ghost ms = moves(nfa, ids@);
    let merged = merge_alike(parts, Ghost(ms));
    let result = order_transitions(merged, Ghost(ms));
    proof {
        lemma_grouping_unique(ms, transition_views(result@), transitions_of(nfa, ids@));
    }
    (result, any_sep)
}

} // verus!
