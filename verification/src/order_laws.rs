//! In which order the states of a lexer and their actions are.

use vstd::prelude::*;

use crate::character_set::{char_order_key, lemma_size_bound, ranges_wf, size, CharRange};
use crate::configs::{config_wf, configs_wf, is_kept, kept_of, lemma_kept_of, table_for, Config};
use crate::grammars::LexicalGrammar;
use crate::order::{decided_at, goes_before, lex_lt};
use crate::rules::{Symbol, SymbolType};
use crate::runs::lemma_transitions_of;
use crate::sort_laws::law_sorting_orders;
use crate::sort_states::{sorted_ids, state_keys};
use crate::tables::{action_key, actions_key, eof_key, state_key, state_wf, symbol_key, AdvanceAction, StateModel};
use crate::transitions::{transitions_of, Transition};

verus! {

/// The place of a kind of symbols among the kinds.
pub open spec fn place_of_kind(kind: SymbolType) -> int {
    match kind {
        SymbolType::External => 0,
        SymbolType::End => 1,
        SymbolType::EndOfNonTerminalExtra => 2,
        SymbolType::Terminal => 3,
        SymbolType::NonTerminal => 4,
    }
}

/// No symbol comes first; symbols go by kind, then by number.
pub open spec fn symbol_goes_before(a: Option<Symbol>, b: Option<Symbol>) -> bool {
    match (a, b) {
        (None, Some(_)) => true,
        (Some(x), Some(y)) => place_of_kind(x.kind) < place_of_kind(y.kind) || (x.kind == y.kind && x.index < y.index),
        _ => false,
    }
}

/// Actions go by where they lead; those that skip a separator come first.
pub open spec fn action_goes_before(a: AdvanceAction, b: AdvanceAction) -> bool {
    a.state < b.state || (a.state == b.state && !a.in_main_token && b.in_main_token)
}

/// No action comes first.
pub open spec fn end_goes_before(a: Option<AdvanceAction>, b: Option<AdvanceAction>) -> bool {
    match (a, b) {
        (None, Some(_)) => true,
        (Some(x), Some(y)) => action_goes_before(x, y),
        _ => false,
    }
}

/// The number of characters in a set.
pub open spec fn count_of(s: Seq<CharRange>) -> int
    decreases s.len(),
{
    if s.len() == 0 {
        0
    } else {
        count_of(s.drop_last()) + (s.last().end - s.last().start)
    }
}

/// The sets have the same ranges before `i`; there, the first has the shorter range, or the
/// one that starts earlier.
pub open spec fn ranges_part_at(a: Seq<CharRange>, b: Seq<CharRange>, i: int) -> bool {
    &&& 0 <= i < a.len() && i < b.len()
    &&& forall|j: int| 0 <= j < i ==> a[j] == #[trigger] b[j]
    &&& a[i].end - a[i].start < b[i].end - b[i].start || (a[i].end - a[i].start == b[i].end - b[i].start && a[i].start
        < b[i].start)
}

/// Smaller sets come first; sets of the same size go by the first of their ranges that are
/// different.
pub open spec fn chars_go_before(a: Seq<CharRange>, b: Seq<CharRange>) -> bool {
    count_of(a) < count_of(b) || (count_of(a) == count_of(b) && exists|i: int| ranges_part_at(a, b, i))
}

/// The actions are the same before `i`; there, the first list ends, or its action goes
/// before the other, by its characters, then by what it does.
pub open spec fn actions_part_at(
    a: Seq<(Seq<CharRange>, AdvanceAction)>,
    b: Seq<(Seq<CharRange>, AdvanceAction)>,
    i: int,
) -> bool {
    &&& 0 <= i <= a.len() && i < b.len()
    &&& forall|j: int| 0 <= j < i ==> a[j] == #[trigger] b[j]
    &&& i < a.len() ==> chars_go_before(a[i].0, b[i].0) || (a[i].0 == b[i].0 && action_goes_before(a[i].1, b[i].1))
}

/// States go by what they accept, then by what they do at the end of the input, then by
/// their actions.
pub open spec fn state_goes_before(a: StateModel, b: StateModel) -> bool {
    symbol_goes_before(a.accept_action, b.accept_action) || (a.accept_action == b.accept_action && (end_goes_before(
        a.eof_action,
        b.eof_action,
    ) || (a.eof_action == b.eof_action && exists|i: int| actions_part_at(a.advance_actions, b.advance_actions, i))))
}

/// The sequences are the same before `k`, and there the first has the smaller number.
spec fn part_at(a: Seq<u32>, b: Seq<u32>, k: int) -> bool {
    &&& 0 <= k < a.len() && k < b.len()
    &&& forall|i: int| 0 <= i < k ==> a[i] == b[i]
    &&& a[k] < b[k]
}

/// Where two sequences part, they part with anything around them.
proof fn lemma_part_within(front: Seq<u32>, a: Seq<u32>, b: Seq<u32>, x: Seq<u32>, y: Seq<u32>, k: int)
    requires
        part_at(a, b, k),
    ensures
        part_at(front + a + x, front + b + y, front.len() + k),
{
    let s = front + a + x;
    let t = front + b + y;
    assert forall|i: int| 0 <= i < front.len() + k implies s[i] == t[i] by {
        if i >= front.len() {
            assert(a[i - front.len()] == b[i - front.len()]);
        }
    }
}

proof fn lemma_part_is_before(a: Seq<u32>, b: Seq<u32>, k: int)
    requires
        part_at(a, b, k),
    ensures
        lex_lt(a, b),
{
    assert(decided_at(a, b, k));
}

proof fn lemma_count(s: Seq<CharRange>)
    ensures
        count_of(s) == size(s),
    decreases s.len(),
{
    if s.len() > 0 {
        lemma_count(s.drop_last());
    }
}

proof fn lemma_char_keys(a: Seq<CharRange>, b: Seq<CharRange>) -> (k: int)
    requires
        ranges_wf(a),
        ranges_wf(b),
        chars_go_before(a, b),
    ensures
        part_at(char_order_key(a), char_order_key(b), k),
{
    lemma_count(a);
    lemma_count(b);
    lemma_size_bound(a);
    lemma_size_bound(b);
    let s = char_order_key(a);
    let t = char_order_key(b);
    if count_of(a) < count_of(b) {
        0
    } else {
        let i = choose|i: int| ranges_part_at(a, b, i);
        assert forall|j: int| 0 <= j < 1 + 2 * i implies s[j] == t[j] by {
            if j > 0 {
                let m = (j - 1) / 2;
                assert(a[m] == b[m]);
                if j % 2 == 0 {
                    assert((j - 2) / 2 == m);
                }
            }
        }
        assert((1 + 2 * i - 1) / 2 == i && (2 + 2 * i - 2) / 2 == i);
        assert(a[i].start < a[i].end <= 0x110000 && b[i].start < b[i].end <= 0x110000);
        if a[i].end - a[i].start < b[i].end - b[i].start {
            1 + 2 * i
        } else {
            2 + 2 * i
        }
    }
}

proof fn lemma_more_is_larger(a: Seq<CharRange>, b: Seq<CharRange>)
    requires
        ranges_wf(b),
        a.len() < b.len(),
        forall|j: int| 0 <= j < a.len() ==> a[j] == #[trigger] b[j],
    ensures
        count_of(a) < count_of(b),
    decreases b.len(),
{
    let front = b.drop_last();
    assert(b[b.len() - 1].start < b[b.len() - 1].end);
    if a.len() == front.len() {
        assert(a =~= front);
    } else {
        assert forall|i: int| 0 <= i < front.len() implies (#[trigger] front[i]).start < front[i].end <= 0x110000 by {
            assert(front[i] == b[i]);
        }
        assert(ranges_wf(front));
        lemma_more_is_larger(a, front);
    }
}

/// The order of the keys is the order of the sets.
proof fn lemma_chars_by_keys(a: Seq<CharRange>, b: Seq<CharRange>)
    requires
        ranges_wf(a),
        ranges_wf(b),
        lex_lt(char_order_key(a), char_order_key(b)),
    ensures
        chars_go_before(a, b),
{
    lemma_count(a);
    lemma_count(b);
    lemma_size_bound(a);
    lemma_size_bound(b);
    let s = char_order_key(a);
    let t = char_order_key(b);
    let k = choose|k: int| decided_at(s, t, k);
    if k > 0 {
        assert(s[0] == t[0]);
        let i = (k - 1) / 2;
        assert forall|j: int| 0 <= j < i implies a[j] == #[trigger] b[j] by {
            assert(s[1 + 2 * j] == t[1 + 2 * j]);
            assert(s[2 + 2 * j] == t[2 + 2 * j]);
            assert((1 + 2 * j - 1) / 2 == j && (2 + 2 * j - 2) / 2 == j);
            assert(a[j].start < a[j].end <= 0x110000 && b[j].start < b[j].end <= 0x110000);
        }
        if k == s.len() {
            assert(i == a.len());
            lemma_more_is_larger(a, b);
        } else {
            assert(a[i].start < a[i].end <= 0x110000 && b[i].start < b[i].end <= 0x110000);
            if k % 2 == 0 {
                assert((k - 2) / 2 == i);
                assert(s[k - 1] == t[k - 1]);
            }
            assert(ranges_part_at(a, b, i));
        }
    }
}

/// The key of a list of actions, from action `i` on.
proof fn lemma_actions_key_at(actions: Seq<(Seq<CharRange>, AdvanceAction)>, i: int) -> (rest: Seq<u32>)
    requires
        0 <= i < actions.len(),
    ensures
        actions_key(actions) == actions_key(actions.take(i)) + (seq![1u32] + char_order_key(actions[i].0) + action_key(
            actions[i].1,
        )) + rest,
    decreases actions.len(),
{
    let front = actions.drop_last();
    let last = actions.last();
    let own = seq![1u32] + char_order_key(last.0) + action_key(last.1);
    assert(actions_key(actions) =~= actions_key(front) + own);
    if i == front.len() {
        assert(actions.take(i) =~= front);
        assert(actions_key(actions) =~= actions_key(front) + own + Seq::<u32>::empty());
        Seq::empty()
    } else {
        let some = lemma_actions_key_at(front, i);
        assert(front.take(i) =~= actions.take(i));
        let rest = some + own;
        assert(actions_key(actions) =~= actions_key(actions.take(i)) + (seq![1u32] + char_order_key(actions[i].0)
            + action_key(actions[i].1)) + rest);
        rest
    }
}

proof fn lemma_action_keys(a: AdvanceAction, b: AdvanceAction) -> (k: int)
    requires
        action_goes_before(a, b),
    ensures
        part_at(action_key(a), action_key(b), k),
{
    if a.state < b.state {
        0
    } else {
        1
    }
}

proof fn lemma_actions_part(
    a: Seq<(Seq<CharRange>, AdvanceAction)>,
    b: Seq<(Seq<CharRange>, AdvanceAction)>,
    i: int,
) -> (k: int)
    requires
        actions_part_at(a, b, i),
        forall|j: int| 0 <= j < a.len() ==> ranges_wf((#[trigger] a[j]).0),
        forall|j: int| 0 <= j < b.len() ==> ranges_wf((#[trigger] b[j]).0),
    ensures
        part_at(actions_key(a) + seq![0u32], actions_key(b) + seq![0u32], k),
{
    let end = seq![0u32];
    let same = actions_key(a.take(i));
    assert(a.take(i) =~= b.take(i));
    let rest_b = lemma_actions_key_at(b, i);
    let own_b = seq![1u32] + char_order_key(b[i].0) + action_key(b[i].1);
    if i == a.len() {
        assert(a.take(i) =~= a);
        assert(part_at(end, own_b, 0));
        lemma_part_within(same, end, own_b, Seq::empty(), rest_b + end, 0);
        assert(same + end + Seq::<u32>::empty() =~= actions_key(a) + end);
        assert(same + own_b + (rest_b + end) =~= actions_key(b) + end);
        same.len() as int
    } else {
        let rest_a = lemma_actions_key_at(a, i);
        let own_a = seq![1u32] + char_order_key(a[i].0) + action_key(a[i].1);
        assert(ranges_wf(a[i].0) && ranges_wf(b[i].0));
        let m = if chars_go_before(a[i].0, b[i].0) {
            let k = lemma_char_keys(a[i].0, b[i].0);
            lemma_part_within(
                seq![1u32],
                char_order_key(a[i].0),
                char_order_key(b[i].0),
                action_key(a[i].1),
                action_key(b[i].1),
                k,
            );
            k + 1
        } else {
            let k = lemma_action_keys(a[i].1, b[i].1);
            let front = seq![1u32] + char_order_key(a[i].0);
            lemma_part_within(front, action_key(a[i].1), action_key(b[i].1), Seq::empty(), Seq::empty(), k);
            assert(front + action_key(a[i].1) + Seq::<u32>::empty() =~= own_a);
            assert(front + action_key(b[i].1) + Seq::<u32>::empty() =~= own_b);
            k + front.len()
        };
        assert(part_at(own_a, own_b, m));
        lemma_part_within(same, own_a, own_b, rest_a + end, rest_b + end, m);
        assert(same + own_a + (rest_a + end) =~= actions_key(a) + end);
        assert(same + own_b + (rest_b + end) =~= actions_key(b) + end);
        same.len() + m
    }
}

/// The order of the states is that of their keys.
proof fn lemma_states_by_keys(a: StateModel, b: StateModel)
    requires
        state_goes_before(a, b),
        forall|j: int| 0 <= j < a.advance_actions.len() ==> ranges_wf((#[trigger] a.advance_actions[j]).0),
        forall|j: int| 0 <= j < b.advance_actions.len() ==> ranges_wf((#[trigger] b.advance_actions[j]).0),
    ensures
        lex_lt(state_key(a), state_key(b)),
{
    let end = seq![0u32];
    let sa = symbol_key(a.accept_action);
    let sb = symbol_key(b.accept_action);
    let ea = eof_key(a.eof_action);
    let eb = eof_key(b.eof_action);
    let ra = actions_key(a.advance_actions) + end;
    let rb = actions_key(b.advance_actions) + end;
    let none = Seq::<u32>::empty();
    if symbol_goes_before(a.accept_action, b.accept_action) {
        let k: int = match (a.accept_action, b.accept_action) {
            (Some(x), Some(y)) => if place_of_kind(x.kind) < place_of_kind(y.kind) {
                1
            } else {
                2
            },
            _ => 0,
        };
        assert(part_at(sa, sb, k));
        lemma_part_within(none, sa, sb, ea + ra, eb + rb, k);
        assert(none + sa + (ea + ra) =~= state_key(a));
        assert(none + sb + (eb + rb) =~= state_key(b));
        lemma_part_is_before(state_key(a), state_key(b), none.len() + k);
    } else if end_goes_before(a.eof_action, b.eof_action) {
        let k: int = match (a.eof_action, b.eof_action) {
            (Some(x), Some(y)) => {
                let m = lemma_action_keys(x, y);
                m + 1
            },
            _ => 0,
        };
        assert(part_at(ea, eb, k));
        lemma_part_within(sa, ea, eb, ra, rb, k);
        assert(sa + ea + ra =~= state_key(a));
        assert(sb + eb + rb =~= state_key(b));
        lemma_part_is_before(state_key(a), state_key(b), sa.len() + k);
    } else {
        let i = choose|i: int| actions_part_at(a.advance_actions, b.advance_actions, i);
        let k = lemma_actions_part(a.advance_actions, b.advance_actions, i);
        lemma_part_within(sa + ea, ra, rb, none, none, k);
        assert(sa + ea + ra + none =~= state_key(a));
        assert(sb + eb + rb + none =~= state_key(b));
        lemma_part_is_before(state_key(a), state_key(b), (sa + ea).len() + k);
    }
}

/// Sorting puts the states in order, but for the first, which stays where it is: a state
/// that goes before another gets the smaller number, and states that are the same keep
/// their order.
pub proof fn law_sorting_puts_states_in_order(states: Seq<StateModel>, x: int, y: int)
    requires
        0 < states.len() <= u32::MAX + 1,
        0 < x < states.len(),
        0 < y < states.len(),
        state_wf(states[x], states.len()),
        state_wf(states[y], states.len()),
        state_goes_before(states[x], states[y]) || (states[x] == states[y] && x < y),
    ensures
        sorted_ids(states)[x] < sorted_ids(states)[y],
{
    let keys = state_keys(states);
    if state_goes_before(states[x], states[y]) {
        lemma_states_by_keys(states[x], states[y]);
        assert(keys[x] == state_key(states[x]) && keys[y] == state_key(states[y]));
    }
    assert(goes_before(keys, x, y));
    law_sorting_orders(states, x, y);
}

/// The actions of each state of a lexer are in order of their characters.
pub proof fn law_actions_are_in_order(g: &LexicalGrammar, configs: Seq<Config>, x: int, j: int, k: int)
    requires
        g.wf(),
        configs_wf(g, configs),
        0 <= x < configs.len(),
        0 <= j < k < table_for(g, configs)[x].advance_actions.len(),
    ensures
        chars_go_before(
            table_for(g, configs)[x].advance_actions[j].0,
            table_for(g, configs)[x].advance_actions[k].0,
        ),
{
    let config = configs[x];
    assert(config_wf(g, configs[x]));
    let ids = config.0;
    let ts = transitions_of(&g.nfa, ids);
    lemma_transitions_of(&g.nfa, ids);
    lemma_kept_of(g, ids, ts);
    let (a, b) = lemma_kept_in_order(g, ids, ts, j, k);
    lemma_chars_by_keys(ts[a].characters, ts[b].characters);
}

/// The kept transitions are in the order of the transitions.
proof fn lemma_kept_in_order(g: &LexicalGrammar, ids: Seq<u32>, ts: Seq<Transition>, j: int, k: int) -> (r: (int, int))
    requires
        0 <= j < k < kept_of(g, ids, ts).len(),
    ensures
        0 <= r.0 < r.1 < ts.len(),
        kept_of(g, ids, ts)[j] == ts[r.0],
        kept_of(g, ids, ts)[k] == ts[r.1],
    decreases ts.len(),
{
    let front = ts.drop_last();
    let some = kept_of(g, ids, front);
    if k < some.len() {
        lemma_kept_in_order(g, ids, front, j, k)
    } else {
        lemma_kept_of(g, ids, front);
        assert(is_kept(g, ids, front, some[j]));
        let a = choose|a: int| 0 <= a < front.len() && front[a] == some[j];
        (a, ts.len() - 1)
    }
}

} // verus!
