//! Groups of lexer states that behave alike.

use vstd::prelude::*;

use crate::character_set::CharRange;
use crate::hashing::Signature;
use crate::order::views;
use crate::rules::{kind_rank, Symbol};
use crate::sorted::{lemma_distinct_bounded, strictly_sorted};
use crate::tables::{state_wf, table_wf, LexState, LexStateId, LexTable, StateModel};

verus! {

/// A division of states into groups: the states of each group, and the group of each
/// state.
#[verifier::ext_equal]
pub struct Groups {
    pub members: Seq<Seq<u32>>,
    pub ids: Seq<u32>,
}

/// The ranges of a character set, as pairs of numbers.
pub open spec fn range_pairs(ranges: Seq<CharRange>) -> Seq<(u32, u32)> {
    Seq::new(ranges.len(), |i: int| (ranges[i].start, ranges[i].end))
}

/// The symbol, as a pair of numbers.
pub open spec fn symbol_pair(symbol: Option<Symbol>) -> Option<(u32, u32)> {
    match symbol {
        Some(s) => Some((kind_rank(s.kind), s.index)),
        None => None,
    }
}

/// What can be told of a state without following its actions: whether it is the first
/// state, what it accepts, whether it has an action at the end of the input, and the
/// characters of its actions, each with whether it is in the main token.
pub open spec fn signature(states: Seq<StateModel>, x: int) -> Signature {
    let s = states[x];
    (
        x == 0,
        symbol_pair(s.accept_action),
        s.eof_action is Some,
        Seq::new(
            s.advance_actions.len(),
            |i: int| (range_pairs(s.advance_actions[i].0), s.advance_actions[i].1.in_main_token),
        ),
    )
}

/// States with the same signature are alike in all that the signature is made of.
pub proof fn lemma_same_signature(states: Seq<StateModel>, x: int, y: int)
    requires
        signature(states, x) == signature(states, y),
    ensures
        (x == 0) == (y == 0),
        states[x].accept_action == states[y].accept_action,
        (states[x].eof_action is Some) == (states[y].eof_action is Some),
        states[x].advance_actions.len() == states[y].advance_actions.len(),
        forall|i: int|
            0 <= i < states[x].advance_actions.len() ==> (#[trigger] states[x].advance_actions[i]).0
                == states[y].advance_actions[i].0 && states[x].advance_actions[i].1.in_main_token
                == states[y].advance_actions[i].1.in_main_token,
{
    let a = states[x];
    let b = states[y];
    let sa = signature(states, x).3;
    let sb = signature(states, y).3;
    assert(sa == sb);
    assert(sa.len() == a.advance_actions.len() && sb.len() == b.advance_actions.len());
    assert forall|i: int| 0 <= i < a.advance_actions.len() implies (#[trigger] a.advance_actions[i]).0
        == b.advance_actions[i].0 && a.advance_actions[i].1.in_main_token == b.advance_actions[i].1.in_main_token by {
        let ra = a.advance_actions[i].0;
        let rb = b.advance_actions[i].0;
        assert(sa[i] == (range_pairs(ra), a.advance_actions[i].1.in_main_token));
        assert(sb[i] == (range_pairs(rb), b.advance_actions[i].1.in_main_token));
        assert(sa[i] == sb[i]);
        assert(range_pairs(ra) == range_pairs(rb));
        assert(range_pairs(ra).len() == range_pairs(rb).len());
        assert forall|k: int| 0 <= k < ra.len() implies ra[k] == rb[k] by {
            assert(range_pairs(ra)[k] == range_pairs(rb)[k]);
        }
        assert(ra =~= rb);
    }
    assert(a.accept_action == b.accept_action) by {
        match (a.accept_action, b.accept_action) {
            (Some(s), Some(t)) => {
                assert(kind_rank(s.kind) == kind_rank(t.kind));
                assert(s.kind == t.kind);
            },
            _ => {},
        }
    }
}

/// Some pair of corresponding actions of the two states leads to different groups.
pub open spec fn differ(a: StateModel, b: StateModel, ids: Seq<u32>) -> bool {
    exists|i: int|
        0 <= i < a.advance_actions.len() && i < b.advance_actions.len()
            && ids[(#[trigger] a.advance_actions[i]).1.state as int] != ids[b.advance_actions[i].1.state as int]
}

/// Whether corresponding actions of two states lead to different groups.
pub fn lex_states_differ(left: &LexState, right: &LexState, group_ids_by_state_id: &[LexStateId]) -> (r: bool)
    requires
        forall|i: int|
            0 <= i < left.advance_actions@.len() && i < right.advance_actions@.len() ==> (
            #[trigger] left.advance_actions@[i]).1.state < group_ids_by_state_id@.len()
                && right.advance_actions@[i].1.state < group_ids_by_state_id@.len(),
    ensures
        r == differ(left@, right@, group_ids_by_state_id@),
{
    let ghost ids = group_ids_by_state_id@;
    let mut i: usize = 0;
    while i < left.advance_actions.len() && i < right.advance_actions.len()
        invariant
            i <= left.advance_actions@.len(),
            i <= right.advance_actions@.len(),
            ids == group_ids_by_state_id@,
            forall|i: int|
                0 <= i < left.advance_actions@.len() && i < right.advance_actions@.len() ==> (
                #[trigger] left.advance_actions@[i]).1.state < ids.len() && right.advance_actions@[i].1.state < ids.len(),
            forall|k: int|
                0 <= k < i ==> ids[(#[trigger] left@.advance_actions[k]).1.state as int]
                    == ids[right@.advance_actions[k].1.state as int],
        decreases left.advance_actions.len() - i,
    {
        let l = left.advance_actions[i].1.state;
        let r = right.advance_actions[i].1.state;
        assert(left@.advance_actions[i as int].1.state == l);
        assert(right@.advance_actions[i as int].1.state == r);
        if group_ids_by_state_id[l as usize] != group_ids_by_state_id[r as usize] {
            return true;
        }
        i = i + 1;
    }
    false
}

/// The elements of a list that satisfy `p`, in order.
pub open spec fn select(s: Seq<u32>, p: spec_fn(u32) -> bool) -> Seq<u32>
    decreases s.len(),
{
    if s.len() == 0 {
        Seq::empty()
    } else {
        let front = select(s.drop_last(), p);
        if p(s.last()) {
            front.push(s.last())
        } else {
            front
        }
    }
}

/// What is selected, and that it stays in order.
pub proof fn lemma_select(s: Seq<u32>, p: spec_fn(u32) -> bool)
    ensures
        forall|x: u32| #[trigger] select(s, p).contains(x) <==> s.contains(x) && p(x),
        strictly_sorted(s) ==> strictly_sorted(select(s, p)),
    decreases s.len(),
{
    if s.len() > 0 {
        let front = s.drop_last();
        let last = s.last();
        lemma_select(front, p);
        let sel = select(front, p);
        let all = select(s, p);
        assert(s[s.len() - 1] == last);
        assert forall|x: u32| #[trigger] all.contains(x) <==> s.contains(x) && p(x) by {
            assert(sel.contains(x) <==> front.contains(x) && p(x));
            if all.contains(x) {
                let k = choose|k: int| 0 <= k < all.len() && all[k] == x;
                if k < sel.len() {
                    assert(sel[k] == x);
                    let m = choose|m: int| 0 <= m < front.len() && front[m] == x;
                    assert(s[m] == x);
                }
            }
            if s.contains(x) && p(x) {
                let m = choose|m: int| 0 <= m < s.len() && s[m] == x;
                if m < front.len() {
                    assert(front[m] == x);
                    let k = choose|k: int| 0 <= k < sel.len() && sel[k] == x;
                    assert(all[k] == x);
                } else {
                    assert(all[sel.len() as int] == x);
                }
            }
        }
        if strictly_sorted(s) {
            assert forall|i: int, j: int| 0 <= i < j < front.len() implies front[i] < front[j] by {
                assert(front[i] == s[i] && front[j] == s[j]);
            }
            assert forall|i: int, j: int| 0 <= i < j < all.len() implies all[i] < all[j] by {
                if j == sel.len() {
                    assert(sel.contains(sel[i]));
                    let m = choose|m: int| 0 <= m < front.len() && front[m] == sel[i];
                    assert(s[m] == sel[i]);
                }
            }
        }
    }
}

/// The group numbers, with those of the listed states set to `g`.
pub open spec fn reassign(ids: Seq<u32>, listed: Seq<u32>, g: u32) -> Seq<u32> {
    Seq::new(
        ids.len(),
        |x: int|
            if listed.contains(x as u32) {
                g
            } else {
                ids[x]
            },
    )
}

/// The states of a group whose actions lead to the same groups as those of its first
/// state.
pub open spec fn agreeing(states: Seq<StateModel>, p: Groups, g: int) -> Seq<u32> {
    select(p.members[g], |x: u32| !differ(states[p.members[g][0] as int], states[x as int], p.ids))
}

/// The other states of the group.
pub open spec fn differing(states: Seq<StateModel>, p: Groups, g: int) -> Seq<u32> {
    select(p.members[g], |x: u32| differ(states[p.members[g][0] as int], states[x as int], p.ids))
}

/// Splits group `g`: the states that differ from its first state become a new group, at
/// the end.
pub open spec fn split_group(states: Seq<StateModel>, p: Groups, g: int) -> Groups {
    if differing(states, p, g).len() == 0 {
        p
    } else {
        Groups {
            members: p.members.update(g, agreeing(states, p, g)).push(differing(states, p, g)),
            ids: reassign(p.ids, differing(states, p, g), p.members.len() as u32),
        }
    }
}

/// Splits the groups from number `g` on, one after the other; groups that come into
/// being on the way are split in their turn.
pub open spec fn split_from(states: Seq<StateModel>, p: Groups, g: int) -> Groups
    decreases states.len() - g,
{
    if g >= p.members.len() || g >= states.len() {
        p
    } else {
        split_from(states, split_group(states, p, g), g + 1)
    }
}

/// Splits the groups, all but the first, until nothing changes any more.
pub open spec fn refined(states: Seq<StateModel>, p: Groups) -> Groups
    decreases states.len() - p.members.len(),
{
    let q = split_from(states, p, 1);
    if q.members.len() <= p.members.len() || q.members.len() > states.len() {
        p
    } else {
        refined(states, q)
    }
}

/// Each state is in one group, the groups are not empty and in ascending order, and the
/// states of a group have the same signature.
pub open spec fn groups_wf(states: Seq<StateModel>, p: Groups) -> bool {
    &&& p.ids.len() == states.len()
    &&& forall|g: int| 0 <= g < p.members.len() ==> (#[trigger] p.members[g]).len() > 0 && strictly_sorted(p.members[g])
    &&& forall|g: int, x: u32|
        0 <= g < p.members.len() && #[trigger] p.members[g].contains(x) ==> x < states.len() && p.ids[x as int] == g
    &&& forall|x: u32| x < states.len() ==> in_its_group(p, x)
    &&& forall|x: int, y: int|
        0 <= x < states.len() && 0 <= y < states.len() && #[trigger] p.ids[x] == #[trigger] p.ids[y] ==> signature(
            states,
            x,
        ) == signature(states, y)
}

/// The group of `x` has `x`.
pub open spec fn in_its_group(p: Groups, x: u32) -> bool {
    p.ids[x as int] < p.members.len() && p.members[p.ids[x as int] as int].contains(x)
}

/// There are no more groups than states.
pub proof fn lemma_group_count(states: Seq<StateModel>, p: Groups)
    requires
        groups_wf(states, p),
        states.len() <= u32::MAX + 1,
    ensures
        p.members.len() <= states.len(),
{
    let firsts = Seq::new(p.members.len(), |g: int| p.members[g][0]);
    assert forall|g: int| 0 <= g < firsts.len() implies (#[trigger] firsts[g]) < states.len() && p.ids[firsts[g] as int]
        == g by {
        assert(p.members[g].len() > 0);
        assert(p.members[g].contains(p.members[g][0]));
    }
    assert forall|i: int, j: int| 0 <= i < firsts.len() && 0 <= j < firsts.len() && i != j implies firsts[i] != firsts[j] by {
        assert(p.ids[firsts[i] as int] == i && p.ids[firsts[j] as int] == j);
    }
    lemma_distinct_bounded(firsts, states.len());
}

/// The first state of a group agrees with itself.
proof fn lemma_first_agrees(states: Seq<StateModel>, p: Groups, g: int)
    requires
        groups_wf(states, p),
        0 <= g < p.members.len(),
    ensures
        agreeing(states, p, g).contains(p.members[g][0]),
{
    let first = p.members[g][0];
    let q = |x: u32| !differ(states[first as int], states[x as int], p.ids);
    lemma_select(p.members[g], q);
    assert(p.members[g].len() > 0);
    assert(p.members[g].contains(first));
    assert(q(first));
}

/// Splitting a group leaves proper groups, refines them, and takes the place of no
/// group before it.
pub proof fn lemma_split_group(states: Seq<StateModel>, p: Groups, g: int)
    requires
        groups_wf(states, p),
        0 <= g < p.members.len(),
        states.len() <= u32::MAX + 1,
    ensures
        groups_wf(states, split_group(states, p, g)),
        p.members.len() <= split_group(states, p, g).members.len() <= p.members.len() + 1,
        forall|x: int, y: int|
            0 <= x < states.len() && 0 <= y < states.len() && #[trigger] split_group(states, p, g).ids[x]
                == #[trigger] split_group(states, p, g).ids[y] ==> p.ids[x] == p.ids[y],
        split_group(states, p, g).members.len() == p.members.len() ==> split_group(states, p, g) == p,
{
    let q = split_group(states, p, g);
    let gone = differing(states, p, g);
    if gone.len() > 0 {
        let kept = agreeing(states, p, g);
        let first = p.members[g][0];
        let d = |x: u32| differ(states[first as int], states[x as int], p.ids);
        let a = |x: u32| !differ(states[first as int], states[x as int], p.ids);
        lemma_select(p.members[g], d);
        lemma_select(p.members[g], a);
        lemma_first_agrees(states, p, g);
        lemma_group_count(states, p);
        assert(p.members[g].len() > 0);
        let n = p.members.len();
        // A group less than the number of states is left for the new one.
        let x0 = gone[0];
        assert(gone.contains(x0));
        assert(n < states.len()) by {
            let firsts = Seq::new(n, |k: int| p.members[k][0]).push(x0);
            assert forall|k: int| 0 <= k < firsts.len() implies (#[trigger] firsts[k]) < states.len() by {
                if k < n {
                    assert(p.members[k].len() > 0);
                    assert(p.members[k].contains(p.members[k][0]));
                }
            }
            assert forall|i: int, j: int| 0 <= i < firsts.len() && 0 <= j < firsts.len() && i != j implies firsts[i]
                != firsts[j] by {
                if i < n {
                    assert(p.members[i].len() > 0);
                    assert(p.members[i].contains(p.members[i][0]));
                }
                if j < n {
                    assert(p.members[j].len() > 0);
                    assert(p.members[j].contains(p.members[j][0]));
                }
                assert(p.ids[x0 as int] == g);
                assert(x0 != first);
            }
            lemma_distinct_bounded(firsts, states.len());
        }
        assert forall|k: int, x: u32| 0 <= k < q.members.len() && #[trigger] q.members[k].contains(x) implies x < states.len()
            && q.ids[x as int] == k by {
            if k == n {
                assert(q.members[k] == gone);
                assert(p.members[g].contains(x));
            } else if k == g {
                assert(q.members[k] == kept);
                assert(p.members[g].contains(x));
                assert(!gone.contains(x));
            } else {
                assert(q.members[k] == p.members[k]);
                assert(p.members[k].contains(x));
                if gone.contains(x) {
                    assert(p.members[g].contains(x));
                }
            }
        }
        assert forall|x: u32| x < states.len() implies in_its_group(q, x) by {
            assert(in_its_group(p, x));
            if gone.contains(x) {
                assert(q.members[n as int] == gone);
            } else if p.ids[x as int] == g {
                assert(kept.contains(x));
            }
        }
        assert forall|k: int| 0 <= k < q.members.len() implies (#[trigger] q.members[k]).len() > 0 && strictly_sorted(
            q.members[k],
        ) by {
            if k < n {
                assert(p.members[k].len() > 0 && strictly_sorted(p.members[k]));
            }
            assert(strictly_sorted(p.members[g]));
        }
        assert forall|x: int, y: int|
            0 <= x < states.len() && 0 <= y < states.len() && #[trigger] q.ids[x] == #[trigger] q.ids[y] implies p.ids[x]
            == p.ids[y] by {
            assert(in_its_group(p, x as u32) && in_its_group(p, y as u32));
            if gone.contains(x as u32) {
                assert(p.members[g].contains(x as u32));
            }
            if gone.contains(y as u32) {
                assert(p.members[g].contains(y as u32));
            }
        }
        assert forall|x: int, y: int|
            0 <= x < states.len() && 0 <= y < states.len() && #[trigger] q.ids[x] == #[trigger] q.ids[y] implies signature(
            states,
            x,
        ) == signature(states, y) by {
            assert(p.ids[x] == p.ids[y]);
        }
    }
}

/// Splitting all groups leaves proper groups and refines them; if there are no more
/// groups afterwards, nothing has changed.
pub proof fn lemma_split_from(states: Seq<StateModel>, p: Groups, g: int)
    requires
        groups_wf(states, p),
        0 <= g,
        states.len() <= u32::MAX + 1,
    ensures
        groups_wf(states, split_from(states, p, g)),
        p.members.len() <= split_from(states, p, g).members.len() <= states.len(),
        forall|x: int, y: int|
            0 <= x < states.len() && 0 <= y < states.len() && #[trigger] split_from(states, p, g).ids[x]
                == #[trigger] split_from(states, p, g).ids[y] ==> p.ids[x] == p.ids[y],
        split_from(states, p, g).members.len() == p.members.len() ==> split_from(states, p, g) == p,
    decreases states.len() - g,
{
    lemma_group_count(states, p);
    if g < p.members.len() {
        lemma_split_group(states, p, g);
        let q = split_group(states, p, g);
        lemma_split_from(states, q, g + 1);
        let r = split_from(states, p, g);
        assert(r == split_from(states, q, g + 1));
        assert forall|x: int, y: int|
            0 <= x < states.len() && 0 <= y < states.len() && #[trigger] r.ids[x] == #[trigger] r.ids[y] implies p.ids[x]
            == p.ids[y] by {
            assert(q.ids[x] == q.ids[y]);
        }
    }
}

/// Refining leaves proper groups and refines them, and splitting changes nothing
/// afterwards.
pub proof fn lemma_refined(states: Seq<StateModel>, p: Groups)
    requires
        groups_wf(states, p),
        states.len() <= u32::MAX + 1,
    ensures
        groups_wf(states, refined(states, p)),
        p.members.len() <= refined(states, p).members.len() <= states.len(),
        split_from(states, refined(states, p), 1) == refined(states, p),
        forall|x: int, y: int|
            0 <= x < states.len() && 0 <= y < states.len() && #[trigger] refined(states, p).ids[x]
                == #[trigger] refined(states, p).ids[y] ==> p.ids[x] == p.ids[y],
    decreases states.len() - p.members.len(),
{
    lemma_group_count(states, p);
    lemma_split_from(states, p, 1);
    let q = split_from(states, p, 1);
    if q.members.len() > p.members.len() {
        lemma_refined(states, q);
        let r = refined(states, p);
        assert(r == refined(states, q));
        assert forall|x: int, y: int|
            0 <= x < states.len() && 0 <= y < states.len() && #[trigger] r.ids[x] == #[trigger] r.ids[y] implies p.ids[x]
            == p.ids[y] by {
            assert(q.ids[x] == q.ids[y]);
        }
    }
}

/// The division that a list of groups and a list of group numbers hold.
pub open spec fn groups_model(members: Seq<Vec<u32>>, ids: Seq<u32>) -> Groups {
    Groups { members: views(members), ids }
}

/// Sets the group of the listed states.
fn assign_group(ids: &mut Vec<u32>, listed: &Vec<u32>, g: u32)
    requires
        forall|i: int| 0 <= i < listed@.len() ==> (#[trigger] listed@[i]) < old(ids)@.len(),
        old(ids)@.len() <= u32::MAX + 1,
    ensures
        final(ids)@ == reassign(old(ids)@, listed@, g),
{
    let ghost before = ids@;
    let mut i: usize = 0;
    while i < listed.len()
        invariant
            i <= listed@.len(),
            ids@.len() == before.len(),
            before.len() <= u32::MAX + 1,
            forall|i: int| 0 <= i < listed@.len() ==> (#[trigger] listed@[i]) < before.len(),
            forall|x: int|
                0 <= x < before.len() ==> #[trigger] ids@[x] == (if listed@.take(i as int).contains(x as u32) {
                    g
                } else {
                    before[x]
                }),
        decreases listed.len() - i,
    {
        let ghost middle = ids@;
        let y = listed[i];
        assert(listed@[i as int] < before.len());
        ids.set(y as usize, g);
        proof {
            let a = listed@.take(i as int);
            let b = listed@.take(i + 1);
            assert(b =~= a.push(y));
            assert forall|x: int| 0 <= x < before.len() implies #[trigger] ids@[x] == (if b.contains(x as u32) {
                g
            } else {
                before[x]
            }) by {
                assert(middle[x] == (if a.contains(x as u32) { g } else { before[x] }));
                if a.contains(x as u32) {
                    let k = choose|k: int| 0 <= k < a.len() && a[k] == x as u32;
                    assert(b[k] == x as u32);
                }
                if b.contains(x as u32) && !a.contains(x as u32) {
                    let k = choose|k: int| 0 <= k < b.len() && b[k] == x as u32;
                    if k < a.len() {
                        assert(a[k] == x as u32);
                    }
                    assert(x == y);
                }
                assert(b[i as int] == y);
            }
        }
        i = i + 1;
    }
    assert(listed@.take(i as int) =~= listed@);
    assert(ids@ =~= reassign(before, listed@, g));
}

/// Splits the groups from `start_group_id` on by where the actions of their states lead,
/// and says whether any group was split.
pub fn split_state_id_groups(
    table: &LexTable,
    state_ids_by_group_id: &mut Vec<Vec<u32>>,
    group_ids_by_state_id: &mut Vec<u32>,
    start_group_id: usize,
) -> (r: bool)
    requires
        table_wf(table@),
        groups_wf(table@, groups_model(old(state_ids_by_group_id)@, old(group_ids_by_state_id)@)),
    ensures
        groups_model(final(state_ids_by_group_id)@, final(group_ids_by_state_id)@) == split_from(
            table@,
            groups_model(old(state_ids_by_group_id)@, old(group_ids_by_state_id)@),
            start_group_id as int,
        ),
        r == (final(state_ids_by_group_id)@.len() > old(state_ids_by_group_id)@.len()),
{
    let ghost states = table@;
    let ghost start = groups_model(state_ids_by_group_id@, group_ids_by_state_id@);
    let ghost target = split_from(states, start, start_group_id as int);
    let mut result = false;
    let mut g: usize = start_group_id;
    proof {
        lemma_group_count(states, start);
    }
    while g < state_ids_by_group_id.len()
        invariant
            states == table@,
            table_wf(states),
            groups_wf(states, groups_model(state_ids_by_group_id@, group_ids_by_state_id@)),
            state_ids_by_group_id@.len() <= states.len(),
            start.members.len() <= state_ids_by_group_id@.len(),
            result == (state_ids_by_group_id@.len() > start.members.len()),
            split_from(states, groups_model(state_ids_by_group_id@, group_ids_by_state_id@), g as int) == target,
        decreases states.len() - g,
    {
        let ghost p = groups_model(state_ids_by_group_id@, group_ids_by_state_id@);
        let ghost group = p.members[g as int];
        proof {
            assert(group == state_ids_by_group_id@[g as int]@);
            assert(p.members[g as int].len() > 0);
            lemma_split_group(states, p, g as int);
            lemma_group_count(states, split_group(states, p, g as int));
        }
        let first = state_ids_by_group_id[g][0];
        assert(group.contains(group[0]));
        assert(p.members[g as int].contains(first));
        let ghost d = |x: u32| differ(states[p.members[g as int][0] as int], states[x as int], p.ids);
        let ghost a = |x: u32| !differ(states[p.members[g as int][0] as int], states[x as int], p.ids);
        let mut kept: Vec<u32> = Vec::new();
        let mut gone: Vec<u32> = Vec::new();
        let mut i: usize = 0;
        assert(group.take(0).len() == 0);
        while i < state_ids_by_group_id[g].len()
            invariant
                states == table@,
                table_wf(states),
                g < state_ids_by_group_id@.len(),
                p == groups_model(state_ids_by_group_id@, group_ids_by_state_id@),
                groups_wf(states, p),
                group == p.members[g as int],
                group == state_ids_by_group_id@[g as int]@,
                first == group[0],
                first < states.len(),
                i <= group.len(),
                d == (|x: u32| differ(states[p.members[g as int][0] as int], states[x as int], p.ids)),
                a == (|x: u32| !differ(states[p.members[g as int][0] as int], states[x as int], p.ids)),
                kept@ == select(group.take(i as int), a),
                gone@ == select(group.take(i as int), d),
            decreases group.len() - i,
        {
            let x = state_ids_by_group_id[g][i];
            proof {
                assert(group[i as int] == x);
                assert(group.contains(x));
                assert(p.members[g as int].contains(x));
                assert(state_wf(states[first as int], states.len()));
                assert(state_wf(states[x as int], states.len()));
                assert(group.take(i + 1).drop_last() =~= group.take(i as int));
                assert(group.take(i + 1).last() == x);
            }
            proof {
                let a = table.states@[first as int];
                let b = table.states@[x as int];
                assert forall|i: int| 0 <= i < a.advance_actions@.len() && i < b.advance_actions@.len() implies (
                #[trigger] a.advance_actions@[i]).1.state < group_ids_by_state_id@.len() && b.advance_actions@[i].1.state
                    < group_ids_by_state_id@.len() by {
                    assert(a@.advance_actions[i].1 == a.advance_actions@[i].1);
                    assert(b@.advance_actions[i].1 == b.advance_actions@[i].1);
                }
            }
            if lex_states_differ(
                &table.states[first as usize],
                &table.states[x as usize],
                group_ids_by_state_id.as_slice(),
            ) {
                assert(d(x) && !a(x));
                gone.push(x);
            } else {
                assert(!d(x) && a(x));
                kept.push(x);
            }
            i = i + 1;
        }
        proof {
            assert(group.take(i as int) =~= group);
            assert(kept@ == agreeing(states, p, g as int));
            assert(gone@ == differing(states, p, g as int));
        }
        if gone.len() > 0 {
            proof {
                lemma_select(group, d);
                assert forall|k: int| 0 <= k < gone@.len() implies (#[trigger] gone@[k]) < group_ids_by_state_id@.len() by {
                    assert(gone@.contains(gone@[k]));
                    assert(p.members[g as int].contains(gone@[k]));
                }
            }
            let new_id = state_ids_by_group_id.len() as u32;
            assign_group(group_ids_by_state_id, &gone, new_id);
            let ghost kept_view = kept@;
            let ghost gone_view = gone@;
            state_ids_by_group_id.set(g, kept);
            state_ids_by_group_id.push(gone);
            result = true;
            proof {
                let q = groups_model(state_ids_by_group_id@, group_ids_by_state_id@);
                assert(q.members =~= p.members.update(g as int, kept_view).push(gone_view));
                assert(q =~= split_group(states, p, g as int));
            }
        }
        g = g + 1;
    }
    result
}

} // verus!
