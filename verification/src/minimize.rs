//! Joining the states of a lexer that behave alike.

use vstd::prelude::*;

use crate::character_set::ranges_wf;
use crate::groups::{
    groups_model, groups_wf, in_its_group, lemma_group_count, lemma_refined, lemma_split_from, range_pairs, refined,
    signature, split_state_id_groups, Groups,
};
use crate::hashing::{
    insert_list, into_lists, is_walk, lists_in, new_signature_map, remove_list, signature_view, Signature, SignatureKey,
};
use crate::order::{
    decided_at, goes_before, is_stable_order, lemma_goes_before_asymmetric, lemma_lex_irreflexive, lemma_lex_transitive,
    lex_lt, stable_order, views,
};
use crate::sorted::{lemma_members, members, strictly_sorted};
use crate::tables::{renumber_state, same_but_lex_ids, state_wf, table_wf, LexState, LexTable, ParseTable, StateModel};

verus! {

/// States that have the signature `sig`.
pub open spec fn has_signature(states: Seq<StateModel>, sig: Signature) -> spec_fn(u32) -> bool {
    |x: u32| signature(states, x as int) == sig
}

/// The first of the groups has a state like state `x`, at its front.
pub open spec fn has_group(states: Seq<StateModel>, p: Groups, x: int) -> bool {
    exists|g: int| 0 <= g < p.members.len() && signature(states, (#[trigger] p.members[g])[0] as int) == signature(states, x)
}

/// The group that starts with a state like state `x`.
pub open spec fn group_for(states: Seq<StateModel>, p: Groups, x: int) -> int {
    choose|g: int| 0 <= g < p.members.len() && signature(states, (#[trigger] p.members[g])[0] as int) == signature(states, x)
}

/// The first `n` states, grouped by signature: each state joins the group of the states
/// like it, or else starts a new group.
pub open spec fn alike(states: Seq<StateModel>, n: nat) -> Groups
    decreases n,
{
    if n == 0 {
        Groups { members: Seq::empty(), ids: Seq::empty() }
    } else {
        let p = alike(states, (n - 1) as nat);
        let x = n - 1;
        if has_group(states, p, x) {
            let g = group_for(states, p, x);
            Groups { members: p.members.update(g, p.members[g].push(x as u32)), ids: p.ids.push(g as u32) }
        } else {
            Groups { members: p.members.push(seq![x as u32]), ids: p.ids.push(p.members.len() as u32) }
        }
    }
}

/// The groups of states that are joined.
pub open spec fn minimal_groups(states: Seq<StateModel>) -> Groups {
    refined(states, alike(states, states.len()))
}

/// The new numbers of the states, by their old numbers.
pub open spec fn minimal_ids(states: Seq<StateModel>) -> Seq<u32> {
    minimal_groups(states).ids
}

/// The table with one state for each group: the first of the group, with its actions
/// leading to groups.
pub open spec fn minimized_table(states: Seq<StateModel>) -> Seq<StateModel> {
    Seq::new(
        minimal_groups(states).members.len(),
        |g: int| renumber_state(states[minimal_groups(states).members[g][0] as int], minimal_ids(states)),
    )
}

/// What the groups of states that are alike look like.
spec fn are_alike(states: Seq<StateModel>, p: Groups, n: nat) -> bool {
    &&& p.ids.len() == n
    &&& p.members.len() <= n
    &&& forall|g: int| 0 <= g < p.members.len() ==> is_like_group(states, #[trigger] p.members[g], n)
    &&& forall|g: int, h: int| 0 <= g < h < p.members.len() ==> (#[trigger] p.members[g])[0] < (#[trigger] p.members[h])[0]
    &&& forall|g: int, h: int|
        0 <= g < p.members.len() && 0 <= h < p.members.len() && g != h ==> signature(states, (#[trigger] p.members[g])[0] as int)
            != signature(states, (#[trigger] p.members[h])[0] as int)
    &&& forall|x: u32| x < n ==> in_its_group(p, x)
}

/// The group has all states like its first, in order.
spec fn is_like_group(states: Seq<StateModel>, group: Seq<u32>, n: nat) -> bool {
    &&& group.len() > 0
    &&& group == members(n, has_signature(states, signature(states, group[0] as int)))
}

proof fn lemma_alike(states: Seq<StateModel>, n: nat)
    requires
        n <= states.len() <= u32::MAX + 1,
    ensures
        are_alike(states, alike(states, n), n),
    decreases n,
{
    if n > 0 {
        let m = (n - 1) as nat;
        let x = n - 1;
        lemma_alike(states, m);
        let p = alike(states, m);
        let q = alike(states, n);
        let sx = signature(states, x);
        assert forall|g: int| 0 <= g < p.members.len() implies (#[trigger] p.members[g])[0] < m by {
            assert(is_like_group(states, p.members[g], m));
            lemma_members(m, has_signature(states, signature(states, p.members[g][0] as int)));
            assert(p.members[g].contains(p.members[g][0]));
        }
        if has_group(states, p, x) {
            let g = group_for(states, p, x);
            assert(0 <= g < p.members.len() && signature(states, p.members[g][0] as int) == sx);
            assert(is_like_group(states, p.members[g], m));
            assert forall|h: int| 0 <= h < q.members.len() implies is_like_group(states, #[trigger] q.members[h], n) && q.members[h][0] == p.members[h][0] by {
                assert(is_like_group(states, p.members[h], m));
                let pred = has_signature(states, signature(states, p.members[h][0] as int));
                if h == g {
                    assert(pred(x as u32));
                } else {
                    assert(signature(states, p.members[h][0] as int) != signature(states, p.members[g][0] as int));
                    assert(!pred(x as u32));
                }
            }
            assert forall|y: u32| y < n implies in_its_group(q, y) by {
                if y < m {
                    assert(in_its_group(p, y));
                    let k = p.ids[y as int] as int;
                    if k == g {
                        let w = choose|w: int| 0 <= w < p.members[g].len() && p.members[g][w] == y;
                        assert(q.members[g][w] == y);
                    }
                } else {
                    assert(q.members[g][p.members[g].len() as int] == y);
                }
            }
        } else {
            let new_group = seq![x as u32];
            assert forall|h: int| 0 <= h < q.members.len() implies is_like_group(states, #[trigger] q.members[h], n) by {
                if h < p.members.len() {
                    assert(is_like_group(states, p.members[h], m));
                    let pred = has_signature(states, signature(states, p.members[h][0] as int));
                    assert(!pred(x as u32));
                } else {
                    let pred = has_signature(states, sx);
                    assert(pred(x as u32));
                    lemma_members(m, pred);
                    let front = members(m, pred);
                    if front.len() > 0 {
                        let y = front[0];
                        assert(front.contains(y));
                        assert(y < m && signature(states, y as int) == sx);
                        assert(in_its_group(p, y));
                        let k = p.ids[y as int] as int;
                        assert(is_like_group(states, p.members[k], m));
                        lemma_members(m, has_signature(states, signature(states, p.members[k][0] as int)));
                        assert(signature(states, p.members[k][0] as int) == sx);
                    }
                    assert(front =~= Seq::empty());
                    assert(members(n, pred) =~= new_group);
                }
            }
            assert forall|y: u32| y < n implies in_its_group(q, y) by {
                if y < m {
                    assert(in_its_group(p, y));
                } else {
                    assert(new_group[0] == y);
                    assert(q.members[p.members.len() as int] == new_group);
                }
            }
        }
    }
}

/// The groups of states that are alike are proper groups.
pub proof fn lemma_alike_wf(states: Seq<StateModel>)
    requires
        states.len() <= u32::MAX + 1,
    ensures
        groups_wf(states, alike(states, states.len())),
{
    let n = states.len();
    let p = alike(states, n);
    lemma_alike(states, n);
    assert forall|g: int| 0 <= g < p.members.len() implies (#[trigger] p.members[g]).len() > 0 && strictly_sorted(p.members[g]) by {
        assert(is_like_group(states, p.members[g], n));
        lemma_members(n, has_signature(states, signature(states, p.members[g][0] as int)));
    }
    assert forall|g: int, x: u32| 0 <= g < p.members.len() && #[trigger] p.members[g].contains(x) implies x < states.len()
        && p.ids[x as int] == g by {
        assert(is_like_group(states, p.members[g], n));
        lemma_members(n, has_signature(states, signature(states, p.members[g][0] as int)));
        assert(in_its_group(p, x));
        let k = p.ids[x as int] as int;
        assert(is_like_group(states, p.members[k], n));
        lemma_members(n, has_signature(states, signature(states, p.members[k][0] as int)));
    }
    assert forall|x: int, y: int|
        0 <= x < states.len() && 0 <= y < states.len() && #[trigger] p.ids[x] == #[trigger] p.ids[y] implies signature(
        states,
        x,
    ) == signature(states, y) by {
        assert(in_its_group(p, x as u32) && in_its_group(p, y as u32));
        let k = p.ids[x] as int;
        assert(is_like_group(states, p.members[k], n));
        lemma_members(n, has_signature(states, signature(states, p.members[k][0] as int)));
    }
}

/// The lists are in lexicographic order.
spec fn lists_sorted(a: Seq<Seq<u32>>) -> bool {
    forall|i: int, j: int| 0 <= i < j < a.len() ==> lex_lt(#[trigger] a[i], #[trigger] a[j])
}

proof fn lemma_lists_sorted_unique(a: Seq<Seq<u32>>, b: Seq<Seq<u32>>)
    requires
        lists_sorted(a),
        lists_sorted(b),
        forall|k: int| 0 <= k < a.len() ==> b.contains(#[trigger] a[k]),
        forall|k: int| 0 <= k < b.len() ==> a.contains(#[trigger] b[k]),
    ensures
        a == b,
    decreases a.len(),
{
    if a.len() == 0 {
        if b.len() > 0 {
            assert(a.contains(b[0]));
        }
        assert(a =~= b);
    } else {
        assert(b.contains(a[0]));
        let x = a.last();
        let y = b.last();
        assert(b.contains(a[a.len() - 1]));
        assert(a.contains(b[b.len() - 1]));
        let m = choose|m: int| 0 <= m < b.len() && b[m] == x;
        let n = choose|n: int| 0 <= n < a.len() && a[n] == y;
        if m != b.len() - 1 {
            assert(lex_lt(b[m], b[b.len() - 1]));
            if n != a.len() - 1 {
                assert(lex_lt(a[n], a[a.len() - 1]));
                lemma_lex_transitive(x, y, x);
            }
            lemma_lex_irreflexive(x);
        }
        let s = a.drop_last();
        let t = b.drop_last();
        assert forall|k: int| 0 <= k < s.len() implies t.contains(#[trigger] s[k]) by {
            assert(b.contains(a[k]));
            let q = choose|q: int| 0 <= q < b.len() && b[q] == a[k];
            if q == b.len() - 1 {
                assert(lex_lt(a[k], a[a.len() - 1]));
                lemma_lex_irreflexive(x);
            }
            assert(t[q] == s[k]);
        }
        assert forall|k: int| 0 <= k < t.len() implies s.contains(#[trigger] t[k]) by {
            assert(a.contains(b[k]));
            let q = choose|q: int| 0 <= q < a.len() && a[q] == b[k];
            if q == a.len() - 1 {
                assert(lex_lt(b[k], b[b.len() - 1]));
                lemma_lex_irreflexive(y);
            }
            assert(s[q] == t[k]);
        }
        lemma_lists_sorted_unique(s, t);
        assert(a =~= s.push(x));
        assert(b =~= t.push(y));
    }
}

/// The signature of a state, as a key.
fn signature_key(table: &LexTable, x: usize) -> (key: SignatureKey)
    requires
        x < table@.len(),
    ensures
        signature_view(key) == signature(table@, x as int),
{
    let state = &table.states[x];
    let ghost s = table@[x as int];
    let mut actions: Vec<(Vec<(u32, u32)>, bool)> = Vec::new();
    let mut i: usize = 0;
    while i < state.advance_actions.len()
        invariant
            i <= state.advance_actions@.len(),
            s == state@,
            actions@.len() == i,
            forall|k: int|
                0 <= k < i ==> (#[trigger] actions@[k]).0@ == range_pairs(s.advance_actions[k].0) && actions@[k].1
                    == s.advance_actions[k].1.in_main_token,
        decreases state.advance_actions.len() - i,
    {
        let pairs = state.advance_actions[i].0.range_pairs();
        actions.push((pairs, state.advance_actions[i].1.in_main_token));
        i = i + 1;
    }
    let accept = match state.accept_action {
        Some(symbol) => Some((symbol.kind.rank(), symbol.index)),
        None => None,
    };
    let key = (x == 0, accept, state.eof_action.is_some(), actions);
    assert(signature_view(key).3 =~= signature(table@, x as int).3);
    key
}

/// One of the first `n` states has the signature.
spec fn occurs(states: Seq<StateModel>, sig: Signature, n: int) -> bool {
    exists|x: int| 0 <= x < n && #[trigger] signature(states, x) == sig
}

/// The map has a list for each signature among the first `n` states, with the numbers of
/// the states that have it.
spec fn maps_signatures(states: Seq<StateModel>, m: Map<Signature, Seq<u32>>, n: nat) -> bool {
    &&& forall|sig: Signature| #[trigger] m.contains_key(sig) <==> occurs(states, sig, n as int)
    &&& forall|sig: Signature| #[trigger] m.contains_key(sig) ==> m[sig] == members(n, has_signature(states, sig))
}

/// The numbers of the states, listed by signature, in no particular order.
fn lists_by_signature(table: &LexTable) -> (lists: Vec<Vec<u32>>)
    requires
        table_wf(table@),
    ensures
        exists|m: Map<Signature, Seq<u32>>, keys: Seq<Signature>|
            #![trigger is_walk(m, keys, lists@)]
            maps_signatures(table@, m, table@.len()) && is_walk(m, keys, lists@),
{
    let ghost states = table@;
    let mut map = new_signature_map();
    let mut x: usize = 0;
    while x < table.states.len()
        invariant
            x <= table.states@.len(),
            states == table@,
            table_wf(states),
            maps_signatures(states, lists_in(map), x as nat),
        decreases table.states.len() - x,
    {
        let key = signature_key(table, x);
        let ghost sig = signature(states, x as int);
        let ghost before = lists_in(map);
        let mut list = match remove_list(&mut map, &key) {
            Some(list) => list,
            None => Vec::new(),
        };
        let ghost old_list = list@;
        proof {
            if !before.contains_key(sig) {
                let pred = has_signature(states, sig);
                lemma_members(x as nat, pred);
                let front = members(x as nat, pred);
                if front.len() > 0 {
                    assert(front.contains(front[0]));
                    assert(signature(states, front[0] as int) == sig);
                }
                assert(front =~= Seq::empty());
            }
            assert(old_list == members(x as nat, has_signature(states, sig)));
        }
        list.push(x as u32);
        insert_list(&mut map, key, list);
        proof {
            let after = lists_in(map);
            assert(after =~= before.insert(sig, old_list.push(x as u32)));
            assert(has_signature(states, sig)(x as u32));
            assert forall|t: Signature| #[trigger] after.contains_key(t) <==> occurs(states, t, x + 1) by {
                assert(before.contains_key(t) <==> occurs(states, t, x as int));
                if occurs(states, t, x as int) {
                    let y = choose|y: int| 0 <= y < x && #[trigger] signature(states, y) == t;
                    assert(signature(states, y) == t);
                }
                if occurs(states, t, x + 1) && t != sig {
                    let y = choose|y: int| 0 <= y < x + 1 && #[trigger] signature(states, y) == t;
                    assert(y < x);
                }
            }
            assert forall|t: Signature| #[trigger] after.contains_key(t) implies after[t] == members((x + 1) as nat, has_signature(states, t)) by {
                if t == sig {
                    assert(has_signature(states, t)(x as u32));
                } else {
                    assert(before.contains_key(t));
                    assert(!has_signature(states, t)(x as u32));
                }
            }
        }
        x = x + 1;
    }
    let ghost m = lists_in(map);
    let lists = into_lists(map);
    proof {
        let keys = choose|keys: Seq<Signature>| is_walk(m, keys, lists@);
        assert(is_walk(m, keys, lists@));
    }
    lists
}

/// The lists of a walk, in order, are the groups of states that are alike.
proof fn lemma_walk_sorted(
    states: Seq<StateModel>,
    m: Map<Signature, Seq<u32>>,
    keys: Seq<Signature>,
    lists: Seq<Vec<u32>>,
    order: Seq<usize>,
    sorted: Seq<Seq<u32>>,
)
    requires
        states.len() <= u32::MAX + 1,
        maps_signatures(states, m, states.len()),
        is_walk(m, keys, lists),
        lists.len() <= usize::MAX,
        is_stable_order(views(lists), order),
        sorted.len() == order.len(),
        forall|k: int| 0 <= k < order.len() ==> #[trigger] sorted[k] == lists[order[k] as int]@,
    ensures
        sorted == alike(states, states.len()).members,
{
    let n = states.len();
    let vs = views(lists);
    let p = alike(states, n);
    lemma_alike(states, n);
    assert forall|i: int| 0 <= i < lists.len() implies (#[trigger] lists[i])@ == members(n, has_signature(states, keys[i])) && lists[i]@.len() > 0 by {
        assert(keys.contains(keys[i]));
        assert(m.contains_key(keys[i]));
        let x = choose|x: int| 0 <= x < n && #[trigger] signature(states, x) == keys[i];
        lemma_members(n, has_signature(states, keys[i]));
        assert(members(n, has_signature(states, keys[i])).contains(x as u32));
    }
    assert forall|i: int, j: int| 0 <= i < j < sorted.len() implies lex_lt(#[trigger] sorted[i], #[trigger] sorted[j]) by {
        let a = order[i] as int;
        let b = order[j] as int;
        assert(goes_before(vs, a, b));
        lemma_goes_before_asymmetric(vs, a, b);
        assert(order[i] < vs.len() && order[j] < vs.len());
        assert(vs[a] == lists[a]@ && vs[b] == lists[b]@);
        if vs[a] == vs[b] {
            let x = lists[a]@[0];
            lemma_members(n, has_signature(states, keys[a]));
            lemma_members(n, has_signature(states, keys[b]));
            assert(lists[a]@.contains(x));
            assert(lists[b]@.contains(x));
            assert(keys[a] == keys[b]);
        }
    }
    assert forall|g: int, h: int| 0 <= g < h < p.members.len() implies lex_lt(#[trigger] p.members[g], #[trigger] p.members[h]) by {
        assert(is_like_group(states, p.members[g], n) && is_like_group(states, p.members[h], n));
        assert(p.members[g][0] < p.members[h][0]);
        assert(decided_at(p.members[g], p.members[h], 0));
    }
    assert forall|k: int| 0 <= k < sorted.len() implies p.members.contains(#[trigger] sorted[k]) by {
        let a = order[k] as int;
        assert(order[k] < vs.len());
        let x = lists[a]@[0];
        lemma_members(n, has_signature(states, keys[a]));
        assert(lists[a]@.contains(x));
        assert(signature(states, x as int) == keys[a]);
        assert(in_its_group(p, x));
        let g = p.ids[x as int] as int;
        assert(is_like_group(states, p.members[g], n));
        lemma_members(n, has_signature(states, signature(states, p.members[g][0] as int)));
        assert(signature(states, p.members[g][0] as int) == keys[a]);
        assert(p.members[g] == sorted[k]);
    }
    assert forall|g: int| 0 <= g < p.members.len() implies sorted.contains(#[trigger] p.members[g]) by {
        assert(is_like_group(states, p.members[g], n));
        let sig = signature(states, p.members[g][0] as int);
        lemma_members(n, has_signature(states, sig));
        assert(p.members[g].contains(p.members[g][0]));
        assert(occurs(states, sig, n as int));
        assert(m.contains_key(sig));
        assert(keys.contains(sig));
        let a = choose|a: int| 0 <= a < keys.len() && keys[a] == sig;
        assert(lists[a]@ == p.members[g]);
        assert(order.contains(a as usize));
        let k = choose|k: int| 0 <= k < order.len() && order[k] == a as usize;
        assert(sorted[k] == p.members[g]);
    }
    lemma_lists_sorted_unique(sorted, p.members);
}

/// The groups of states that are alike. The group of state 0, which is like no other,
/// comes first.
fn group_alike(table: &LexTable) -> (r: (Vec<Vec<u32>>, Vec<u32>))
    requires
        table_wf(table@),
    ensures
        groups_model(r.0@, r.1@) == alike(table@, table@.len()),
{
    let ghost states = table@;
    let lists = lists_by_signature(table);
    let order = stable_order(&lists);
    let mut groups: Vec<Vec<u32>> = Vec::new();
    let mut k: usize = 0;
    while k < order.len()
        invariant
            k <= order@.len(),
            is_stable_order(views(lists@), order@),
            groups@.len() == k,
            forall|i: int| 0 <= i < k ==> (#[trigger] groups@[i])@ == lists@[order@[i] as int]@,
        decreases order.len() - k,
    {
        assert(order@[k as int] < views(lists@).len());
        groups.push(lists[order[k]].clone());
        k = k + 1;
    }
    let ghost p = alike(states, states.len());
    proof {
        let (m, keys) = choose|m: Map<Signature, Seq<u32>>, keys: Seq<Signature>|
            #![trigger is_walk(m, keys, lists@)]
            maps_signatures(states, m, states.len()) && is_walk(m, keys, lists@);
        assert(lists@.len() == lists.len());
        lemma_walk_sorted(states, m, keys, lists@, order@, views(groups@));
        lemma_alike_wf(states);
        lemma_group_count(states, p);
        assert(views(groups@) == p.members);
    }
    let mut ids: Vec<u32> = Vec::new();
    let mut x: usize = 0;
    while x < table.states.len()
        invariant
            x <= table.states@.len(),
            ids@.len() == x,
        decreases table.states.len() - x,
    {
        ids.push(0);
        x = x + 1;
    }
    let mut g: usize = 0;
    while g < groups.len()
        invariant
            g <= groups@.len(),
            states == table@,
            table_wf(states),
            groups_wf(states, p),
            views(groups@) == p.members,
            p.members.len() <= states.len(),
            ids@.len() == states.len(),
            forall|h: int, y: u32| 0 <= h < g && #[trigger] p.members[h].contains(y) ==> ids@[y as int] == h,
        decreases groups.len() - g,
    {
        let ghost group = p.members[g as int];
        assert(group == groups@[g as int]@);
        let mut i: usize = 0;
        while i < groups[g].len()
            invariant
                i <= group.len(),
                g < groups@.len(),
                group == groups@[g as int]@,
                group == p.members[g as int],
                states == table@,
                table_wf(states),
                groups_wf(states, p),
                views(groups@) == p.members,
                p.members.len() <= states.len(),
                ids@.len() == states.len(),
                forall|h: int, y: u32| 0 <= h < g && #[trigger] p.members[h].contains(y) ==> ids@[y as int] == h,
                forall|j: int| 0 <= j < i ==> ids@[(#[trigger] group[j]) as int] == g,
            decreases group.len() - i,
        {
            let y = groups[g][i];
            let ghost before = ids@;
            assert(group[i as int] == y);
            assert(p.members[g as int].contains(y));
            ids.set(y as usize, g as u32);
            proof {
                assert forall|h: int, z: u32| 0 <= h < g && #[trigger] p.members[h].contains(z) implies ids@[z as int] == h by {
                    assert(before[z as int] == h);
                    assert(p.ids[z as int] == h && p.ids[y as int] == g);
                }
                assert forall|j: int| 0 <= j < i + 1 implies ids@[(#[trigger] group[j]) as int] == g by {
                    assert(p.members[g as int].contains(group[j]));
                }
            }
            i = i + 1;
        }
        assert forall|h: int, y: u32| 0 <= h < g + 1 && #[trigger] p.members[h].contains(y) implies ids@[y as int] == h by {
            if h == g {
                let j = choose|j: int| 0 <= j < group.len() && group[j] == y;
                assert(ids@[group[j] as int] == g);
            }
        }
        g = g + 1;
    }
    assert(ids@ =~= p.ids) by {
        assert forall|y: int| 0 <= y < ids@.len() implies ids@[y] == p.ids[y] by {
            assert(in_its_group(p, y as u32));
            assert(p.members[p.ids[y] as int].contains(y as u32));
        }
    }
    assert(groups_model(groups@, ids@) =~= p);
    (groups, ids)
}

/// States with the same signature start out in the same group.
pub proof fn lemma_alike_groups(states: Seq<StateModel>, x: int, y: int)
    requires
        states.len() <= u32::MAX + 1,
        0 <= x < states.len(),
        0 <= y < states.len(),
        signature(states, x) == signature(states, y),
    ensures
        alike(states, states.len()).ids[x] == alike(states, states.len()).ids[y],
{
    let n = states.len();
    let p = alike(states, n);
    lemma_alike(states, n);
    assert(in_its_group(p, x as u32));
    assert(in_its_group(p, y as u32));
    let g = p.ids[x] as int;
    let h = p.ids[y] as int;
    assert(is_like_group(states, p.members[g], n));
    assert(is_like_group(states, p.members[h], n));
    lemma_members(n, has_signature(states, signature(states, p.members[g][0] as int)));
    lemma_members(n, has_signature(states, signature(states, p.members[h][0] as int)));
}

/// The groups that the states end up in.
pub proof fn lemma_minimal_groups(states: Seq<StateModel>)
    requires
        states.len() <= u32::MAX + 1,
    ensures
        groups_wf(states, minimal_groups(states)),
        minimized_table(states).len() <= states.len(),
        states.len() > 0 ==> minimized_table(states).len() > 0,
        minimal_ids(states).len() == states.len(),
        forall|x: int| 0 <= x < states.len() ==> (#[trigger] minimal_ids(states)[x]) < minimized_table(states).len(),
{
    lemma_alike_wf(states);
    lemma_refined(states, alike(states, states.len()));
    let p = minimal_groups(states);
    assert forall|x: int| 0 <= x < states.len() implies (#[trigger] minimal_ids(states)[x]) < minimized_table(states).len() by {
        assert(in_its_group(p, x as u32));
    }
    if states.len() > 0 {
        assert(minimal_ids(states)[0] < minimized_table(states).len());
    }
}

/// The actions of the minimized table lead to states of it.
pub proof fn lemma_minimized_wf(states: Seq<StateModel>)
    requires
        table_wf(states),
    ensures
        table_wf(minimized_table(states)),
{
    lemma_minimal_groups(states);
    let p = minimal_groups(states);
    let ids = minimal_ids(states);
    let small = minimized_table(states);
    assert forall|g: int| 0 <= g < small.len() implies state_wf(#[trigger] small[g], small.len()) by {
        let x = p.members[g][0];
        assert(p.members[g].len() > 0);
        assert(p.members[g].contains(x));
        assert(state_wf(states[x as int], states.len()));
        let s = states[x as int];
        assert forall|i: int| 0 <= i < small[g].advance_actions.len() implies ranges_wf(
            (#[trigger] small[g].advance_actions[i]).0,
        ) && small[g].advance_actions[i].1.state < small.len() by {
            assert(ranges_wf(s.advance_actions[i].0));
            assert(ids[s.advance_actions[i].1.state as int] < small.len());
        }
        if let Some(action) = s.eof_action {
            assert(ids[action.state as int] < small.len());
        }
    }
}

/// Joins the states of a lexer that cannot be told apart, and renumbers the references
/// to them.
pub fn minimize_lex_table(table: &mut LexTable, parse_table: &mut ParseTable)
    requires
        table_wf(old(table)@),
        old(table)@.len() > 0,
        forall|i: int|
            0 <= i < old(parse_table).states@.len() ==> (#[trigger] old(parse_table).states@[i]).lex_state_id < old(table)@.len(),
    ensures
        final(table)@ == minimized_table(old(table)@),
        same_but_lex_ids(*old(parse_table), *final(parse_table)),
        forall|i: int|
            0 <= i < final(parse_table).states@.len() ==> (#[trigger] final(parse_table).states@[i]).lex_state_id
                == minimal_ids(old(table)@)[old(parse_table).states@[i].lex_state_id as int],
{
    let ghost states = table@;
    let (mut groups, mut ids) = group_alike(table);
    let ghost target = minimal_groups(states);
    proof {
        lemma_alike_wf(states);
        lemma_group_count(states, groups_model(groups@, ids@));
    }
    let mut changed = true;
    while changed
        invariant
            states == table@,
            table_wf(states),
            groups_wf(states, groups_model(groups@, ids@)),
            groups@.len() <= states.len(),
            changed ==> refined(states, groups_model(groups@, ids@)) == target,
            !changed ==> groups_model(groups@, ids@) == target,
        decreases states.len() - groups@.len(), (if changed { 1int } else { 0 }),
    {
        let ghost p = groups_model(groups@, ids@);
        proof {
            lemma_split_from(states, p, 1);
        }
        changed = split_state_id_groups(table, &mut groups, &mut ids, 1);
    }

    let mut joined: Vec<LexState> = Vec::new();
    let mut g: usize = 0;
    while g < groups.len()
        invariant
            g <= groups@.len(),
            states == table@,
            table_wf(states),
            target == groups_model(groups@, ids@),
            groups_wf(states, target),
            joined@.len() == g,
            forall|k: int|
                0 <= k < g ==> (#[trigger] joined@[k])@ == renumber_state(states[target.members[k][0] as int], target.ids),
        decreases groups.len() - g,
    {
        proof {
            let group = target.members[g as int];
            assert(group == groups@[g as int]@);
            assert(group.len() > 0);
            assert(target.members[g as int].contains(group[0]));
            assert(state_wf(states[group[0] as int], states.len()));
        }
        let first = groups[g][0];
        joined.push(table.states[first as usize].renumbered(&ids));
        g = g + 1;
    }
    table.states = joined;
    assert(table@ =~= minimized_table(states));
    parse_table.renumber_lex_states(&ids);
}

} // verus!
