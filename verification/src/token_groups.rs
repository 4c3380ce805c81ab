//! Parse states that share a lexer state.

use vstd::prelude::*;

use crate::rules::{TokenSet, Tokens};
use crate::token_conflicts::{
    can_merge, clash, clashes_with_any, has_rows, lemma_has_rows, merge_token_set, CoincidentTokenIndex,
    TokenConflictMap,
};

verus! {

/// A set of tokens, and the parse states that the lexer looks for them in.
pub type TokenGroup = (Tokens, Seq<u32>);

/// The tokens can be merged into group `k`, but into none before it.
pub open spec fn is_first_fit(
    m: &TokenConflictMap,
    index: &CoincidentTokenIndex,
    groups: Seq<TokenGroup>,
    tokens: Tokens,
    k: int,
) -> bool {
    &&& 0 <= k < groups.len()
    &&& can_merge(m, index, groups[k].0, tokens)
    &&& forall|j: int| 0 <= j < k ==> !can_merge(m, index, (#[trigger] groups[j]).0, tokens)
}

/// The groups, with a parse state added to the first group that its tokens can be merged
/// into, or else to a new group.
pub open spec fn placed(
    m: &TokenConflictMap,
    index: &CoincidentTokenIndex,
    groups: Seq<TokenGroup>,
    tokens: Tokens,
    state: u32,
) -> Seq<TokenGroup> {
    if exists|k: int| is_first_fit(m, index, groups, tokens, k) {
        let k = choose|k: int| is_first_fit(m, index, groups, tokens, k);
        groups.update(k, (groups[k].0.union(tokens), groups[k].1.push(state)))
    } else {
        groups.push((tokens, seq![state]))
    }
}

/// The groups of the parse states with the given sets of tokens.
pub open spec fn grouped(m: &TokenConflictMap, index: &CoincidentTokenIndex, sets: Seq<Tokens>) -> Seq<TokenGroup>
    decreases sets.len(),
{
    if sets.len() == 0 {
        Seq::empty()
    } else {
        placed(m, index, grouped(m, index, sets.drop_last()), sets.last(), (sets.len() - 1) as u32)
    }
}

/// What a list of token sets holds.
pub open spec fn token_views(sets: Seq<TokenSet>) -> Seq<Tokens> {
    Seq::new(sets.len(), |i: int| sets[i]@)
}

/// What a list of groups holds.
pub open spec fn group_views(groups: Seq<(TokenSet, Vec<u32>)>) -> Seq<TokenGroup> {
    Seq::new(groups.len(), |i: int| (groups[i].0@, groups[i].1@))
}

/// Parse state `i` is in group `k`.
pub open spec fn is_in_group(groups: Seq<TokenGroup>, i: int, k: int) -> bool {
    0 <= k < groups.len() && groups[k].1.contains(i as u32)
}

/// Parse state `i` is in some group.
pub open spec fn is_grouped(groups: Seq<TokenGroup>, i: int) -> bool {
    exists|k: int| is_in_group(groups, i, k)
}

/// The tokens of the group include the given ones.
pub open spec fn includes(group: Tokens, tokens: Tokens) -> bool {
    &&& tokens.terminals.subset_of(group.terminals)
    &&& tokens.externals.subset_of(group.externals)
    &&& tokens.eof ==> group.eof
    &&& tokens.end_of_nonterminal_extra ==> group.end_of_nonterminal_extra
}

/// The parse states below `n` are in one group each, the groups list nothing else, and
/// nothing twice.
pub open spec fn is_partition(groups: Seq<TokenGroup>, n: nat) -> bool {
    &&& forall|i: int| 0 <= i < n ==> #[trigger] is_grouped(groups, i)
    &&& forall|i: int, j: int, k: int|
        #[trigger] is_in_group(groups, i, j) && #[trigger] is_in_group(groups, i, k) ==> j == k
    &&& forall|k: int, x: int|
        0 <= k < groups.len() && 0 <= x < groups[k].1.len() ==> (#[trigger] groups[k].1[x]) < n
    &&& forall|k: int| 0 <= k < groups.len() ==> (#[trigger] groups[k]).1.no_duplicates()
}

/// The group that the last parse state joins.
pub open spec fn joined_group(m: &TokenConflictMap, index: &CoincidentTokenIndex, sets: Seq<Tokens>) -> int {
    let before = grouped(m, index, sets.drop_last());
    if exists|k: int| is_first_fit(m, index, before, sets.last(), k) {
        choose|k: int| is_first_fit(m, index, before, sets.last(), k)
    } else {
        before.len() as int
    }
}

/// The last parse state joins its group, and the others stay where they are.
pub proof fn lemma_joined_group(m: &TokenConflictMap, index: &CoincidentTokenIndex, sets: Seq<Tokens>, i: int, k: int)
    requires
        0 <= i < sets.len() <= u32::MAX + 1,
    ensures
        is_in_group(grouped(m, index, sets), i, k) == (if i == sets.len() - 1 {
            k == joined_group(m, index, sets)
        } else {
            is_in_group(grouped(m, index, sets.drop_last()), i, k)
        }),
{
    let front = sets.drop_last();
    let new = (sets.len() - 1) as u32;
    lemma_grouped(m, index, front);
    lemma_grouped(m, index, sets);
    let before = grouped(m, index, front);
    let after = grouped(m, index, sets);
    let g = joined_group(m, index, sets);
    assert(is_in_group(after, new as int, g)) by {
        let list = after[g].1;
        assert(list[list.len() - 1] == new);
    }
    if i < new {
        assert(is_grouped(before, i));
        let h = choose|h: int| is_in_group(before, i, h);
        assert(is_in_group(after, i, h)) by {
            let x = choose|x: int| 0 <= x < before[h].1.len() && before[h].1[x] == i as u32;
            assert(after[h].1[x] == i as u32);
        }
    }
}

/// Every parse state is in one group, and the lexer looks for its tokens, among others,
/// in the group.
pub proof fn lemma_grouped(m: &TokenConflictMap, index: &CoincidentTokenIndex, sets: Seq<Tokens>)
    requires
        sets.len() <= u32::MAX + 1,
    ensures
        is_partition(grouped(m, index, sets), sets.len()),
        forall|i: int, k: int|
            0 <= i < sets.len() && #[trigger] is_in_group(grouped(m, index, sets), i, k) ==> includes(
                grouped(m, index, sets)[k].0,
                sets[i],
            ),
        sets.len() > 0 ==> grouped(m, index, sets).len() > 0,
    decreases sets.len(),
{
    if sets.len() > 0 {
        let front = sets.drop_last();
        let last = sets.last();
        let new = (sets.len() - 1) as u32;
        lemma_grouped(m, index, front);
        let before = grouped(m, index, front);
        let after = grouped(m, index, sets);
        let g = if exists|k: int| is_first_fit(m, index, before, last, k) {
            choose|k: int| is_first_fit(m, index, before, last, k)
        } else {
            before.len() as int
        };
        // Group `g` has the new state, and the other groups are as they were.
        assert forall|i: int, k: int| 0 <= i < sets.len() implies #[trigger] is_in_group(after, i, k) == (if i == new {
            k == g
        } else {
            is_in_group(before, i, k)
        }) by {
            if 0 <= k < after.len() {
                let list = after[k].1;
                if k == g {
                    assert(list.last() == new);
                    assert(list[list.len() - 1] == new);
                    if g < before.len() {
                        let shorter = before[g].1;
                        if shorter.contains(i as u32) {
                            let x = choose|x: int| 0 <= x < shorter.len() && shorter[x] == i as u32;
                            assert(list[x] == i as u32);
                            assert(before[g].1[x] < front.len());
                        }
                        if list.contains(i as u32) && i != new {
                            let x = choose|x: int| 0 <= x < list.len() && list[x] == i as u32;
                            assert(shorter[x] == i as u32);
                        }
                    }
                } else {
                    assert(after[k] == before[k]);
                    if i == new && list.contains(new) {
                        let x = choose|x: int| 0 <= x < list.len() && list[x] == new;
                        assert(before[k].1[x] < front.len());
                    }
                }
            }
        }
        assert forall|i: int| 0 <= i < sets.len() implies #[trigger] is_grouped(after, i) by {
            if i == new {
                assert(is_in_group(after, i, g));
            } else {
                assert(is_grouped(before, i));
                let k = choose|k: int| is_in_group(before, i, k);
                assert(is_in_group(after, i, k));
            }
        }
        assert forall|k: int, x: int| 0 <= k < after.len() && 0 <= x < after[k].1.len() implies (#[trigger] after[k].1[x])
            < sets.len() by {
            if k == g {
                if g < before.len() && x < before[g].1.len() {
                    assert(before[g].1[x] < front.len());
                }
            } else {
                assert(before[k].1[x] < front.len());
            }
        }
        assert forall|k: int| 0 <= k < after.len() implies (#[trigger] after[k]).1.no_duplicates() by {
            if k == g && g < before.len() {
                assert forall|x: int| 0 <= x < before[g].1.len() implies before[g].1[x] != new by {}
                assert(before[g].1.no_duplicates());
            } else if k != g {
                assert(before[k].1.no_duplicates());
            }
        }
        assert forall|i: int, j: int, k: int| #[trigger] is_in_group(after, i, j) && #[trigger] is_in_group(
            after,
            i,
            k,
        ) implies j == k by {
            let t = (i as u32) as int;
            let x = choose|x: int| 0 <= x < after[j].1.len() && after[j].1[x] == i as u32;
            assert(after[j].1[x] < sets.len());
            assert(is_in_group(after, t, j) && is_in_group(after, t, k));
            if t != new {
                assert(is_in_group(before, t, j) && is_in_group(before, t, k));
            }
        }
        assert forall|i: int, k: int| 0 <= i < sets.len() && #[trigger] is_in_group(after, i, k) implies includes(
            after[k].0,
            sets[i],
        ) by {
            if i == new {
                assert(k == g);
            } else {
                assert(is_in_group(before, i, k));
                assert(includes(before[k].0, front[i]));
            }
        }
    }
}

/// Groups the parse states by the tokens that the lexer looks for in them.
pub fn group_states(
    sets: Vec<TokenSet>,
    token_conflict_map: &TokenConflictMap,
    coincident_token_index: &CoincidentTokenIndex,
) -> (r: Vec<(TokenSet, Vec<u32>)>)
    requires
        sets@.len() <= u32::MAX + 1,
        token_conflict_map.wf(token_conflict_map.starting_chars_by_index@.len()),
        coincident_token_index.wf(
            token_conflict_map.starting_chars_by_index@.len(),
            token_conflict_map.row_words as nat,
        ),
        forall|i: int, t: int|
            0 <= i < sets@.len() && #[trigger] sets@[i]@.terminals.contains(t) ==> t
                < token_conflict_map.starting_chars_by_index@.len(),
    ensures
        group_views(r@) == grouped(token_conflict_map, coincident_token_index, token_views(sets@)),
        forall|k: int, t: int|
            0 <= k < r@.len() && #[trigger] r@[k].0@.terminals.contains(t) ==> t
                < token_conflict_map.starting_chars_by_index@.len(),
{
    let ghost n = token_conflict_map.starting_chars_by_index@.len();
    let ghost all = token_views(sets@);
    let mut groups: Vec<(TokenSet, Vec<u32>)> = Vec::new();
    let mut i: usize = 0;
    assert(all.take(0).len() == 0);
    assert(group_views(groups@) =~= grouped(token_conflict_map, coincident_token_index, all.take(0)));
    while i < sets.len()
        invariant
            i <= sets@.len(),
            sets@.len() <= u32::MAX + 1,
            n == token_conflict_map.starting_chars_by_index@.len(),
            token_conflict_map.wf(n),
            coincident_token_index.wf(n, token_conflict_map.row_words as nat),
            forall|i: int, t: int| 0 <= i < sets@.len() && #[trigger] sets@[i]@.terminals.contains(t) ==> t < n,
            all == token_views(sets@),
            group_views(groups@) == grouped(token_conflict_map, coincident_token_index, all.take(i as int)),
            forall|k: int, t: int| 0 <= k < groups@.len() && #[trigger] groups@[k].0@.terminals.contains(t) ==> t < n,
        decreases sets.len() - i,
    {
        let tokens = &sets[i];
        let ghost before = group_views(groups@);
        proof {
            assert(all.take(i + 1).drop_last() =~= all.take(i as int));
            assert(all.take(i + 1).last() == tokens@);
            assert(forall|t: int| #[trigger] sets@[i as int]@.terminals.contains(t) ==> t < n);
        }
        let mut did_merge = false;
        let mut k: usize = 0;
        while k < groups.len() && !did_merge
            invariant
                k <= groups@.len(),
                i <= u32::MAX,
                n == token_conflict_map.starting_chars_by_index@.len(),
                token_conflict_map.wf(n),
                coincident_token_index.wf(n, token_conflict_map.row_words as nat),
                forall|t: int| #[trigger] tokens@.terminals.contains(t) ==> t < n,
                forall|k: int, t: int| 0 <= k < groups@.len() && #[trigger] groups@[k].0@.terminals.contains(t) ==> t < n,
                !did_merge ==> group_views(groups@) == before,
                !did_merge ==> forall|j: int|
                    0 <= j < k ==> !can_merge(token_conflict_map, coincident_token_index, (#[trigger] before[j]).0, tokens@),
                did_merge ==> group_views(groups@) == placed(
                    token_conflict_map,
                    coincident_token_index,
                    before,
                    tokens@,
                    i as u32,
                ),
            decreases groups.len() - k, (if did_merge { 0int } else { 1 }),
        {
            let ghost old_groups = groups@;
            assert(before[k as int] == (groups@[k as int].0@, groups@[k as int].1@));
            assert forall|t: int| #[trigger] groups@[k as int].0@.terminals.contains(t) implies has_rows(
                token_conflict_map,
                coincident_token_index,
                t,
            ) by {
                groups@[k as int].0.lemma_terminals_fit(t);
                lemma_has_rows(token_conflict_map, coincident_token_index, n, t);
            }
            assert forall|t: int| #[trigger] tokens@.terminals.contains(t) implies has_rows(
                token_conflict_map,
                coincident_token_index,
                t,
            ) by {
                tokens.lemma_terminals_fit(t);
                lemma_has_rows(token_conflict_map, coincident_token_index, n, t);
            }
            if merge_token_set(&mut groups[k].0, tokens, token_conflict_map, coincident_token_index) {
                did_merge = true;
                groups[k].1.push(i as u32);
                proof {
                    assert(is_first_fit(token_conflict_map, coincident_token_index, before, tokens@, k as int));
                    let c = choose|c: int| is_first_fit(token_conflict_map, coincident_token_index, before, tokens@, c);
                    assert(c == k) by {
                        if c < k {
                            assert(!can_merge(token_conflict_map, coincident_token_index, before[c].0, tokens@));
                        } else if k < c {
                            assert(!can_merge(token_conflict_map, coincident_token_index, before[k as int].0, tokens@));
                        }
                    }
                    assert(group_views(groups@) =~= before.update(
                        k as int,
                        (before[k as int].0.union(tokens@), before[k as int].1.push(i as u32)),
                    ));
                    assert forall|j: int, t: int| 0 <= j < groups@.len() && #[trigger] groups@[j].0@.terminals.contains(
                        t,
                    ) implies t < n by {
                        if j == k {
                            assert(old_groups[j].0@.terminals.contains(t) || tokens@.terminals.contains(t));
                        } else {
                            assert(old_groups[j].0@.terminals.contains(t));
                        }
                    }
                }
            } else {
                proof {
                    assert(group_views(groups@) =~= before);
                    assert forall|j: int, t: int| 0 <= j < groups@.len() && #[trigger] groups@[j].0@.terminals.contains(
                        t,
                    ) implies t < n by {
                        assert(old_groups[j].0@.terminals.contains(t));
                    }
                }
                k = k + 1;
            }
        }
        if !did_merge {
            let ghost old_groups = groups@;
            let mut list: Vec<u32> = Vec::new();
            list.push(i as u32);
            groups.push((tokens.clone(), list));
            proof {
                if exists|c: int| is_first_fit(token_conflict_map, coincident_token_index, before, tokens@, c) {
                    let c = choose|c: int| is_first_fit(token_conflict_map, coincident_token_index, before, tokens@, c);
                    assert(!can_merge(token_conflict_map, coincident_token_index, before[c].0, tokens@));
                }
                assert(list@ =~= seq![i as u32]);
                assert(group_views(groups@) =~= before.push((tokens@, seq![i as u32])));
                assert forall|j: int, t: int| 0 <= j < groups@.len() && #[trigger] groups@[j].0@.terminals.contains(t) implies t
                    < n by {
                    if j < old_groups.len() {
                        assert(old_groups[j].0@.terminals.contains(t));
                    } else {
                        assert(tokens@.terminals.contains(t));
                    }
                }
            }
        }
        i = i + 1;
    }
    assert(all.take(i as int) =~= all);
    groups
}

/// The tokens that the lexer looks for in a group do not get in the way of those of its
/// parse states: none that a parse state does not have clashes with one that it has.
pub open spec fn is_harmless(m: &TokenConflictMap, index: &CoincidentTokenIndex, group: Tokens, tokens: Tokens) -> bool {
    forall|t: int|
        #[trigger] group.terminals.contains(t) && !tokens.terminals.contains(t) ==> !clashes_with_any(m, index, t, tokens)
}

/// Sharing is safe: in every parse state, the lexer looks for all tokens of the state,
/// and none of the others that it looks for clashes with one of them.
pub proof fn law_sharing_is_harmless(m: &TokenConflictMap, index: &CoincidentTokenIndex, sets: Seq<Tokens>, i: int, k: int)
    requires
        sets.len() <= u32::MAX + 1,
        0 <= i < sets.len(),
        is_in_group(grouped(m, index, sets), i, k),
    ensures
        includes(grouped(m, index, sets)[k].0, sets[i]),
        is_harmless(m, index, grouped(m, index, sets)[k].0, sets[i]),
    decreases sets.len(),
{
    lemma_grouped(m, index, sets);
    let front = sets.drop_last();
    let last = sets.last();
    let new = (sets.len() - 1) as u32;
    lemma_grouped(m, index, front);
    let before = grouped(m, index, front);
    let after = grouped(m, index, sets);
    let merges = exists|k: int| is_first_fit(m, index, before, last, k);
    let g = if merges {
        choose|k: int| is_first_fit(m, index, before, last, k)
    } else {
        before.len() as int
    };
    assert(is_in_group(after, new as int, g)) by {
        let list = after[g].1;
        assert(list[list.len() - 1] == new);
    }
    if i < new {
        assert(is_grouped(before, i));
        let h = choose|h: int| is_in_group(before, i, h);
        assert(is_in_group(after, i, h)) by {
            let x = choose|x: int| 0 <= x < before[h].1.len() && before[h].1[x] == i as u32;
            assert(after[h].1[x] == i as u32);
        }
        assert(h == k);
        law_sharing_is_harmless(m, index, front, i, h);
        if merges && h == g {
            assert forall|t: int| #[trigger] after[k].0.terminals.contains(t) && !sets[i].terminals.contains(t) implies !clashes_with_any(
                m,
                index,
                t,
                sets[i],
            ) by {
                if !before[h].0.terminals.contains(t) {
                    assert(last.terminals.contains(t));
                    if clashes_with_any(m, index, t, sets[i]) {
                        let u = choose|u: int| #[trigger] sets[i].terminals.contains(u) && clash(m, index, t, u);
                        assert(before[h].0.terminals.contains(u));
                    }
                } else {
                    assert(!clashes_with_any(m, index, t, front[i]));
                }
            }
        }
    }
}

} // verus!
