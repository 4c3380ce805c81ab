//! Which parse states share a lexer state, bit by bit and token by token.

use vstd::prelude::*;

use crate::rules::Tokens;
use crate::token_conflicts::{can_merge, clash, clashes_with_any, table_bit, CoincidentTokenIndex, TokenConflictMap};
use crate::token_groups::{
    grouped, is_first_fit, is_in_group, joined_group, law_sharing_is_harmless, lemma_grouped, lemma_joined_group,
};

verus! {

/// Bit `t` of row `i` is set in a table of bits with `row_words` words to a row.
pub open spec fn is_set(bits: Seq<u64>, row_words: int, i: int, t: int) -> bool {
    &&& 0 <= t < 64 * row_words
    &&& (bits[i * row_words + t / 64] >> ((t % 64) as u64)) & 1 == 1
}

/// The bit says that token `i` conflicts with token `t`.
pub open spec fn conflict_bit(m: &TokenConflictMap, i: int, t: int) -> bool {
    is_set(m.conflict_or_prefix_bits@, m.row_words as int, i, t)
}

/// The bit says that tokens `i` and `t` overlap.
pub open spec fn overlap_bit(m: &TokenConflictMap, i: int, t: int) -> bool {
    is_set(m.overlap_either_bits@, m.row_words as int, i, t)
}

/// The bit says that some parse state has both token `i` and token `t`.
pub open spec fn coincident_bit(m: &TokenConflictMap, index: &CoincidentTokenIndex, i: int, t: int) -> bool {
    is_set(index.row_bits@, m.row_words as int, i, t)
}

proof fn lemma_table_bit(bits: Seq<u64>, row_words: nat, i: int, t: int)
    ensures
        table_bit(bits, row_words, i, t) == is_set(bits, row_words as int, i, t),
{
    if 0 <= t {
        assert(t / 64 < row_words <==> t < 64 * row_words);
    }
}

/// A conflict bit is enough for a clash with the tokens of a set, whatever the other
/// tables hold.
pub proof fn law_conflict_is_a_clash(m: &TokenConflictMap, index: &CoincidentTokenIndex, i: int, t: int, tokens: Tokens)
    requires
        conflict_bit(m, i, t),
        tokens.terminals.contains(t),
    ensures
        clashes_with_any(m, index, i, tokens),
{
    lemma_table_bit(m.conflict_or_prefix_bits@, m.row_words as nat, i, t);
    assert(clash(m, index, i, t));
}

/// An overlap is a clash where no parse state has both tokens.
pub proof fn law_overlap_is_a_clash(m: &TokenConflictMap, index: &CoincidentTokenIndex, i: int, t: int, tokens: Tokens)
    requires
        overlap_bit(m, i, t),
        !coincident_bit(m, index, i, t),
        tokens.terminals.contains(t),
    ensures
        clashes_with_any(m, index, i, tokens),
{
    lemma_table_bit(m.overlap_either_bits@, m.row_words as nat, i, t);
    lemma_table_bit(index.row_bits@, m.row_words as nat, i, t);
    assert(clash(m, index, i, t));
}

/// Nothing else is a clash: without a conflict bit, and without an overlap bit of tokens
/// that no parse state has together, a token does not clash with a set.
pub proof fn law_nothing_else_is_a_clash(m: &TokenConflictMap, index: &CoincidentTokenIndex, i: int, tokens: Tokens)
    requires
        forall|t: int|
            #[trigger] tokens.terminals.contains(t) ==> !conflict_bit(m, i, t) && (!overlap_bit(m, i, t) || coincident_bit(
                m,
                index,
                i,
                t,
            )),
    ensures
        !clashes_with_any(m, index, i, tokens),
{
    assert forall|t: int| #[trigger] tokens.terminals.contains(t) implies !clash(m, index, i, t) by {
        lemma_clash_bits(m, index, i, t);
    }
}

/// The bits keep token `i` from being looked for where token `t` is valid.
pub open spec fn bits_clash(m: &TokenConflictMap, index: &CoincidentTokenIndex, i: int, t: int) -> bool {
    conflict_bit(m, i, t) || (overlap_bit(m, i, t) && !coincident_bit(m, index, i, t))
}

proof fn lemma_clash_bits(m: &TokenConflictMap, index: &CoincidentTokenIndex, i: int, t: int)
    ensures
        clash(m, index, i, t) == bits_clash(m, index, i, t),
{
    lemma_table_bit(m.conflict_or_prefix_bits@, m.row_words as nat, i, t);
    lemma_table_bit(m.overlap_either_bits@, m.row_words as nat, i, t);
    lemma_table_bit(index.row_bits@, m.row_words as nat, i, t);
}

/// Some token that only the first set has clashes with a token of the second.
pub open spec fn one_clashes(m: &TokenConflictMap, index: &CoincidentTokenIndex, a: Set<int>, b: Set<int>) -> bool {
    exists|t: int, u: int|
        #[trigger] a.contains(t) && !b.contains(t) && #[trigger] b.contains(u) && bits_clash(m, index, t, u)
}

/// Two sets of tokens are merged just where no token that only one of them has clashes
/// with a token of the other.
pub proof fn law_merge_without_clashes(m: &TokenConflictMap, index: &CoincidentTokenIndex, a: Tokens, b: Tokens)
    ensures
        can_merge(m, index, a, b) <==> !one_clashes(m, index, a.terminals, b.terminals) && !one_clashes(
            m,
            index,
            b.terminals,
            a.terminals,
        ),
{
    lemma_one_side(m, index, a, b);
    lemma_one_side(m, index, b, a);
}

proof fn lemma_one_side(m: &TokenConflictMap, index: &CoincidentTokenIndex, a: Tokens, b: Tokens)
    ensures
        one_clashes(m, index, a.terminals, b.terminals) <==> exists|t: int|
            #[trigger] a.terminals.contains(t) && !b.terminals.contains(t) && clashes_with_any(m, index, t, b),
{
    if one_clashes(m, index, a.terminals, b.terminals) {
        let (t, u) = choose|t: int, u: int|
            #[trigger] a.terminals.contains(t) && !b.terminals.contains(t) && #[trigger] b.terminals.contains(u)
                && bits_clash(m, index, t, u);
        lemma_clash_bits(m, index, t, u);
        assert(clashes_with_any(m, index, t, b));
    }
    if exists|t: int| #[trigger] a.terminals.contains(t) && !b.terminals.contains(t) && clashes_with_any(m, index, t, b) {
        let t = choose|t: int|
            #[trigger] a.terminals.contains(t) && !b.terminals.contains(t) && clashes_with_any(m, index, t, b);
        let u = choose|u: int| #[trigger] b.terminals.contains(u) && clash(m, index, t, u);
        lemma_clash_bits(m, index, t, u);
        assert(a.terminals.contains(t) && b.terminals.contains(u) && bits_clash(m, index, t, u));
    }
}

/// No parse state shares a lexer state with a token that it does not have and that clashes
/// with one of its own.
pub proof fn law_no_clash_is_shared(
    m: &TokenConflictMap,
    index: &CoincidentTokenIndex,
    sets: Seq<Tokens>,
    i: int,
    k: int,
    t: int,
    u: int,
)
    requires
        sets.len() <= u32::MAX + 1,
        0 <= i < sets.len(),
        is_in_group(grouped(m, index, sets), i, k),
        grouped(m, index, sets)[k].0.terminals.contains(t),
        !sets[i].terminals.contains(t),
        sets[i].terminals.contains(u),
    ensures
        !conflict_bit(m, t, u),
        !overlap_bit(m, t, u) || coincident_bit(m, index, t, u),
{
    law_sharing_is_harmless(m, index, sets, i, k);
    lemma_clash_bits(m, index, t, u);
    assert(!clashes_with_any(m, index, t, sets[i]));
    assert(!clash(m, index, t, u));
}

/// The terminals of the parse states before `n` that are in group `k`.
pub open spec fn group_terminals(m: &TokenConflictMap, index: &CoincidentTokenIndex, sets: Seq<Tokens>, n: int, k: int) -> Set<int> {
    Set::new(|t: int| exists|j: int| has_in_group(m, index, sets, n, k, j, t))
}

/// Parse state `j`, before `n`, is in group `k` and has terminal `t`.
pub open spec fn has_in_group(
    m: &TokenConflictMap,
    index: &CoincidentTokenIndex,
    sets: Seq<Tokens>,
    n: int,
    k: int,
    j: int,
    t: int,
) -> bool {
    0 <= j < n && is_in_group(grouped(m, index, sets), j, k) && sets[j].terminals.contains(t)
}

/// Parse state `j` is in group `k`, and its set satisfies `p`.
pub open spec fn some_member(
    m: &TokenConflictMap,
    index: &CoincidentTokenIndex,
    sets: Seq<Tokens>,
    k: int,
    p: spec_fn(Tokens) -> bool,
) -> bool {
    exists|j: int| 0 <= j < sets.len() && #[trigger] is_in_group(grouped(m, index, sets), j, k) && p(sets[j])
}

proof fn lemma_member_stays(
    m: &TokenConflictMap,
    index: &CoincidentTokenIndex,
    sets: Seq<Tokens>,
    k: int,
    p: spec_fn(Tokens) -> bool,
)
    requires
        0 < sets.len() <= u32::MAX + 1,
        some_member(m, index, sets.drop_last(), k, p),
    ensures
        some_member(m, index, sets, k, p),
{
    let front = sets.drop_last();
    let j = choose|j: int| 0 <= j < front.len() && #[trigger] is_in_group(grouped(m, index, front), j, k) && p(front[j]);
    lemma_joined_group(m, index, sets, j, k);
    assert(is_in_group(grouped(m, index, sets), j, k) && p(sets[j]));
}

/// The lexer looks for nothing in a group that no parse state of the group looks for.
pub proof fn law_shared_tokens_have_owners(m: &TokenConflictMap, index: &CoincidentTokenIndex, sets: Seq<Tokens>, k: int)
    requires
        sets.len() <= u32::MAX + 1,
        0 <= k < grouped(m, index, sets).len(),
    ensures
        ({
            let group = grouped(m, index, sets)[k].0;
            &&& forall|t: int|
                #[trigger] group.terminals.contains(t) ==> some_member(
                    m,
                    index,
                    sets,
                    k,
                    |s: Tokens| s.terminals.contains(t),
                )
            &&& forall|t: int|
                #[trigger] group.externals.contains(t) ==> some_member(
                    m,
                    index,
                    sets,
                    k,
                    |s: Tokens| s.externals.contains(t),
                )
            &&& group.eof ==> some_member(m, index, sets, k, |s: Tokens| s.eof)
            &&& group.end_of_nonterminal_extra ==> some_member(m, index, sets, k, |s: Tokens| s.end_of_nonterminal_extra)
        }),
    decreases sets.len(),
{
    if sets.len() > 0 {
        let front = sets.drop_last();
        let before = grouped(m, index, front);
        let after = grouped(m, index, sets);
        let g = joined_group(m, index, sets);
        let last = sets.len() - 1;
        let group = after[k].0;
        lemma_joined_group(m, index, sets, last, k);
        if k < before.len() {
            law_shared_tokens_have_owners(m, index, front, k);
        }
        assert forall|t: int| #[trigger] group.terminals.contains(t) implies some_member(
            m,
            index,
            sets,
            k,
            |s: Tokens| s.terminals.contains(t),
        ) by {
            let p = |s: Tokens| s.terminals.contains(t);
            if k < before.len() && before[k].0.terminals.contains(t) {
                lemma_member_stays(m, index, sets, k, p);
            } else {
                assert(is_in_group(after, last, k) && p(sets[last]));
            }
        }
        assert forall|t: int| #[trigger] group.externals.contains(t) implies some_member(
            m,
            index,
            sets,
            k,
            |s: Tokens| s.externals.contains(t),
        ) by {
            let p = |s: Tokens| s.externals.contains(t);
            if k < before.len() && before[k].0.externals.contains(t) {
                lemma_member_stays(m, index, sets, k, p);
            } else {
                assert(is_in_group(after, last, k) && p(sets[last]));
            }
        }
        if group.eof {
            let p = |s: Tokens| s.eof;
            if k < before.len() && before[k].0.eof {
                lemma_member_stays(m, index, sets, k, p);
            } else {
                assert(is_in_group(after, last, k) && p(sets[last]));
            }
        }
        if group.end_of_nonterminal_extra {
            let p = |s: Tokens| s.end_of_nonterminal_extra;
            if k < before.len() && before[k].0.end_of_nonterminal_extra {
                lemma_member_stays(m, index, sets, k, p);
            } else {
                assert(is_in_group(after, last, k) && p(sets[last]));
            }
        }
    }
}

/// The terminals of a group are those of its parse states.
proof fn lemma_group_terminals(m: &TokenConflictMap, index: &CoincidentTokenIndex, sets: Seq<Tokens>, k: int)
    requires
        sets.len() <= u32::MAX + 1,
        0 <= k < grouped(m, index, sets).len(),
    ensures
        grouped(m, index, sets)[k].0.terminals == group_terminals(m, index, sets, sets.len() as int, k),
{
    let group = grouped(m, index, sets)[k].0.terminals;
    let all = group_terminals(m, index, sets, sets.len() as int, k);
    law_shared_tokens_have_owners(m, index, sets, k);
    lemma_grouped(m, index, sets);
    assert forall|t: int| group.contains(t) == all.contains(t) by {
        if group.contains(t) {
            let p = |s: Tokens| s.terminals.contains(t);
            assert(some_member(m, index, sets, k, p));
            let j = choose|j: int| 0 <= j < sets.len() && #[trigger] is_in_group(grouped(m, index, sets), j, k) && p(sets[j]);
            assert(has_in_group(m, index, sets, sets.len() as int, k, j, t));
        }
        if all.contains(t) {
            let j = choose|j: int| has_in_group(m, index, sets, sets.len() as int, k, j, t);
            assert(is_in_group(grouped(m, index, sets), j, k));
        }
    }
    assert(group =~= all);
}

/// Later parse states change nothing for the earlier ones.
proof fn lemma_group_terminals_stay(m: &TokenConflictMap, index: &CoincidentTokenIndex, sets: Seq<Tokens>, n: int, k: int)
    requires
        0 < sets.len() <= u32::MAX + 1,
        0 <= n < sets.len(),
    ensures
        group_terminals(m, index, sets, n, k) == group_terminals(m, index, sets.drop_last(), n, k),
{
    let front = sets.drop_last();
    let a = group_terminals(m, index, sets, n, k);
    let b = group_terminals(m, index, front, n, k);
    assert forall|t: int| a.contains(t) == b.contains(t) by {
        if a.contains(t) {
            let j = choose|j: int| has_in_group(m, index, sets, n, k, j, t);
            lemma_joined_group(m, index, sets, j, k);
            assert(has_in_group(m, index, front, n, k, j, t));
        }
        if b.contains(t) {
            let j = choose|j: int| has_in_group(m, index, front, n, k, j, t);
            lemma_joined_group(m, index, sets, j, k);
            assert(has_in_group(m, index, sets, n, k, j, t));
        }
    }
    assert(a =~= b);
}

/// Some token of the parse states before `i` in group `k` stands against those of parse
/// state `i`, or the other way round.
pub open spec fn stands_against(
    m: &TokenConflictMap,
    index: &CoincidentTokenIndex,
    sets: Seq<Tokens>,
    i: int,
    k: int,
) -> bool {
    let earlier = group_terminals(m, index, sets, i, k);
    one_clashes(m, index, earlier, sets[i].terminals) || one_clashes(m, index, sets[i].terminals, earlier)
}

/// A parse state joins the first group that nothing in it or in the group stands against;
/// only if there is none, it starts a new one. The groups are numbered as they come up.
pub proof fn law_first_fit(m: &TokenConflictMap, index: &CoincidentTokenIndex, sets: Seq<Tokens>, i: int, k: int, h: int)
    requires
        sets.len() <= u32::MAX + 1,
        0 <= i < sets.len(),
        is_in_group(grouped(m, index, sets), i, k),
        0 <= h <= k,
    ensures
        h < k ==> stands_against(m, index, sets, i, h),
        h == k ==> !stands_against(m, index, sets, i, h),
        h < k ==> exists|j: int| 0 <= j < i && #[trigger] is_in_group(grouped(m, index, sets), j, h),
    decreases sets.len(),
{
    let front = sets.drop_last();
    let last = sets.len() - 1;
    let before = grouped(m, index, front);
    let after = grouped(m, index, sets);
    lemma_joined_group(m, index, sets, i, k);
    lemma_group_terminals_stay(m, index, sets, i, h);
    lemma_grouped(m, index, front);
    if i < last {
        law_first_fit(m, index, front, i, k, h);
        assert(front[i] == sets[i]);
        if h < k {
            let j = choose|j: int| 0 <= j < i && #[trigger] is_in_group(before, j, h);
            lemma_joined_group(m, index, sets, j, h);
            assert(is_in_group(after, j, h));
        }
    } else {
        let g = joined_group(m, index, sets);
        assert(k == g);
        if h < before.len() {
            lemma_group_terminals(m, index, front, h);
            law_merge_without_clashes(m, index, before[h].0, sets.last());
            assert(group_terminals(m, index, sets, i, h) == before[h].0.terminals);
            let fits = exists|f: int| is_first_fit(m, index, before, sets.last(), f);
            if h < k {
                lemma_no_fit_before(m, index, sets, h);
                lemma_group_has_member(m, index, front, h);
                let j = choose|j: int| 0 <= j < front.len() && #[trigger] is_in_group(before, j, h);
                lemma_joined_group(m, index, sets, j, h);
                assert(is_in_group(after, j, h));
            }
        } else {
            assert(h == k);
            let earlier = group_terminals(m, index, sets, i, h);
            assert forall|t: int| !earlier.contains(t) by {
                if earlier.contains(t) {
                    let j = choose|j: int| has_in_group(m, index, sets, i, h, j, t);
                    lemma_joined_group(m, index, sets, j, h);
                }
            }
        }
    }
}

/// The last parse state fits no group before the one that it joins.
proof fn lemma_no_fit_before(m: &TokenConflictMap, index: &CoincidentTokenIndex, sets: Seq<Tokens>, h: int)
    requires
        sets.len() > 0,
        0 <= h < joined_group(m, index, sets),
        h < grouped(m, index, sets.drop_last()).len(),
    ensures
        !can_merge(m, index, grouped(m, index, sets.drop_last())[h].0, sets.last()),
{
    let before = grouped(m, index, sets.drop_last());
    if can_merge(m, index, before[h].0, sets.last()) {
        let f = lemma_first_fit_exists(m, index, before, sets.last(), h);
        assert(is_first_fit(m, index, before, sets.last(), f));
        let g = joined_group(m, index, sets);
        assert(is_first_fit(m, index, before, sets.last(), g));
        assert(!can_merge(m, index, before[h].0, sets.last()));
    }
}

proof fn lemma_first_fit_exists(
    m: &TokenConflictMap,
    index: &CoincidentTokenIndex,
    groups: Seq<(Tokens, Seq<u32>)>,
    tokens: Tokens,
    h: int,
) -> (f: int)
    requires
        0 <= h < groups.len(),
        can_merge(m, index, groups[h].0, tokens),
    ensures
        is_first_fit(m, index, groups, tokens, f),
    decreases h,
{
    if exists|j: int| 0 <= j < h && can_merge(m, index, (#[trigger] groups[j]).0, tokens) {
        let j = choose|j: int| 0 <= j < h && can_merge(m, index, (#[trigger] groups[j]).0, tokens);
        lemma_first_fit_exists(m, index, groups, tokens, j)
    } else {
        h
    }
}

/// No group is empty.
proof fn lemma_group_has_member(m: &TokenConflictMap, index: &CoincidentTokenIndex, sets: Seq<Tokens>, h: int)
    requires
        sets.len() <= u32::MAX + 1,
        0 <= h < grouped(m, index, sets).len(),
    ensures
        exists|j: int| 0 <= j < sets.len() && #[trigger] is_in_group(grouped(m, index, sets), j, h),
    decreases sets.len(),
{
    if sets.len() > 0 {
        let front = sets.drop_last();
        let before = grouped(m, index, front);
        let after = grouped(m, index, sets);
        if h < before.len() {
            lemma_group_has_member(m, index, front, h);
            let j = choose|j: int| 0 <= j < front.len() && #[trigger] is_in_group(before, j, h);
            lemma_joined_group(m, index, sets, j, h);
            assert(is_in_group(after, j, h));
        } else {
            lemma_joined_group(m, index, sets, sets.len() - 1, h);
            assert(is_in_group(after, sets.len() - 1, h));
        }
    }
}

} // verus!
