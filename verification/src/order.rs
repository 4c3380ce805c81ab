//! The lexicographic order on sequences of numbers, and a stable sort by it.
//!
//! Everything in this crate that has to be put in order (transitions, groups of
//! states, lexer states) is given a sort key, a sequence of numbers, and the keys
//! are compared lexicographically.

use vstd::prelude::*;

verus! {

/// `a` comes before `b`, and position `k` decides it: they agree before `k`, and at
/// `k` either `a` has ended or its element is the smaller one.
pub open spec fn decided_at(a: Seq<u32>, b: Seq<u32>, k: int) -> bool {
    &&& 0 <= k <= a.len()
    &&& k < b.len()
    &&& forall|i: int| 0 <= i < k ==> a[i] == b[i]
    &&& k < a.len() ==> a[k] < b[k]
}

/// The strict lexicographic order.
pub open spec fn lex_lt(a: Seq<u32>, b: Seq<u32>) -> bool {
    exists|k: int| decided_at(a, b, k)
}

/// No sequence comes before itself.
pub proof fn lemma_lex_irreflexive(a: Seq<u32>)
    ensures
        !lex_lt(a, a),
{
}

/// The lexicographic order is transitive.
pub proof fn lemma_lex_transitive(a: Seq<u32>, b: Seq<u32>, c: Seq<u32>)
    requires
        lex_lt(a, b),
        lex_lt(b, c),
    ensures
        lex_lt(a, c),
{
    let k = choose|k: int| decided_at(a, b, k);
    let m = choose|k: int| decided_at(b, c, k);
    let d = if k < m { k } else { m };
    assert(decided_at(a, c, d));
}

/// Two different sequences are ordered one way or the other.
pub proof fn lemma_lex_total(a: Seq<u32>, b: Seq<u32>)
    ensures
        a == b || lex_lt(a, b) || lex_lt(b, a),
{
    lemma_lex_total_from(a, b, 0);
}

proof fn lemma_lex_total_from(a: Seq<u32>, b: Seq<u32>, k: int)
    requires
        0 <= k <= a.len(),
        k <= b.len(),
        forall|i: int| 0 <= i < k ==> a[i] == b[i],
    ensures
        a == b || lex_lt(a, b) || lex_lt(b, a),
    decreases a.len() - k,
{
    if k == a.len() && k == b.len() {
        assert(a =~= b);
    } else if k == a.len() {
        assert(decided_at(a, b, k));
    } else if k == b.len() {
        assert(decided_at(b, a, k));
    } else if a[k] < b[k] {
        assert(decided_at(a, b, k));
    } else if b[k] < a[k] {
        assert(decided_at(b, a, k));
    } else {
        lemma_lex_total_from(a, b, k + 1);
    }
}

/// Decides the lexicographic order.
pub fn lex_less(a: &Vec<u32>, b: &Vec<u32>) -> (less: bool)
    ensures
        less == lex_lt(a@, b@),
{
    let mut k: usize = 0;
    while k < a.len() && k < b.len()
        invariant
            k <= a.len(),
            k <= b.len(),
            forall|i: int| 0 <= i < k ==> a@[i] == b@[i],
        decreases a.len() - k,
    {
        if a[k] < b[k] {
            assert(decided_at(a@, b@, k as int));
            return true;
        }
        if b[k] < a[k] {
            proof {
                assert(decided_at(b@, a@, k as int));
                if lex_lt(a@, b@) {
                    lemma_lex_transitive(a@, b@, a@);
                    lemma_lex_irreflexive(a@);
                }
            }
            return false;
        }
        k = k + 1;
    }
    if k < b.len() {
        assert(decided_at(a@, b@, k as int));
        true
    } else {
        proof {
            if lex_lt(a@, b@) {
                let m = choose|m: int| decided_at(a@, b@, m);
                assert(decided_at(a@, b@, m));
            }
        }
        false
    }
}

/// The sequences that the inner vectors hold.
pub open spec fn views(keys: Seq<Vec<u32>>) -> Seq<Seq<u32>> {
    Seq::new(keys.len(), |i: int| keys[i]@)
}

/// Item `i` goes before item `j` in a stable sort by `keys`.
pub open spec fn goes_before(keys: Seq<Seq<u32>>, i: int, j: int) -> bool {
    lex_lt(keys[i], keys[j]) || (keys[i] == keys[j] && i < j)
}

/// `order` lists every index of `keys` once, in the order of a stable sort by the
/// keys.
pub open spec fn is_stable_order(keys: Seq<Seq<u32>>, order: Seq<usize>) -> bool {
    &&& order.len() == keys.len()
    &&& forall|i: int| 0 <= i < order.len() ==> (#[trigger] order[i]) < keys.len()
    &&& forall|i: int, j: int|
        0 <= i < j < order.len() ==> goes_before(keys, #[trigger] order[i] as int, #[trigger] order[j] as int)
    &&& forall|x: usize| x < keys.len() ==> #[trigger] order.contains(x)
}

/// The strict order on items is transitive.
pub proof fn lemma_goes_before_transitive(keys: Seq<Seq<u32>>, i: int, j: int, k: int)
    requires
        goes_before(keys, i, j),
        goes_before(keys, j, k),
    ensures
        goes_before(keys, i, k),
{
    if lex_lt(keys[i], keys[j]) && lex_lt(keys[j], keys[k]) {
        lemma_lex_transitive(keys[i], keys[j], keys[k]);
    }
}

/// An item does not go before itself, and two items never go before each other.
pub proof fn lemma_goes_before_asymmetric(keys: Seq<Seq<u32>>, i: int, j: int)
    requires
        goes_before(keys, i, j),
    ensures
        i != j,
        !goes_before(keys, j, i),
{
    lemma_lex_irreflexive(keys[i]);
    if goes_before(keys, j, i) {
        lemma_goes_before_transitive(keys, i, j, i);
    }
}

/// Item `n` can be put into the order of the items before it, behind those that it does
/// not go before.
proof fn lemma_insert(ks: Seq<Seq<u32>>, before: Seq<usize>, n: usize, p: int)
    requires
        n < ks.len(),
        is_stable_order(ks.take(n as int), before),
        0 <= p <= before.len(),
        p > 0 ==> !lex_lt(ks[n as int], ks[before[p - 1] as int]),
        forall|i: int| p <= i < before.len() ==> lex_lt(ks[n as int], ks[#[trigger] before[i] as int]),
    ensures
        is_stable_order(ks.take(n + 1), before.insert(p, n)),
{
    let kn = ks.take(n as int);
    let kn1 = ks.take(n + 1);
    let after = before.insert(p, n);
    assert forall|i: int, j: int| 0 <= i < before.len() && 0 <= j < before.len() && #[trigger] goes_before(
        kn,
        before[i] as int,
        before[j] as int,
    ) implies goes_before(kn1, before[i] as int, before[j] as int) by {
        assert(before[i] < kn.len());
        assert(before[j] < kn.len());
    }
    assert forall|i: int| 0 <= i < p implies #[trigger] goes_before(kn1, before[i] as int, n as int) by {
        assert(before[i] < kn.len());
        let last = before[p - 1] as int;
        assert(before[p - 1] < kn.len());
        lemma_lex_total(ks[n as int], ks[last]);
        assert(goes_before(kn1, last, n as int));
        if i < p - 1 {
            assert(goes_before(kn, before[i] as int, last));
            lemma_goes_before_transitive(kn1, before[i] as int, last, n as int);
        }
    }
    assert forall|i: int, j: int| 0 <= i < j < after.len() implies goes_before(
        kn1,
        #[trigger] after[i] as int,
        #[trigger] after[j] as int,
    ) by {
        let bi = if i < p { i } else { i - 1 };
        let bj = if j < p { j } else { j - 1 };
        if i != p {
            assert(after[i] == before[bi]);
            assert(before[bi] < kn.len());
        }
        if j != p {
            assert(after[j] == before[bj]);
            assert(before[bj] < kn.len());
        }
        if i != p && j != p {
            assert(goes_before(kn, before[bi] as int, before[bj] as int));
        }
    }
    assert forall|i: int| 0 <= i < after.len() implies (#[trigger] after[i]) < kn1.len() by {
        if i < p {
            assert(after[i] == before[i]);
        } else if i > p {
            assert(after[i] == before[i - 1]);
        }
    }
    assert forall|x: usize| x < kn1.len() implies #[trigger] after.contains(x) by {
        if x == n {
            assert(after[p] == x);
        } else {
            assert(before.contains(x));
            let w = choose|w: int| 0 <= w < before.len() && before[w] == x;
            if w < p {
                assert(after[w] == x);
            } else {
                assert(after[w + 1] == x);
            }
        }
    }
}

/// Where item `n` belongs in the order of the items before it, if it goes before those
/// from `p` on.
proof fn lemma_insertion_point(ks: Seq<Seq<u32>>, before: Seq<usize>, n: usize, p: int) -> (r: int)
    requires
        0 <= p <= before.len(),
        forall|i: int| p <= i < before.len() ==> lex_lt(ks[n as int], ks[#[trigger] before[i] as int]),
    ensures
        0 <= r <= p,
        r > 0 ==> !lex_lt(ks[n as int], ks[before[r - 1] as int]),
        forall|i: int| r <= i < before.len() ==> lex_lt(ks[n as int], ks[#[trigger] before[i] as int]),
    decreases p,
{
    if p > 0 && lex_lt(ks[n as int], ks[before[p - 1] as int]) {
        lemma_insertion_point(ks, before, n, p - 1)
    } else {
        p
    }
}

/// Items can always be put in order.
pub proof fn lemma_stable_order_exists(ks: Seq<Seq<u32>>) -> (order: Seq<usize>)
    requires
        ks.len() <= usize::MAX,
    ensures
        is_stable_order(ks, order),
    decreases ks.len(),
{
    if ks.len() == 0 {
        Seq::empty()
    } else {
        let front = ks.drop_last();
        let n = (ks.len() - 1) as usize;
        let before = lemma_stable_order_exists(front);
        assert(front =~= ks.take(n as int));
        assert(ks =~= ks.take(n + 1));
        let p = lemma_insertion_point(ks, before, n, before.len() as int);
        lemma_insert(ks, before, n, p);
        before.insert(p, n)
    }
}

/// Sorts item indices by key, keeping the order of items with equal keys.
pub fn stable_order(keys: &Vec<Vec<u32>>) -> (order: Vec<usize>)
    ensures
        is_stable_order(views(keys@), order@),
{
    let ghost ks = views(keys@);
    let mut order: Vec<usize> = Vec::new();
    let mut n: usize = 0;
    while n < keys.len()
        invariant
            ks == views(keys@),
            n <= keys.len(),
            is_stable_order(ks.take(n as int), order@),
        decreases keys.len() - n,
    {
        let ghost before = order@;
        let mut p: usize = order.len();
        while p > 0 && lex_less(&keys[n], &keys[order[p - 1]])
            invariant
                ks == views(keys@),
                n < keys.len(),
                p <= order.len(),
                order@ == before,
                is_stable_order(ks.take(n as int), before),
                forall|i: int| p <= i < before.len() ==> lex_lt(ks[n as int], ks[#[trigger] before[i] as int]),
            decreases p,
        {
            assert(before[p - 1] < ks.take(n as int).len());
            p = p - 1;
        }
        order.insert(p, n);
        proof {
            if p > 0 {
                assert(before[p - 1] < ks.take(n as int).len());
            }
            lemma_insert(ks, before, n, p as int);
        }
        n = n + 1;
    }
    assert(ks.take(n as int) =~= ks);
    order
}

} // verus!
