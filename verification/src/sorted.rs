//! Sets of numbers, kept as strictly ascending sequences.

use vstd::prelude::*;

verus! {

/// The sequence is strictly ascending.
pub open spec fn strictly_sorted(s: Seq<u32>) -> bool {
    forall|i: int, j: int| 0 <= i < j < s.len() ==> s[i] < s[j]
}

/// The numbers below `n` that satisfy `p`, in ascending order.
pub open spec fn members(n: nat, p: spec_fn(u32) -> bool) -> Seq<u32>
    decreases n,
{
    if n == 0 {
        Seq::empty()
    } else {
        let rest = members((n - 1) as nat, p);
        if p((n - 1) as u32) {
            rest.push((n - 1) as u32)
        } else {
            rest
        }
    }
}

/// The members are in ascending order, and are just the numbers that satisfy `p`.
pub proof fn lemma_members(n: nat, p: spec_fn(u32) -> bool)
    requires
        n <= u32::MAX + 1,
    ensures
        strictly_sorted(members(n, p)),
        forall|x: u32| #[trigger] members(n, p).contains(x) <==> x < n && p(x),
    decreases n,
{
    if n > 0 {
        let m = (n - 1) as nat;
        lemma_members(m, p);
        let rest = members(m, p);
        let all = members(n, p);
        assert forall|x: u32| #[trigger] all.contains(x) <==> x < n && p(x) by {
            if all.contains(x) {
                let i = choose|i: int| 0 <= i < all.len() && all[i] == x;
                if i < rest.len() {
                    assert(rest[i] == x);
                    assert(rest.contains(x));
                }
            }
            if x < n && p(x) {
                if x < m {
                    assert(rest.contains(x));
                    let i = choose|i: int| 0 <= i < rest.len() && rest[i] == x;
                    assert(all[i] == x);
                } else {
                    assert(all[rest.len() as int] == x);
                }
            }
        }
        assert forall|i: int, j: int| 0 <= i < j < all.len() implies all[i] < all[j] by {
            assert(rest.contains(rest[i]));
            if j < rest.len() {
                assert(rest[i] < rest[j]);
            }
        }
    }
}

/// A strictly ascending sequence is determined by its members.
pub proof fn lemma_sorted_unique(a: Seq<u32>, b: Seq<u32>)
    requires
        strictly_sorted(a),
        strictly_sorted(b),
        forall|x: u32| #[trigger] a.contains(x) <==> b.contains(x),
    ensures
        a == b,
    decreases a.len(),
{
    if a.len() == 0 {
        if b.len() > 0 {
            assert(b.contains(b[0]));
            assert(a.contains(b[0]));
        }
        assert(a =~= b);
    } else {
        assert(a.contains(a.last()));
        assert(b.contains(a.last()));
        assert(b.contains(b.last()));
        assert(a.contains(b.last()));
        let i = choose|i: int| 0 <= i < b.len() && b[i] == a.last();
        let j = choose|j: int| 0 <= j < a.len() && a[j] == b.last();
        assert(a.last() == b.last());
        let x = a.drop_last();
        let y = b.drop_last();
        assert forall|v: u32| #[trigger] x.contains(v) <==> y.contains(v) by {
            if x.contains(v) {
                let k = choose|k: int| 0 <= k < x.len() && x[k] == v;
                assert(a[k] == v && a.contains(v));
                assert(b.contains(v));
                let m = choose|m: int| 0 <= m < b.len() && b[m] == v;
                assert(y[m] == v);
            }
            if y.contains(v) {
                let k = choose|k: int| 0 <= k < y.len() && y[k] == v;
                assert(b[k] == v && b.contains(v));
                assert(a.contains(v));
                let m = choose|m: int| 0 <= m < a.len() && a[m] == v;
                assert(x[m] == v);
            }
        }
        lemma_sorted_unique(x, y);
        assert(a =~= x.push(a.last()));
        assert(b =~= y.push(b.last()));
    }
}

/// Different numbers below `n` are no more than `n`.
pub proof fn lemma_distinct_bounded(s: Seq<u32>, n: nat)
    requires
        s.no_duplicates(),
        forall|i: int| 0 <= i < s.len() ==> (#[trigger] s[i]) < n,
    ensures
        s.len() <= n,
    decreases n,
{
    if n == 0 {
        if s.len() > 0 {
            assert(s[0] < n);
        }
    } else {
        let top = (n - 1) as u32;
        if s.contains(top) && s.len() > 0 {
            let k = choose|k: int| 0 <= k < s.len() && s[k] == top;
            let t = s.remove(k);
            assert forall|i: int| 0 <= i < t.len() implies (#[trigger] t[i]) < n - 1 by {
                let o = if i < k { i } else { i + 1 };
                assert(t[i] == s[o]);
                assert(s[o] < n);
            }
            assert forall|i: int, j: int| 0 <= i < t.len() && 0 <= j < t.len() && i != j implies t[i] != t[j] by {
                let oi = if i < k { i } else { i + 1 };
                let oj = if j < k { j } else { j + 1 };
                assert(t[i] == s[oi] && t[j] == s[oj]);
            }
            lemma_distinct_bounded(t, (n - 1) as nat);
        } else {
            assert forall|i: int| 0 <= i < s.len() implies (#[trigger] s[i]) < n - 1 by {
                assert(s[i] < n);
                assert(s.contains(s[i]));
            }
            lemma_distinct_bounded(s, (n - 1) as nat);
        }
    }
}

/// Whether a number is in a list.
pub fn list_contains(list: &Vec<u32>, x: u32) -> (r: bool)
    ensures
        r == list@.contains(x),
{
    let mut i: usize = 0;
    while i < list.len()
        invariant
            i <= list.len(),
            forall|k: int| 0 <= k < i ==> list@[k] != x,
        decreases list.len() - i,
    {
        if list[i] == x {
            assert(list@[i as int] == x);
            return true;
        }
        i = i + 1;
    }
    false
}

/// Adds a number to a set of numbers.
pub fn insert_sorted(list: &mut Vec<u32>, x: u32)
    requires
        strictly_sorted(old(list)@),
    ensures
        strictly_sorted(final(list)@),
        forall|y: u32| #[trigger] final(list)@.contains(y) <==> old(list)@.contains(y) || y == x,
{
    let mut i: usize = 0;
    while i < list.len() && list[i] < x
        invariant
            i <= list.len(),
            list@ == old(list)@,
            forall|k: int| 0 <= k < i ==> list@[k] < x,
        decreases list.len() - i,
    {
        i = i + 1;
    }
    let ghost before = list@;
    if i < list.len() && list[i] == x {
        assert(before[i as int] == x);
        return;
    }
    list.insert(i, x);
    proof {
        let after = list@;
        assert(after == before.insert(i as int, x));
        assert forall|y: u32| #[trigger] after.contains(y) <==> before.contains(y) || y == x by {
            if after.contains(y) && y != x {
                let k = choose|k: int| 0 <= k < after.len() && after[k] == y;
                let o = if k < i { k } else { k - 1 };
                assert(before[o] == y);
            }
            if before.contains(y) {
                let k = choose|k: int| 0 <= k < before.len() && before[k] == y;
                let o = if k < i { k } else { k + 1 };
                assert(after[o] == y);
            }
            assert(after[i as int] == x);
        }
    }
}

/// Whether two lists have the same elements in the same order.
pub fn same_list(a: &Vec<u32>, b: &Vec<u32>) -> (r: bool)
    ensures
        r == (a@ == b@),
{
    if a.len() != b.len() {
        return false;
    }
    let mut i: usize = 0;
    while i < a.len()
        invariant
            i <= a.len(),
            a.len() == b.len(),
            forall|k: int| 0 <= k < i ==> a@[k] == b@[k],
        decreases a.len() - i,
    {
        if a[i] != b[i] {
            return false;
        }
        i = i + 1;
    }
    assert(a@ =~= b@);
    true
}

} // verus!
