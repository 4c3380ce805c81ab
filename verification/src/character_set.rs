//! Sets of characters, kept as sorted ranges of code points.

use vstd::prelude::*;

verus! {

/// One past the largest code point.
pub const END: u32 = 0x110000;

/// The code points from `start` up to, but not including, `end`.
#[derive(Clone, Copy, Debug, PartialEq, Eq, Structural)]
pub struct CharRange {
    pub start: u32,
    pub end: u32,
}

/// A set of characters.
///
/// The view of a set is its sequence of ranges. It is canonical: two sets hold the
/// same characters exactly when their views are equal.
#[derive(Debug)]
pub struct CharacterSet {
    ranges: Vec<CharRange>,
}

impl View for CharacterSet {
    type V = Seq<CharRange>;

    closed spec fn view(&self) -> Seq<CharRange> {
        self.ranges@
    }
}

/// The ranges are not empty, are in ascending order, and leave a gap between any two.
pub open spec fn ranges_wf(s: Seq<CharRange>) -> bool {
    &&& forall|i: int| 0 <= i < s.len() ==> (#[trigger] s[i]).start < s[i].end <= END
    &&& forall|i: int, j: int| 0 <= i < j < s.len() ==> (#[trigger] s[i]).end < (#[trigger] s[j]).start
}

/// One of the ranges covers code point `c`.
pub open spec fn holds(s: Seq<CharRange>, c: int) -> bool {
    exists|i: int| 0 <= i < s.len() && (#[trigger] s[i]).start <= c < s[i].end
}

/// The code points that the ranges cover.
pub open spec fn code_points(s: Seq<CharRange>) -> Set<int> {
    Set::new(|c: int| holds(s, c))
}

/// `c` is a Unicode scalar value: a code point that is no surrogate.
pub open spec fn is_scalar(c: int) -> bool {
    0 <= c < 0xD800 || 0xE000 <= c < END
}

/// The number of code points in the ranges.
pub open spec fn size(s: Seq<CharRange>) -> int
    decreases s.len(),
{
    if s.len() == 0 {
        0
    } else {
        size(s.drop_last()) + (s.last().end - s.last().start)
    }
}

/// The key by which character sets are ordered: the number of characters, then the
/// length and the start of each range.
pub open spec fn char_order_key(s: Seq<CharRange>) -> Seq<u32> {
    Seq::new(
        1 + 2 * s.len(),
        |k: int|
            if k == 0 {
                size(s) as u32
            } else if k % 2 == 1 {
                (s[(k - 1) / 2].end - s[(k - 1) / 2].start) as u32
            } else {
                s[(k - 2) / 2].start
            },
    )
}

/// Sets with the same characters have the same ranges.
pub proof fn lemma_canonical(a: Seq<CharRange>, b: Seq<CharRange>)
    requires
        ranges_wf(a),
        ranges_wf(b),
        forall|c: int| #[trigger] holds(a, c) == holds(b, c),
    ensures
        a == b,
    decreases a.len(),
{
    if a.len() == 0 {
        if b.len() > 0 {
            assert(holds(b, b[0].start as int));
            assert(holds(a, b[0].start as int));
        }
        assert(a =~= b);
    } else {
        assert(holds(a, a[0].start as int));
        assert(holds(b, a[0].start as int));
        assert(b.len() > 0);
        assert(holds(b, b[0].start as int));
        assert(holds(a, b[0].start as int));
        lemma_first_bounds(a, b);
        lemma_first_bounds(b, a);
        let ta = a.drop_first();
        let tb = b.drop_first();
        assert(forall|i: int| 0 <= i < ta.len() ==> ta[i] == a[i + 1]);
        assert(forall|i: int| 0 <= i < tb.len() ==> tb[i] == b[i + 1]);
        assert forall|c: int| #[trigger] holds(ta, c) == holds(tb, c) by {
            lemma_tail_holds(a, c);
            lemma_tail_holds(b, c);
            assert(holds(a, c) == holds(b, c));
        }
        lemma_canonical(ta, tb);
        assert(a =~= seq![a[0]] + ta);
        assert(b =~= seq![b[0]] + tb);
    }
}

/// The first range of `a` starts no earlier and ends no earlier than that of `b`.
proof fn lemma_first_bounds(a: Seq<CharRange>, b: Seq<CharRange>)
    requires
        ranges_wf(a),
        ranges_wf(b),
        a.len() > 0,
        b.len() > 0,
        forall|c: int| #[trigger] holds(a, c) == holds(b, c),
    ensures
        a[0].start >= b[0].start,
        a[0].end >= b[0].end,
{
    assert(holds(a, a[0].start as int));
    let i = choose|i: int| 0 <= i < b.len() && (#[trigger] b[i]).start <= a[0].start < b[i].end;
    assert(b[0].start <= b[i].start);
    assert(holds(b, b[0].start as int));
    assert(holds(a, b[0].start as int));
    let j = choose|j: int| 0 <= j < a.len() && (#[trigger] a[j]).start <= b[0].start < a[j].end;
    assert(a[0].start <= a[j].start);
    if a[0].end < b[0].end {
        let c = a[0].end as int;
        assert(b[0].start <= c < b[0].end);
        assert(holds(b, c));
        assert(holds(a, c));
        let k = choose|k: int| 0 <= k < a.len() && (#[trigger] a[k]).start <= c < a[k].end;
        if k > 0 {
            assert(a[0].end < a[k].start);
        }
    }
}

proof fn lemma_tail_holds(a: Seq<CharRange>, c: int)
    requires
        ranges_wf(a),
        a.len() > 0,
    ensures
        holds(a.drop_first(), c) == (holds(a, c) && c >= a[0].end),
{
    let t = a.drop_first();
    if holds(t, c) {
        let i = choose|i: int| 0 <= i < t.len() && (#[trigger] t[i]).start <= c < t[i].end;
        assert(t[i] == a[i + 1]);
        assert(a[0].end < a[i + 1].start);
    }
    if holds(a, c) && c >= a[0].end {
        let i = choose|i: int| 0 <= i < a.len() && (#[trigger] a[i]).start <= c < a[i].end;
        assert(i > 0);
        assert(t[i - 1] == a[i]);
    }
}

/// The characters are counted without overflow.
pub proof fn lemma_size_bound(s: Seq<CharRange>)
    requires
        ranges_wf(s),
    ensures
        0 <= size(s) <= END,
        s.len() > 0 ==> size(s) <= s.last().end,
    decreases s.len(),
{
    if s.len() > 0 {
        let t = s.drop_last();
        assert(forall|i: int| 0 <= i < t.len() ==> t[i] == s[i]);
        lemma_size_bound(t);
        if t.len() > 0 {
            assert(s[t.len() - 1].end < s[s.len() - 1].start);
        }
    }
}

/// Different sets have different order keys.
pub proof fn lemma_order_key_injective(a: Seq<CharRange>, b: Seq<CharRange>)
    requires
        ranges_wf(a),
        ranges_wf(b),
        char_order_key(a) == char_order_key(b),
    ensures
        a == b,
{
    let ka = char_order_key(a);
    let kb = char_order_key(b);
    assert(ka.len() == kb.len());
    assert forall|i: int| 0 <= i < a.len() implies a[i] == b[i] by {
        let k = 1 + 2 * i;
        assert(k % 2 == 1 && (k - 1) / 2 == i);
        assert((k + 1) % 2 == 0 && (k + 1 - 2) / 2 == i);
        assert(ka[k] == kb[k]);
        assert(ka[k + 1] == kb[k + 1]);
    }
    assert(a =~= b);
}

impl Clone for CharacterSet {
    fn clone(&self) -> (r: Self)
        ensures
            r@ == self@,
    {
        let mut ranges: Vec<CharRange> = Vec::new();
        let mut i: usize = 0;
        while i < self.ranges.len()
            invariant
                i <= self.ranges.len(),
                ranges@ =~= self.ranges@.take(i as int),
            decreases self.ranges.len() - i,
        {
            ranges.push(self.ranges[i]);
            i = i + 1;
        }
        assert(ranges@ =~= self.ranges@);
        CharacterSet { ranges }
    }
}

impl CharacterSet {
    /// The set is canonical; every set that this module makes is.
    pub open spec fn wf(&self) -> bool {
        ranges_wf(self@)
    }

    /// The set without characters.
    pub fn empty() -> (r: Self)
        ensures
            r.wf(),
            r@.len() == 0,
            forall|c: int| !holds(r@, c),
    {
        CharacterSet { ranges: Vec::new() }
    }

    /// The set with one character.
    pub fn from_char(c: char) -> (r: Self)
        ensures
            r.wf(),
            r@ == seq![CharRange { start: c as u32, end: (c as u32 + 1) as u32 }],
            forall|d: int| holds(r@, d) <==> d == c as int,
    {
        let code = c as u32;
        let mut ranges: Vec<CharRange> = Vec::new();
        ranges.push(CharRange { start: code, end: code + 1 });
        let r = CharacterSet { ranges };
        assert(r@[0] == CharRange { start: code, end: (code + 1) as u32 });
        r
    }

    /// The set of the characters from one to another, both included, whichever of the
    /// two is the smaller.
    pub fn from_range(first: char, last: char) -> (r: Self)
        ensures
            r.wf(),
            forall|d: int|
                holds(r@, d) <==> (first as int <= d <= last as int || last as int <= d <= first as int),
    {
        let a = first as u32;
        let b = last as u32;
        let mut ranges: Vec<CharRange> = Vec::new();
        if a <= b {
            ranges.push(CharRange { start: a, end: b + 1 });
        } else {
            ranges.push(CharRange { start: b, end: a + 1 });
        }
        let r = CharacterSet { ranges };
        let ghost e = r@[0];
        r
    }

    /// The ranges, as pairs of numbers.
    pub fn range_pairs(&self) -> (r: Vec<(u32, u32)>)
        ensures
            r@ == Seq::new(self@.len(), |i: int| (self@[i].start, self@[i].end)),
    {
        let mut r: Vec<(u32, u32)> = Vec::new();
        let mut i: usize = 0;
        while i < self.ranges.len()
            invariant
                i <= self.ranges@.len(),
                r@.len() == i,
                forall|k: int| 0 <= k < i ==> #[trigger] r@[k] == (self@[k].start, self@[k].end),
            decreases self.ranges.len() - i,
        {
            r.push((self.ranges[i].start, self.ranges[i].end));
            i = i + 1;
        }
        assert(r@ =~= Seq::new(self@.len(), |i: int| (self@[i].start, self@[i].end)));
        r
    }

    /// The number of ranges.
    pub fn range_count(&self) -> (n: usize)
        ensures
            n == self@.len(),
    {
        self.ranges.len()
    }

    /// Whether the set has no characters.
    pub fn is_empty(&self) -> (r: bool)
        requires
            self.wf(),
        ensures
            r == (self@.len() == 0),
            r == (forall|c: int| !holds(self@, c)),
    {
        if self.ranges.len() > 0 {
            assert(holds(self@, self@[0].start as int));
            false
        } else {
            true
        }
    }

    /// Whether the set holds a character.
    pub fn contains(&self, c: char) -> (r: bool)
        ensures
            r == holds(self@, c as int),
    {
        let code = c as u32;
        let mut i: usize = 0;
        while i < self.ranges.len()
            invariant
                i <= self.ranges.len(),
                code == c as int,
                forall|k: int|
                    0 <= k < i ==> !((#[trigger] self.ranges@[k]).start <= code < self.ranges@[k].end),
            decreases self.ranges.len() - i,
        {
            if self.ranges[i].start <= code && code < self.ranges[i].end {
                assert(self@[i as int].start <= code < self@[i as int].end);
                return true;
            }
            i = i + 1;
        }
        false
    }

    /// Whether two sets have the same characters.
    pub fn equals(&self, other: &Self) -> (r: bool)
        requires
            self.wf(),
            other.wf(),
        ensures
            r == (self@ == other@),
            r == (forall|c: int| holds(self@, c) == holds(other@, c)),
    {
        proof {
            if forall|c: int| #[trigger] holds(self@, c) == holds(other@, c) {
                lemma_canonical(self@, other@);
            }
        }
        if self.ranges.len() != other.ranges.len() {
            return false;
        }
        let mut i: usize = 0;
        while i < self.ranges.len()
            invariant
                i <= self.ranges.len(),
                self.ranges.len() == other.ranges.len(),
                forall|k: int| 0 <= k < i ==> self.ranges@[k] == other.ranges@[k],
                (forall|c: int| #[trigger] holds(self@, c) == holds(other@, c)) ==> self@ == other@,
            decreases self.ranges.len() - i,
        {
            if self.ranges[i].start != other.ranges[i].start || self.ranges[i].end != other.ranges[i].end {
                assert(self@[i as int] != other@[i as int]);
                return false;
            }
            i = i + 1;
        }
        assert(self@ =~= other@);
        true
    }
}

/// The part of the range list that starts at index `i`, with the first range cut off
/// below `lo`, covers `c`.
spec fn holds_from(s: Seq<CharRange>, i: int, lo: int, c: int) -> bool {
    exists|k: int| i <= k < s.len() && (#[trigger] s[k]).start <= c < s[k].end && (k == i ==> lo <= c)
}

/// The characters of both sets.
fn intersection(a: &CharacterSet, b: &CharacterSet) -> (r: CharacterSet)
    requires
        a.wf(),
        b.wf(),
    ensures
        r.wf(),
        forall|c: int| holds(r@, c) <==> holds(a@, c) && holds(b@, c),
{
    let mut out: Vec<CharRange> = Vec::new();
    let mut i: usize = 0;
    let mut j: usize = 0;
    while i < a.ranges.len() && j < b.ranges.len()
        invariant
            i <= a@.len(),
            j <= b@.len(),
            a.wf(),
            b.wf(),
            ranges_wf(out@),
            out@.len() > 0 && i < a@.len() && j < b@.len() ==> (out@.last().end < a@[i as int].start
                || out@.last().end < b@[j as int].start),
            forall|c: int| #[trigger] holds(out@, c) ==> holds(a@, c) && holds(b@, c),
            forall|p: int, q: int, c: int|
                #![trigger a@[p], b@[q], holds(out@, c)]
                0 <= p < a@.len() && 0 <= q < b@.len() && (p < i || q < j) && a@[p].start <= c < a@[p].end
                    && b@[q].start <= c < b@[q].end ==> holds(out@, c),
        decreases a.ranges.len() - i + b.ranges.len() - j,
    {
        let x = a.ranges[i];
        let y = b.ranges[j];
        assert(x == a@[i as int] && y == b@[j as int]);
        let start = if x.start < y.start { y.start } else { x.start };
        let end = if x.end < y.end { x.end } else { y.end };
        let ghost before = out@;
        if start < end {
            let piece = CharRange { start, end };
            out.push(piece);
            proof {
                lemma_push_holds(before, piece);
                assert forall|c: int| #[trigger] holds(out@, c) implies holds(a@, c) && holds(b@, c) by {
                    if !holds(before, c) {
                        assert(start <= c < end);
                        assert(a@[i as int].start <= c < a@[i as int].end);
                        assert(b@[j as int].start <= c < b@[j as int].end);
                    }
                }
            }
        }
        assert(forall|c: int| #[trigger] holds(out@, c) <==> holds(before, c) || (start < end && start <= c < end));
        proof {
            let ni = if x.end <= y.end { i + 1 } else { i as int };
            let nj = if x.end <= y.end { j as int } else { j + 1 };
            assert forall|p: int, q: int, c: int|
                #![trigger a@[p], b@[q], holds(out@, c)]
                0 <= p < a@.len() && 0 <= q < b@.len() && (p < ni || q < nj) && a@[p].start <= c < a@[p].end
                    && b@[q].start <= c < b@[q].end implies holds(out@, c) by {
                if p < i || q < j {
                    assert(holds(before, c));
                } else if p == i && q == j {
                } else if p == i && q > j && x.end <= y.end {
                    assert(b@[j as int].end < b@[q].start);
                } else if q == j && p > i && x.end > y.end {
                    assert(a@[i as int].end < a@[p].start);
                }
            }
            if i + 1 < a@.len() {
                assert(a@[i as int].end < a@[i + 1].start);
            }
            if j + 1 < b@.len() {
                assert(b@[j as int].end < b@[j + 1].start);
            }
        }
        if x.end <= y.end {
            i = i + 1;
        } else {
            j = j + 1;
        }
    }
    let r = CharacterSet { ranges: out };
    assert forall|c: int| holds(a@, c) && holds(b@, c) implies holds(r@, c) by {
        let p = choose|p: int| 0 <= p < a@.len() && (#[trigger] a@[p]).start <= c < a@[p].end;
        let q = choose|q: int| 0 <= q < b@.len() && (#[trigger] b@[q]).start <= c < b@[q].end;
        assert(holds(out@, c));
    }
    r
}

proof fn lemma_push_holds(s: Seq<CharRange>, x: CharRange)
    ensures
        forall|c: int| #[trigger] holds(s.push(x), c) <==> holds(s, c) || x.start <= c < x.end,
{
    let t = s.push(x);
    assert forall|c: int| #[trigger] holds(t, c) <==> holds(s, c) || x.start <= c < x.end by {
        if holds(t, c) {
            let i = choose|i: int| 0 <= i < t.len() && (#[trigger] t[i]).start <= c < t[i].end;
            if i < s.len() {
                assert(s[i] == t[i]);
            }
        }
        if holds(s, c) {
            let i = choose|i: int| 0 <= i < s.len() && (#[trigger] s[i]).start <= c < s[i].end;
            assert(s[i] == t[i]);
        }
        if x.start <= c < x.end {
            assert(t[s.len() as int] == x);
        }
    }
}

/// The characters of `a` that are not in `b`.
fn difference(a: &CharacterSet, b: &CharacterSet) -> (r: CharacterSet)
    requires
        a.wf(),
        b.wf(),
    ensures
        r.wf(),
        forall|c: int| holds(r@, c) <==> holds(a@, c) && !holds(b@, c),
{
    let mut out: Vec<CharRange> = Vec::new();
    let mut i: usize = 0;
    let mut j: usize = 0;
    let mut lo: u32 = if a.ranges.len() > 0 { a.ranges[0].start } else { 0 };
    assert forall|c: int| holds(a@, c) implies holds_from(a@, 0, lo as int, c) by {
        let k = choose|k: int| 0 <= k < a@.len() && (#[trigger] a@[k]).start <= c < a@[k].end;
        assert(a@[k].start <= c);
    }
    while i < a.ranges.len()
        invariant
            i <= a@.len(),
            j <= b@.len(),
            a.wf(),
            b.wf(),
            ranges_wf(out@),
            i < a@.len() ==> a@[i as int].start <= lo < a@[i as int].end,
            out@.len() > 0 && i < a@.len() ==> out@.last().end < lo,
            i < a@.len() ==> forall|k: int| 0 <= k < j ==> (#[trigger] b@[k]).end <= lo,
            forall|c: int| #[trigger] holds(out@, c) ==> holds(a@, c) && !holds(b@, c),
            forall|c: int|
                #![trigger holds(out@, c)]
                holds(a@, c) && !holds(b@, c) ==> holds(out@, c) || holds_from(a@, i as int, lo as int, c),
        decreases a.ranges.len() - i, b.ranges.len() - j, if i < a.ranges.len() { a.ranges@[i as int].end - lo } else { 0 },
    {
        let x = a.ranges[i];
        assert(x == a@[i as int]);
        let ghost before = out@;
        if j < b.ranges.len() && b.ranges[j].end <= lo {
            assert(b@[j as int].end <= lo);
            j = j + 1;
        } else if j < b.ranges.len() && b.ranges[j].start < x.end {
            let y = b.ranges[j];
            assert(y == b@[j as int]);
            if y.start > lo {
                let piece = CharRange { start: lo, end: y.start };
                out.push(piece);
                proof {
                    lemma_push_holds(before, piece);
                    assert forall|c: int| lo <= c < y.start implies !holds(b@, c) by {
                        lemma_gap(b@, j as int, lo as int, c);
                    }
                    assert forall|c: int| lo <= c < y.start implies holds(a@, c) by {
                        assert(a@[i as int].start <= c < a@[i as int].end);
                    }
                }
            }
            assert forall|c: int| y.start <= c < y.end implies holds(b@, c) by {
                assert(b@[j as int].start <= c < b@[j as int].end);
            }
            let ghost old_lo = lo as int;
            let ghost old_i = i as int;
            if y.end < x.end {
                lo = y.end;
                j = j + 1;
                proof {
                    assert forall|k: int| 0 <= k < j implies (#[trigger] b@[k]).end <= lo by {}
                    lemma_advance_same(a@, b@, old_i, old_lo, lo as int, out@);
                }
            } else {
                i = i + 1;
                proof {
                    lemma_advance_next(a@, b@, old_i, old_lo, if i < a@.len() { a@[i as int].start as int } else { 0 }, out@);
                    if i < a@.len() {
                        assert(a@[i - 1].end < a@[i as int].start);
                    }
                }
                if i < a.ranges.len() {
                    lo = a.ranges[i].start;
                }
            }
        } else {
            let piece = CharRange { start: lo, end: x.end };
            out.push(piece);
            proof {
                lemma_push_holds(before, piece);
                assert forall|c: int| lo <= c < x.end implies !holds(b@, c) by {
                    lemma_gap(b@, j as int, lo as int, c);
                }
                assert forall|c: int| lo <= c < x.end implies holds(a@, c) by {
                    assert(a@[i as int].start <= c < a@[i as int].end);
                }
            }
            let ghost old_lo = lo as int;
            let ghost old_i = i as int;
            i = i + 1;
            proof {
                lemma_advance_next(a@, b@, old_i, old_lo, if i < a@.len() { a@[i as int].start as int } else { 0 }, out@);
                if i < a@.len() {
                    assert(a@[i - 1].end < a@[i as int].start);
                }
            }
            if i < a.ranges.len() {
                lo = a.ranges[i].start;
            }
        }
    }
    let r = CharacterSet { ranges: out };
    assert forall|c: int| holds(a@, c) && !holds(b@, c) implies holds(r@, c) by {
        assert(holds(out@, c) || holds_from(a@, i as int, lo as int, c));
    }
    r
}

/// Between the ranges below `j` and range `j` itself lies nothing of `b`.
proof fn lemma_gap(b: Seq<CharRange>, j: int, lo: int, c: int)
    requires
        ranges_wf(b),
        0 <= j <= b.len(),
        forall|k: int| 0 <= k < j ==> (#[trigger] b[k]).end <= lo,
        lo <= c,
        j < b.len() ==> c < b[j].start,
    ensures
        !holds(b, c),
{
    if holds(b, c) {
        let k = choose|k: int| 0 <= k < b.len() && (#[trigger] b[k]).start <= c < b[k].end;
        if k > j {
            assert(b[j].end < b[k].start);
        }
    }
}

/// What is left of `a` after its range `i` has been cut at `hi`.
proof fn lemma_advance_same(a: Seq<CharRange>, b: Seq<CharRange>, i: int, lo: int, hi: int, out: Seq<CharRange>)
    requires
        0 <= i < a.len(),
        lo <= hi,
        forall|c: int|
            #![trigger holds(out, c)]
            holds(a, c) && !holds(b, c) ==> holds(out, c) || holds_from(a, i, lo, c),
        forall|c: int| lo <= c < hi ==> #[trigger] holds(b, c) || holds(out, c),
    ensures
        forall|c: int|
            #![trigger holds(out, c)]
            holds(a, c) && !holds(b, c) ==> holds(out, c) || holds_from(a, i, hi, c),
{
    assert forall|c: int| #![trigger holds(out, c)] holds(a, c) && !holds(b, c) implies holds(out, c) || holds_from(a, i, hi, c) by {
        if !holds(out, c) {
            let k = choose|k: int|
                i <= k < a.len() && (#[trigger] a[k]).start <= c < a[k].end && (k == i ==> lo <= c);
            if k == i && c < hi {
                assert(holds(b, c) || holds(out, c));
            }
            assert(a[k].start <= c);
        }
    }
}

/// What is left of `a` after its range `i` has been used up.
proof fn lemma_advance_next(a: Seq<CharRange>, b: Seq<CharRange>, i: int, lo: int, next_lo: int, out: Seq<CharRange>)
    requires
        0 <= i < a.len(),
        i + 1 < a.len() ==> next_lo == a[i + 1].start,
        forall|c: int|
            #![trigger holds(out, c)]
            holds(a, c) && !holds(b, c) ==> holds(out, c) || holds_from(a, i, lo, c),
        forall|c: int| lo <= c < a[i].end ==> #[trigger] holds(b, c) || holds(out, c),
    ensures
        forall|c: int|
            #![trigger holds(out, c)]
            holds(a, c) && !holds(b, c) ==> holds(out, c) || holds_from(a, i + 1, next_lo, c),
{
    assert forall|c: int| #![trigger holds(out, c)] holds(a, c) && !holds(b, c) implies holds(out, c) || holds_from(a, i + 1, next_lo, c) by {
        if !holds(out, c) {
            let k = choose|k: int|
                i <= k < a.len() && (#[trigger] a[k]).start <= c < a[k].end && (k == i ==> lo <= c);
            if k == i {
                assert(holds(b, c) || holds(out, c));
            }
            assert(a[k].start <= c);
        }
    }
}

impl CharacterSet {
    /// The characters of either set.
    pub fn add(self, other: &Self) -> (r: Self)
        requires
            self.wf(),
            other.wf(),
        ensures
            r.wf(),
            forall|c: int| holds(r@, c) <==> holds(self@, c) || holds(other@, c),
    {
        let mut out: Vec<CharRange> = Vec::new();
        let mut i: usize = 0;
        let mut j: usize = 0;
        let a = &self.ranges;
        let b = &other.ranges;
        while i < a.len() || j < b.len()
            invariant
                i <= a@.len(),
                j <= b@.len(),
                ranges_wf(a@),
                ranges_wf(b@),
                ranges_wf(out@),
                out@.len() > 0 ==> forall|k: int| i <= k < a@.len() ==> (#[trigger] a@[k]).start >= out@.last().start,
                out@.len() > 0 ==> forall|k: int| j <= k < b@.len() ==> (#[trigger] b@[k]).start >= out@.last().start,
                forall|c: int|
                    #[trigger] holds(out@, c) <==> holds(a@.take(i as int), c) || holds(b@.take(j as int), c),
            decreases a.len() - i + b.len() - j,
        {
            let from_a = j >= b.len() || (i < a.len() && a[i].start <= b[j].start);
            let next = if from_a { a[i] } else { b[j] };
            let ghost before = out@;
            let ghost taken_a = a@.take(i as int);
            let ghost taken_b = b@.take(j as int);
            if from_a {
                i = i + 1;
                proof {
                    assert(a@.take(i as int) =~= taken_a.push(next));
                    lemma_push_holds(taken_a, next);
                }
            } else {
                j = j + 1;
                proof {
                    assert(b@.take(j as int) =~= taken_b.push(next));
                    lemma_push_holds(taken_b, next);
                }
            }
            if out.len() > 0 && next.start <= out[out.len() - 1].end {
                let last = out[out.len() - 1];
                if next.end > last.end {
                    let merged = CharRange { start: last.start, end: next.end };
                    out.pop();
                    let ghost front = out@;
                    out.push(merged);
                    proof {
                        assert(before =~= front.push(last));
                        lemma_push_holds(front, last);
                        lemma_push_holds(front, merged);
                        assert(forall|k: int| 0 <= k < front.len() ==> front[k] == before[k]);
                        assert(forall|c: int| #[trigger] holds(out@, c) <==> holds(before, c) || next.start <= c < next.end);
                    }
                } else {
                    proof {
                        assert forall|c: int| next.start <= c < next.end implies #[trigger] holds(out@, c) by {
                            assert(out@[out@.len() - 1].start <= c < out@[out@.len() - 1].end);
                        }
                    }
                }
            } else {
                out.push(next);
                proof {
                    lemma_push_holds(before, next);
                }
            }
        }
        proof {
            assert(a@.take(i as int) =~= a@);
            assert(b@.take(j as int) =~= b@);
        }
        CharacterSet { ranges: out }
    }

    /// Takes the characters that the two sets share out of both, and returns them.
    pub fn remove_intersection(&mut self, other: &mut Self) -> (r: Self)
        requires
            old(self).wf(),
            old(other).wf(),
        ensures
            final(self).wf(),
            final(other).wf(),
            r.wf(),
            forall|c: int| holds(r@, c) <==> holds(old(self)@, c) && holds(old(other)@, c),
            forall|c: int| holds(final(self)@, c) <==> holds(old(self)@, c) && !holds(old(other)@, c),
            forall|c: int| holds(final(other)@, c) <==> holds(old(other)@, c) && !holds(old(self)@, c),
    {
        let shared = intersection(self, other);
        let left = difference(self, other);
        let right = difference(other, self);
        *self = left;
        *other = right;
        shared
    }

    /// Whether some Unicode scalar value is in both sets.
    pub fn shares_char(&self, other: &Self) -> (r: bool)
        requires
            self.wf(),
            other.wf(),
        ensures
            r == (exists|c: int| is_scalar(c) && holds(self@, c) && holds(other@, c)),
    {
        let both = intersection(self, other);
        let mut i: usize = 0;
        while i < both.ranges.len()
            invariant
                i <= both@.len(),
                both.wf(),
                forall|c: int| holds(both@, c) <==> holds(self@, c) && holds(other@, c),
                forall|k: int| 0 <= k < i ==> (#[trigger] both@[k]).start >= 0xD800 && both@[k].end <= 0xE000,
            decreases both.ranges.len() - i,
        {
            let x = both.ranges[i];
            assert(x == both@[i as int]);
            if x.start < 0xD800 {
                assert(holds(both@, x.start as int));
                assert(is_scalar(x.start as int));
                return true;
            }
            if x.end > 0xE000 {
                assert(holds(both@, x.end - 1));
                assert(is_scalar(x.end - 1));
                return true;
            }
            i = i + 1;
        }
        proof {
            if exists|c: int| is_scalar(c) && holds(self@, c) && holds(other@, c) {
                let c = choose|c: int| is_scalar(c) && holds(self@, c) && holds(other@, c);
                assert(holds(both@, c));
                let k = choose|k: int| 0 <= k < both@.len() && (#[trigger] both@[k]).start <= c < both@[k].end;
                assert(both@[k].start >= 0xD800);
            }
        }
        false
    }

    /// The key by which character sets are ordered.
    pub fn order_key(&self) -> (key: Vec<u32>)
        requires
            self.wf(),
        ensures
            key@ == char_order_key(self@),
    {
        let mut total: u32 = 0;
        let mut rest: Vec<u32> = Vec::new();
        let mut i: usize = 0;
        while i < self.ranges.len()
            invariant
                i <= self@.len(),
                self.wf(),
                total == size(self@.take(i as int)),
                rest@.len() == 2 * i,
                forall|m: int| #![trigger self@[m]] 0 <= m < i ==> rest@[2 * m] == self@[m].end - self@[m].start && rest@[2 * m + 1] == self@[m].start,
            decreases self.ranges.len() - i,
        {
            let x = self.ranges[i];
            let ghost done = self@.take(i + 1);
            proof {
                assert(x == self@[i as int]);
                assert(done.drop_last() =~= self@.take(i as int));
                assert(done.last() == x);
                assert(forall|k: int| 0 <= k < done.len() ==> done[k] == self@[k]);
                lemma_size_bound(done);
            }
            total = total + (x.end - x.start);
            let ghost earlier = rest@;
            rest.push(x.end - x.start);
            rest.push(x.start);
            i = i + 1;
        }
        assert(self@.take(i as int) =~= self@);
        let mut key: Vec<u32> = Vec::new();
        key.push(total);
        key.append(&mut rest);
        proof {
            let ghost spec_key = char_order_key(self@);
            assert forall|k: int| 0 <= k < key@.len() implies key@[k] == spec_key[k] by {
                if k > 0 {
                    let m = (k - 1) / 2;
                    assert(0 <= m < self@.len());
                    let ghost e = self@[m];
                    if k % 2 == 1 {
                        assert(k == 1 + 2 * m);
                    } else {
                        assert(k == 2 + 2 * m);
                        assert((k - 2) / 2 == m);
                    }
                }
            }
            assert(key@ =~= spec_key);
        }
        key
    }
}

} // verus!
