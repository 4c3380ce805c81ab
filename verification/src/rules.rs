//! Grammar symbols, and sets of the symbols that can come next in the input.

use vstd::prelude::*;

use crate::bits::{lemma_single_bit, lemma_word_ops, row_bit, word_bit, WORD_BITS};

verus! {

/// What a symbol stands for.
#[derive(Clone, Copy, Debug, PartialEq, Eq, Structural)]
pub enum SymbolType {
    /// A token that an external scanner recognizes.
    External,
    /// The end of the input.
    End,
    /// The end of an extra rule that is not a token.
    EndOfNonTerminalExtra,
    /// A token of the lexical grammar.
    Terminal,
    /// A rule of the syntax grammar.
    NonTerminal,
}

/// A symbol of the grammar.
#[derive(Clone, Copy, Debug, PartialEq, Eq, Structural)]
pub struct Symbol {
    pub kind: SymbolType,
    pub index: u32,
}

/// The rank of a kind of symbol in the order of symbols.
pub open spec fn kind_rank(kind: SymbolType) -> u32 {
    match kind {
        SymbolType::External => 0,
        SymbolType::End => 1,
        SymbolType::EndOfNonTerminalExtra => 2,
        SymbolType::Terminal => 3,
        SymbolType::NonTerminal => 4,
    }
}

/// The terminal symbol for the variable at `index` of the lexical grammar.
pub open spec fn terminal_symbol(index: int) -> Symbol {
    Symbol { kind: SymbolType::Terminal, index: index as u32 }
}

/// The symbol for the end of the input.
pub open spec fn end_symbol() -> Symbol {
    Symbol { kind: SymbolType::End, index: 0 }
}

impl SymbolType {
    /// The rank of a kind of symbol in the order of symbols.
    pub fn rank(self) -> (r: u32)
        ensures
            r == kind_rank(self),
    {
        match self {
            SymbolType::External => 0,
            SymbolType::End => 1,
            SymbolType::EndOfNonTerminalExtra => 2,
            SymbolType::Terminal => 3,
            SymbolType::NonTerminal => 4,
        }
    }
}

impl Symbol {
    /// The terminal symbol for the variable at `index` of the lexical grammar.
    pub fn terminal(index: usize) -> (r: Symbol)
        requires
            index <= u32::MAX,
        ensures
            r == terminal_symbol(index as int),
            r.index == index,
    {
        Symbol { kind: SymbolType::Terminal, index: index as u32 }
    }

    /// The symbol for the external token at `index`.
    pub fn external(index: usize) -> (r: Symbol)
        requires
            index <= u32::MAX,
        ensures
            r.kind == SymbolType::External,
            r.index == index,
    {
        Symbol { kind: SymbolType::External, index: index as u32 }
    }

    /// The symbol for the end of the input.
    pub fn end() -> (r: Symbol)
        ensures
            r == end_symbol(),
    {
        Symbol { kind: SymbolType::End, index: 0 }
    }

    /// Whether the symbol is a token of the lexical grammar.
    pub fn is_terminal(&self) -> (r: bool)
        ensures
            r == (self.kind == SymbolType::Terminal),
    {
        self.kind == SymbolType::Terminal
    }

    /// Whether the symbol is the end of the input.
    pub fn is_eof(&self) -> (r: bool)
        ensures
            r == (self.kind == SymbolType::End),
    {
        self.kind == SymbolType::End
    }
}

/// Whether a symbol is in a list.
pub fn symbols_contain(symbols: &Vec<Symbol>, symbol: Symbol) -> (r: bool)
    ensures
        r == symbols@.contains(symbol),
{
    let mut i: usize = 0;
    while i < symbols.len()
        invariant
            i <= symbols.len(),
            forall|k: int| 0 <= k < i ==> symbols@[k] != symbol,
        decreases symbols.len() - i,
    {
        if symbols[i] == symbol {
            assert(symbols@[i as int] == symbol);
            return true;
        }
        i = i + 1;
    }
    false
}

/// The members of a `TokenSet`, by kind.
#[verifier::ext_equal]
pub struct Tokens {
    pub terminals: Set<int>,
    pub externals: Set<int>,
    pub eof: bool,
    pub end_of_nonterminal_extra: bool,
}

impl Tokens {
    /// No tokens.
    pub open spec fn none() -> Tokens {
        Tokens {
            terminals: Set::empty(),
            externals: Set::empty(),
            eof: false,
            end_of_nonterminal_extra: false,
        }
    }

    /// The symbol is one of the tokens.
    pub open spec fn has(self, symbol: Symbol) -> bool {
        match symbol.kind {
            SymbolType::Terminal => self.terminals.contains(symbol.index as int),
            SymbolType::External => self.externals.contains(symbol.index as int),
            SymbolType::End => self.eof,
            SymbolType::EndOfNonTerminalExtra => self.end_of_nonterminal_extra,
            SymbolType::NonTerminal => false,
        }
    }

    /// The tokens with one more.
    pub open spec fn with(self, symbol: Symbol) -> Tokens {
        match symbol.kind {
            SymbolType::Terminal => Tokens { terminals: self.terminals.insert(symbol.index as int), ..self },
            SymbolType::External => Tokens { externals: self.externals.insert(symbol.index as int), ..self },
            SymbolType::End => Tokens { eof: true, ..self },
            SymbolType::EndOfNonTerminalExtra => Tokens { end_of_nonterminal_extra: true, ..self },
            SymbolType::NonTerminal => self,
        }
    }

    /// The tokens of both sets.
    pub open spec fn union(self, other: Tokens) -> Tokens {
        Tokens {
            terminals: self.terminals.union(other.terminals),
            externals: self.externals.union(other.externals),
            eof: self.eof || other.eof,
            end_of_nonterminal_extra: self.end_of_nonterminal_extra || other.end_of_nonterminal_extra,
        }
    }

    /// The symbols of the set that have no number: the end of the input, and the end of
    /// a non-terminal extra.
    pub open spec fn marks(self) -> Seq<Symbol> {
        let end = if self.eof {
            seq![end_symbol()]
        } else {
            Seq::empty()
        };
        if self.end_of_nonterminal_extra {
            end.push(Symbol { kind: SymbolType::EndOfNonTerminalExtra, index: 0 })
        } else {
            end
        }
    }

    /// Some token is not a terminal.
    pub open spec fn has_non_terminal_token(self) -> bool {
        self.eof || self.end_of_nonterminal_extra || exists|i: int| self.externals.contains(i)
    }
}

/// The numbers of the bits that are set in a row.
pub open spec fn row_members(words: Seq<u64>) -> Set<int> {
    Set::new(|i: int| 0 <= i <= u32::MAX && row_bit(words, i))
}

/// A set of tokens.
#[derive(Debug)]
pub struct TokenSet {
    terminal_bits: Vec<u64>,
    external_bits: Vec<u64>,
    eof: bool,
    end_of_nonterminal_extra: bool,
}

impl View for TokenSet {
    type V = Tokens;

    closed spec fn view(&self) -> Tokens {
        Tokens {
            terminals: row_members(self.terminal_bits@),
            externals: row_members(self.external_bits@),
            eof: self.eof,
            end_of_nonterminal_extra: self.end_of_nonterminal_extra,
        }
    }
}

/// Whether a bit of a row is set.
fn get_bit(words: &Vec<u64>, index: usize) -> (r: bool)
    ensures
        r == row_bit(words@, index as int),
{
    let w = index / WORD_BITS;
    if w < words.len() {
        let b = (index % WORD_BITS) as u64;
        (words[w] >> b) & 1 == 1
    } else {
        false
    }
}

/// Sets a bit of a row, which grows as needed.
fn set_bit(words: &mut Vec<u64>, index: u32)
    ensures
        row_members(final(words)@) == row_members(old(words)@).insert(index as int),
{
    let w = index as usize / WORD_BITS;
    let b = (index as usize % WORD_BITS) as u64;
    let ghost before = words@;
    while words.len() <= w
        invariant
            before.len() <= words@.len(),
            forall|k: int| 0 <= k < before.len() ==> words@[k] == before[k],
            forall|k: int| before.len() <= k < words@.len() ==> words@[k] == 0,
        decreases w + 1 - words.len(),
    {
        words.push(0);
    }
    let ghost grown = words@;
    let word = words[w] | (1u64 << b);
    words.set(w, word);
    proof {
        assert forall|i: int| 0 <= i <= u32::MAX implies row_bit(words@, i) == (row_bit(before, i) || i == index) by {
            let m = i / 64;
            let c = i % 64;
            assert(0 <= c < 64);
            lemma_word_ops(grown[w as int], 1u64 << b, c);
            lemma_single_bit(b, c);
            lemma_word_ops(0, 0, c);
            if m < grown.len() {
                assert(grown[m] == if m < before.len() { before[m] } else { 0 });
                assert(row_bit(before, i) == word_bit(grown[m], c));
                if m == w {
                    assert(i == index <==> c == b);
                    assert(words@[m] == grown[m] | (1u64 << b));
                } else {
                    assert(words@[m] == grown[m]);
                }
            }
        }
        assert forall|i: int| row_members(words@).contains(i) == row_members(before).insert(index as int).contains(i) by {
            assert(0 <= i <= u32::MAX ==> row_bit(words@, i) == (row_bit(before, i) || i == index));
        }
        assert(row_members(words@) =~= row_members(before).insert(index as int));
    }
}

/// Sets the bits of one row that are set in another.
fn set_all_bits(words: &mut Vec<u64>, other: &Vec<u64>)
    ensures
        row_members(final(words)@) == row_members(old(words)@).union(row_members(other@)),
{
    let ghost before = words@;
    while words.len() < other.len()
        invariant
            before.len() <= words@.len(),
            forall|k: int| 0 <= k < before.len() ==> words@[k] == before[k],
            forall|k: int| before.len() <= k < words@.len() ==> words@[k] == 0,
        decreases other.len() - words.len(),
    {
        words.push(0);
    }
    let ghost grown = words@;
    let mut w: usize = 0;
    while w < other.len()
        invariant
            w <= other.len() <= words.len(),
            words@.len() == grown.len(),
            forall|k: int| 0 <= k < w ==> words@[k] == grown[k] | other@[k],
            forall|k: int| w <= k < words@.len() ==> words@[k] == grown[k],
        decreases other.len() - w,
    {
        let word = words[w] | other[w];
        words.set(w, word);
        w = w + 1;
    }
    proof {
        assert forall|i: int| 0 <= i <= u32::MAX implies row_bit(words@, i) == (row_bit(before, i) || row_bit(
            other@,
            i,
        )) by {
            let m = i / 64;
            let c = i % 64;
            assert(0 <= c < 64);
            lemma_word_ops(0, 0, c);
            if m < grown.len() {
                assert(grown[m] == if m < before.len() { before[m] } else { 0 });
                assert(row_bit(before, i) == word_bit(grown[m], c));
                if m < other@.len() {
                    assert(words@[m] == grown[m] | other@[m]);
                    lemma_word_ops(grown[m], other@[m], c);
                } else {
                    assert(words@[m] == grown[m]);
                }
            }
        }
        assert(row_members(words@) =~= row_members(before).union(row_members(other@)));
    }
}

/// The list has the symbols of one kind whose numbers are in the set, each once, in
/// ascending order.
pub open spec fn is_listing(kind: SymbolType, numbers: Set<int>, list: Seq<Symbol>) -> bool {
    &&& forall|k: int| 0 <= k < list.len() ==> (#[trigger] list[k]).kind == kind && numbers.contains(list[k].index as int)
    &&& forall|i: u32| #[trigger] numbers.contains(i as int) ==> list.contains(Symbol { kind, index: i })
    &&& forall|j: int, k: int| 0 <= j < k < list.len() ==> (#[trigger] list[j]).index < (#[trigger] list[k]).index
}

/// The symbols of one kind for the bits that are set in a row, in ascending order.
fn row_symbols(words: &Vec<u64>, kind: SymbolType) -> (r: Vec<Symbol>)
    ensures
        is_listing(kind, row_members(words@), r@),
{
    let mut r: Vec<Symbol> = Vec::new();
    let mut w: usize = 0;
    while w < words.len() && w < 0x400_0000
        invariant
            w <= words.len(),
            w <= 0x400_0000,
            forall|k: int| 0 <= k < r@.len() ==> (#[trigger] r@[k]).kind == kind && row_members(words@).contains(r@[k].index as int),
            forall|j: int, k: int| 0 <= j < k < r@.len() ==> (#[trigger] r@[j]).index < (#[trigger] r@[k]).index,
            forall|k: int| 0 <= k < r@.len() ==> (#[trigger] r@[k]).index < w * 64,
            forall|i: u32| i < w * 64 && #[trigger] row_members(words@).contains(i as int) ==> r@.contains(Symbol { kind, index: i }),
        decreases words.len() - w,
    {
        let mut b: usize = 0;
        while b < WORD_BITS
            invariant
                w < words.len(),
                w < 0x400_0000,
                b <= 64,
                forall|k: int| 0 <= k < r@.len() ==> (#[trigger] r@[k]).kind == kind && row_members(words@).contains(r@[k].index as int),
                forall|j: int, k: int| 0 <= j < k < r@.len() ==> (#[trigger] r@[j]).index < (#[trigger] r@[k]).index,
                forall|k: int| 0 <= k < r@.len() ==> (#[trigger] r@[k]).index < w * 64 + b,
                forall|i: u32| i < w * 64 + b && #[trigger] row_members(words@).contains(i as int) ==> r@.contains(Symbol { kind, index: i }),
            decreases 64 - b,
        {
            let index = w * WORD_BITS + b;
            let ghost before = r@;
            assert(index / 64 == w && index % 64 == b);
            if (words[w] >> (b as u64)) & 1 == 1 {
                r.push(Symbol { kind, index: index as u32 });
                proof {
                    assert(r@[before.len() as int] == Symbol { kind, index: index as u32 });
                    assert(row_members(words@).contains(index as int));
                    assert forall|i: u32| i < w * 64 + b + 1 && #[trigger] row_members(words@).contains(i as int) implies r@.contains(Symbol { kind, index: i }) by {
                        if i < w * 64 + b {
                            let k = choose|k: int| 0 <= k < before.len() && before[k] == (Symbol { kind, index: i });
                            assert(r@[k] == before[k]);
                        }
                    }
                }
            }
            b = b + 1;
        }
        w = w + 1;
    }
    r
}

impl Clone for TokenSet {
    fn clone(&self) -> (r: Self)
        ensures
            r@ == self@,
    {
        TokenSet {
            terminal_bits: self.terminal_bits.clone(),
            external_bits: self.external_bits.clone(),
            eof: self.eof,
            end_of_nonterminal_extra: self.end_of_nonterminal_extra,
        }
    }
}

impl TokenSet {
    /// The numbers of terminals fit in 32 bits.
    pub proof fn lemma_terminals_fit(&self, t: int)
        requires
            self@.terminals.contains(t),
        ensures
            0 <= t <= u32::MAX,
    {
    }

    /// The numbers of external tokens fit in 32 bits.
    pub proof fn lemma_externals_fit(&self, t: int)
        requires
            self@.externals.contains(t),
        ensures
            0 <= t <= u32::MAX,
    {
    }

    /// The empty set.
    pub fn new() -> (r: Self)
        ensures
            r@ == Tokens::none(),
    {
        let r = TokenSet {
            terminal_bits: Vec::new(),
            external_bits: Vec::new(),
            eof: false,
            end_of_nonterminal_extra: false,
        };
        assert(r@ =~= Tokens::none());
        r
    }

    /// Whether a symbol is in the set.
    pub fn contains(&self, symbol: Symbol) -> (r: bool)
        ensures
            r == self@.has(symbol),
    {
        match symbol.kind {
            SymbolType::Terminal => get_bit(&self.terminal_bits, symbol.index as usize),
            SymbolType::External => get_bit(&self.external_bits, symbol.index as usize),
            SymbolType::End => self.eof,
            SymbolType::EndOfNonTerminalExtra => self.end_of_nonterminal_extra,
            SymbolType::NonTerminal => false,
        }
    }

    /// Whether the terminal at `index` is in the set.
    pub fn contains_terminal(&self, index: usize) -> (r: bool)
        requires
            index <= u32::MAX,
        ensures
            r == self@.terminals.contains(index as int),
    {
        get_bit(&self.terminal_bits, index)
    }

    /// Adds a symbol.
    pub fn insert(&mut self, symbol: Symbol)
        requires
            symbol.kind != SymbolType::NonTerminal,
        ensures
            final(self)@ == old(self)@.with(symbol),
    {
        match symbol.kind {
            SymbolType::Terminal => set_bit(&mut self.terminal_bits, symbol.index),
            SymbolType::External => set_bit(&mut self.external_bits, symbol.index),
            SymbolType::End => {
                self.eof = true;
            },
            SymbolType::EndOfNonTerminalExtra => {
                self.end_of_nonterminal_extra = true;
            },
            SymbolType::NonTerminal => {},
        }
        assert(self@ =~= old(self)@.with(symbol));
    }

    /// Adds the members of another set.
    pub fn insert_all(&mut self, other: &TokenSet)
        ensures
            final(self)@ == old(self)@.union(other@),
    {
        set_all_bits(&mut self.terminal_bits, &other.terminal_bits);
        set_all_bits(&mut self.external_bits, &other.external_bits);
        self.eof = self.eof || other.eof;
        self.end_of_nonterminal_extra = self.end_of_nonterminal_extra || other.end_of_nonterminal_extra;
        assert(self@ =~= old(self)@.union(other@));
    }

    /// The set that has one symbol.
    pub fn singleton(symbol: Symbol) -> (r: Self)
        requires
            symbol.kind != SymbolType::NonTerminal,
        ensures
            r@ == Tokens::none().with(symbol),
    {
        let mut r = TokenSet::new();
        r.insert(symbol);
        r
    }

    /// The row of bits, one for each terminal.
    pub fn terminal_bits_words(&self) -> (r: &Vec<u64>)
        ensures
            row_members(r@) == self@.terminals,
    {
        &self.terminal_bits
    }

    /// The terminals of the set, in ascending order.
    pub fn terminals(&self) -> (r: Vec<Symbol>)
        ensures
            is_listing(SymbolType::Terminal, self@.terminals, r@),
    {
        row_symbols(&self.terminal_bits, SymbolType::Terminal)
    }

    /// All symbols of the set: the terminals, the external tokens, the end of the
    /// input, and the end of a non-terminal extra.
    pub fn iter(&self) -> (r: Vec<Symbol>)
        ensures
            exists|t: Seq<Symbol>, e: Seq<Symbol>|
                #[trigger] is_listing(SymbolType::Terminal, self@.terminals, t) && #[trigger] is_listing(
                    SymbolType::External,
                    self@.externals,
                    e,
                ) && r@ == t + e + self@.marks(),
            forall|k: int| 0 <= k < r@.len() ==> self@.has(#[trigger] r@[k]),
            forall|i: u32| #[trigger] self@.terminals.contains(i as int) ==> r@.contains(terminal_symbol(i as int)),
            forall|i: u32|
                #[trigger] self@.externals.contains(i as int) ==> r@.contains(
                    Symbol { kind: SymbolType::External, index: i },
                ),
            self@.eof ==> r@.contains(end_symbol()),
            self@.end_of_nonterminal_extra ==> r@.contains(
                Symbol { kind: SymbolType::EndOfNonTerminalExtra, index: 0 },
            ),
    {
        let mut r = row_symbols(&self.terminal_bits, SymbolType::Terminal);
        let mut externals = row_symbols(&self.external_bits, SymbolType::External);
        let ghost first = r@;
        let ghost second = externals@;
        r.append(&mut externals);
        if self.eof {
            r.push(Symbol::end());
            assert(r@[(first.len() + second.len()) as int] == end_symbol());
        }
        let ghost third = r@;
        if self.end_of_nonterminal_extra {
            r.push(Symbol { kind: SymbolType::EndOfNonTerminalExtra, index: 0 });
            assert(r@[third.len() as int] == Symbol { kind: SymbolType::EndOfNonTerminalExtra, index: 0 });
        }
        proof {
            assert(forall|k: int| 0 <= k < first.len() ==> r@[k] == first[k]);
            assert(forall|k: int| 0 <= k < second.len() ==> r@[first.len() + k] == second[k]);
            assert forall|i: u32| #[trigger] self@.terminals.contains(i as int) implies r@.contains(
                terminal_symbol(i as int),
            ) by {
                let s = Symbol { kind: SymbolType::Terminal, index: i };
                assert(first.contains(s));
                let k = choose|k: int| 0 <= k < first.len() && first[k] == s;
                assert(r@[k] == s);
            }
            assert forall|i: u32| #[trigger] self@.externals.contains(i as int) implies r@.contains(
                Symbol { kind: SymbolType::External, index: i },
            ) by {
                let s = Symbol { kind: SymbolType::External, index: i };
                assert(second.contains(s));
                let k = choose|k: int| 0 <= k < second.len() && second[k] == s;
                assert(r@[first.len() + k] == s);
            }
            assert forall|k: int| 0 <= k < r@.len() implies self@.has(#[trigger] r@[k]) by {
                if k < first.len() {
                    assert(r@[k] == first[k]);
                } else if k < first.len() + second.len() {
                    assert(r@[k] == second[k - first.len()]);
                }
            }
            if self@.eof {
                assert(third[(first.len() + second.len()) as int] == end_symbol());
                assert(r@[(first.len() + second.len()) as int] == end_symbol());
            }
            assert(is_listing(SymbolType::Terminal, self@.terminals, first));
            assert(is_listing(SymbolType::External, self@.externals, second));
            assert(r@ =~= first + second + self@.marks());
        }
        r
    }
}

/// The two symbols are the same token: they have the same kind and, if it is a kind of
/// tokens that are numbered, the same number.
pub open spec fn same_token(a: Symbol, b: Symbol) -> bool {
    a.kind == b.kind && (a.kind == SymbolType::Terminal || a.kind == SymbolType::External ==> a.index == b.index)
}

/// A set has the tokens that have been added to it, and no others.
pub proof fn law_token_sets(tokens: Tokens, other: Tokens, a: Symbol, b: Symbol)
    requires
        a.kind != SymbolType::NonTerminal,
        b.kind != SymbolType::NonTerminal,
    ensures
        !Tokens::none().has(b),
        tokens.with(a).has(b) <==> tokens.has(b) || same_token(a, b),
        tokens.union(other).has(b) <==> tokens.has(b) || other.has(b),
        tokens.has_non_terminal_token() <==> exists|s: Symbol| s.kind != SymbolType::Terminal && #[trigger] tokens.has(s)
            || exists|e: int| (e < 0 || e > u32::MAX) && tokens.externals.contains(e),
{
    if tokens.has_non_terminal_token() {
        let end = Symbol { kind: SymbolType::End, index: 0 };
        let extra = Symbol { kind: SymbolType::EndOfNonTerminalExtra, index: 0 };
        assert(tokens.eof ==> tokens.has(end));
        assert(tokens.end_of_nonterminal_extra ==> tokens.has(extra));
        if exists|e: int| tokens.externals.contains(e) {
            let e = choose|e: int| tokens.externals.contains(e);
            let external = Symbol { kind: SymbolType::External, index: e as u32 };
            if 0 <= e <= u32::MAX {
                assert(tokens.has(external));
            }
        }
    }
}

} // verus!
