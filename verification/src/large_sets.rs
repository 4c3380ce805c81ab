//! Character sets that are made up of many ranges.

use vstd::prelude::*;

use crate::builder::{numbers_fit, LexTableBuilder};
use crate::character_set::{holds, lemma_canonical, ranges_wf, CharRange, CharacterSet};
use crate::configs::{lemma_table_for_wf, table_for, with_entry, Config};
use crate::grammars::LexicalGrammar;
use crate::rules::{terminal_symbol, Symbol, TokenSet, Tokens};
use crate::tables::{state_wf, table_wf, AdvanceAction, LexState, StateModel};

verus! {

/// A set with more ranges than this is large.
pub const LARGE_CHARACTER_RANGE_COUNT: usize = 8;

/// A character set; if it is that of a token as a whole, the token.
pub type LargeSet = (Option<Symbol>, Seq<CharRange>);

/// The character set is in the list.
pub open spec fn is_listed(sets: Seq<LargeSet>, chars: Seq<CharRange>) -> bool {
    exists|k: int| 0 <= k < sets.len() && (#[trigger] sets[k]).1 == chars
}

/// The list, with a character set added if it is large and not in the list.
pub open spec fn with_set(sets: Seq<LargeSet>, symbol: Option<Symbol>, chars: Seq<CharRange>) -> Seq<LargeSet> {
    if chars.len() > LARGE_CHARACTER_RANGE_COUNT && !is_listed(sets, chars) {
        sets.push((symbol, chars))
    } else {
        sets
    }
}

/// The list, with the character sets of the actions that read separators.
pub open spec fn with_separators(sets: Seq<LargeSet>, actions: Seq<(Seq<CharRange>, AdvanceAction)>) -> Seq<LargeSet>
    decreases actions.len(),
{
    if actions.len() == 0 {
        sets
    } else {
        let front = with_separators(sets, actions.drop_last());
        if actions.last().1.in_main_token {
            front
        } else {
            with_set(front, None, actions.last().0)
        }
    }
}

/// One of the actions reads `c` as part of the token.
pub open spec fn reads_in_token(actions: Seq<(Seq<CharRange>, AdvanceAction)>, c: int) -> bool {
    exists|k: int| 0 <= k < actions.len() && (#[trigger] actions[k]).1.in_main_token && holds(actions[k].0, c)
}

/// The ranges are those of the characters that the actions read as part of the token.
pub open spec fn covers_token(actions: Seq<(Seq<CharRange>, AdvanceAction)>, chars: Seq<CharRange>) -> bool {
    ranges_wf(chars) && forall|c: int| #[trigger] holds(chars, c) <==> reads_in_token(actions, c)
}

/// The characters that the actions read as part of the token.
pub open spec fn token_chars(actions: Seq<(Seq<CharRange>, AdvanceAction)>) -> Seq<CharRange> {
    choose|chars: Seq<CharRange>| covers_token(actions, chars)
}

/// The list, with the large sets of one lexer state.
pub open spec fn with_state(sets: Seq<LargeSet>, symbol: Symbol, state: StateModel) -> Seq<LargeSet> {
    with_set(with_separators(sets, state.advance_actions), Some(symbol), token_chars(state.advance_actions))
}

/// The list, with the large sets of a lexer.
pub open spec fn with_states(sets: Seq<LargeSet>, symbol: Symbol, states: Seq<StateModel>) -> Seq<LargeSet>
    decreases states.len(),
{
    if states.len() == 0 {
        sets
    } else {
        with_state(with_states(sets, symbol, states.drop_last()), symbol, states.last())
    }
}

/// The configurations of the lexer that looks for just one token.
pub open spec fn token_configs(g: &LexicalGrammar, token: int) -> Seq<Config> {
    with_entry(g, Seq::empty(), Tokens::none().with(terminal_symbol(token)))
}

/// The large sets of the lexers for each of the first `n` tokens.
pub open spec fn large_sets(g: &LexicalGrammar, n: nat) -> Seq<LargeSet>
    decreases n,
{
    if n == 0 {
        Seq::empty()
    } else {
        with_states(
            large_sets(g, (n - 1) as nat),
            terminal_symbol(n - 1),
            table_for(g, token_configs(g, n - 1)),
        )
    }
}

/// What a list of large sets holds.
pub open spec fn set_views(sets: Seq<(Option<Symbol>, CharacterSet)>) -> Seq<LargeSet> {
    Seq::new(sets.len(), |i: int| (sets[i].0, sets[i].1@))
}

/// All sets of the list are canonical.
pub open spec fn sets_wf(sets: Seq<(Option<Symbol>, CharacterSet)>) -> bool {
    forall|k: int| 0 <= k < sets.len() ==> (#[trigger] sets[k]).1.wf()
}

/// Adds a character set to the list if it is large and not in the list.
fn add_set(sets: &mut Vec<(Option<Symbol>, CharacterSet)>, symbol: Option<Symbol>, chars: &CharacterSet)
    requires
        sets_wf(old(sets)@),
        chars.wf(),
    ensures
        sets_wf(final(sets)@),
        set_views(final(sets)@) == with_set(set_views(old(sets)@), symbol, chars@),
{
    let ghost views = set_views(sets@);
    if chars.range_count() <= LARGE_CHARACTER_RANGE_COUNT {
        return;
    }
    let mut k: usize = 0;
    while k < sets.len()
        invariant
            k <= sets@.len(),
            sets_wf(sets@),
            chars.wf(),
            views == set_views(sets@),
            forall|j: int| 0 <= j < k ==> (#[trigger] views[j]).1 != chars@,
        decreases sets.len() - k,
    {
        assert(sets@[k as int].1.wf());
        assert(views[k as int].1 == sets@[k as int].1@);
        if sets[k].1.equals(chars) {
            return;
        }
        k = k + 1;
    }
    sets.push((symbol, chars.clone()));
    assert(set_views(sets@) =~= views.push((symbol, chars@)));
}

/// Adds the large sets of one lexer state to the list.
fn add_state_sets(sets: &mut Vec<(Option<Symbol>, CharacterSet)>, symbol: Symbol, state: &LexState)
    requires
        sets_wf(old(sets)@),
        forall|k: int| 0 <= k < state.advance_actions@.len() ==> (#[trigger] state.advance_actions@[k]).0.wf(),
    ensures
        sets_wf(final(sets)@),
        set_views(final(sets)@) == with_state(set_views(old(sets)@), symbol, state@),
{
    let ghost before = set_views(sets@);
    let ghost actions = state@.advance_actions;
    let mut characters = CharacterSet::empty();
    let mut k: usize = 0;
    assert(actions.take(0).len() == 0);
    while k < state.advance_actions.len()
        invariant
            k <= state.advance_actions@.len(),
            actions == state@.advance_actions,
            forall|k: int| 0 <= k < state.advance_actions@.len() ==> (#[trigger] state.advance_actions@[k]).0.wf(),
            sets_wf(sets@),
            set_views(sets@) == with_separators(before, actions.take(k as int)),
            characters.wf(),
            forall|c: int| #[trigger] holds(characters@, c) <==> reads_in_token(actions.take(k as int), c),
        decreases state.advance_actions.len() - k,
    {
        let ghost shorter = actions.take(k as int);
        let ghost longer = actions.take(k + 1);
        let (chars, action) = &state.advance_actions[k];
        proof {
            assert(state.advance_actions@[k as int].0.wf());
            assert(longer.drop_last() =~= shorter);
            assert(longer.last() == (chars@, *action));
        }
        let ghost earlier = characters@;
        if action.in_main_token {
            characters = characters.add(chars);
        } else {
            add_set(sets, None, chars);
        }
        assert forall|c: int| #[trigger] holds(characters@, c) <==> reads_in_token(longer, c) by {
            assert(holds(earlier, c) <==> reads_in_token(shorter, c));
            if reads_in_token(shorter, c) {
                let j = choose|j: int|
                    0 <= j < shorter.len() && (#[trigger] shorter[j]).1.in_main_token && holds(shorter[j].0, c);
                assert(longer[j] == shorter[j]);
            }
            assert(longer[k as int] == (chars@, *action));
            if reads_in_token(longer, c) {
                let j = choose|j: int|
                    0 <= j < longer.len() && (#[trigger] longer[j]).1.in_main_token && holds(longer[j].0, c);
                if j < k {
                    assert(shorter[j] == longer[j]);
                }
            }
        }
        k = k + 1;
    }
    proof {
        assert(actions.take(k as int) =~= actions);
        assert(covers_token(actions, characters@));
        let other = token_chars(actions);
        assert(covers_token(actions, other));
        assert forall|c: int| #[trigger] holds(characters@, c) == holds(other, c) by {
            assert(holds(other, c) <==> reads_in_token(actions, c));
        }
        lemma_canonical(characters@, other);
    }
    add_set(sets, Some(symbol), &characters);
}

/// The large sets of the lexers for each of the tokens, or none if one of those lexers
/// has too many states.
pub fn find_large_sets(grammar: &LexicalGrammar) -> (r: Option<Vec<(Option<Symbol>, CharacterSet)>>)
    requires
        grammar.wf(),
    ensures
        r is Some <==> forall|v: int| 0 <= v < grammar.variables@.len() ==> numbers_fit(#[trigger] token_configs(grammar, v)),
        r matches Some(sets) ==> set_views(sets@) == large_sets(grammar, grammar.variables@.len()) && sets_wf(sets@),
{
    let mut sets: Vec<(Option<Symbol>, CharacterSet)> = Vec::new();
    let mut builder = LexTableBuilder::new(grammar);
    let mut v: usize = 0;
    assert(set_views(sets@) =~= large_sets(grammar, 0));
    while v < grammar.variables.len()
        invariant
            v <= grammar.variables@.len(),
            grammar.wf(),
            builder.wf(),
            builder.lexical_grammar == grammar,
            forall|k: int| 0 <= k < v ==> numbers_fit(#[trigger] token_configs(grammar, k)),
            set_views(sets@) == large_sets(grammar, v as nat),
            sets_wf(sets@),
        decreases grammar.variables.len() - v,
    {
        let symbol = Symbol::terminal(v);
        let tokens = TokenSet::singleton(symbol);
        builder.reset();
        assert(builder.configs@ =~= Seq::empty());
        builder.add_state_for_tokens(&tokens);
        let ghost configs = token_configs(grammar, v as int);
        assert(builder.configs@ == configs);
        if builder.table.states.len() as u64 > 0x1_0000_0000u64 {
            assert(!numbers_fit(token_configs(grammar, v as int)));
            return None;
        }
        let ghost before = set_views(sets@);
        let ghost states = builder.table@;
        proof {
            assert(numbers_fit(configs));
            lemma_table_for_wf(grammar, configs);
            assert(states.take(0).len() == 0);
        }
        let mut i: usize = 0;
        while i < builder.table.states.len()
            invariant
                i <= builder.table.states@.len(),
                states == builder.table@,
                table_wf(states),
                sets_wf(sets@),
                set_views(sets@) == with_states(before, symbol, states.take(i as int)),
            decreases builder.table.states.len() - i,
        {
            let state = &builder.table.states[i];
            proof {
                assert(states.take(i + 1).drop_last() =~= states.take(i as int));
                assert(states.take(i + 1).last() == state@);
                assert(state_wf(states[i as int], states.len()));
                assert forall|k: int| 0 <= k < state.advance_actions@.len() implies (#[trigger] state.advance_actions@[k]).0.wf() by {
                    assert(ranges_wf(state@.advance_actions[k].0));
                }
            }
            add_state_sets(&mut sets, symbol, state);
            i = i + 1;
        }
        assert(states.take(i as int) =~= states);
        v = v + 1;
    }
    Some(sets)
}

} // verus!
