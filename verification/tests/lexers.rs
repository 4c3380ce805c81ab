use lex_tables::builder::LexTableBuilder;
use lex_tables::character_set::CharacterSet;
use lex_tables::grammars::{LexicalGrammar, LexicalVariable, StrId, VariableType};
use lex_tables::large_sets::find_large_sets;
use lex_tables::nfa::{Nfa, NfaState};
use lex_tables::rules::{Symbol, TokenSet};
use lex_tables::tables::{AdvanceAction, LexTable};

fn read(chars: CharacterSet, state_id: u32, precedence: i32) -> NfaState {
    NfaState::Advance { chars, state_id, is_sep: false, precedence }
}

fn skip(chars: CharacterSet, state_id: u32) -> NfaState {
    NfaState::Advance { chars, state_id, is_sep: true, precedence: 0 }
}

fn advance(c: char, state_id: u32) -> NfaState {
    read(CharacterSet::from_char(c), state_id, 0)
}

fn accept(variable_index: usize, precedence: i32) -> NfaState {
    NfaState::Accept { variable_index, precedence }
}

fn grammar(states: Vec<NfaState>, variables: Vec<(u32, i32)>) -> LexicalGrammar {
    LexicalGrammar {
        nfa: Nfa { states },
        variables: variables
            .into_iter()
            .map(|(start_state, implicit_precedence)| LexicalVariable {
                name: StrId::default(),
                kind: VariableType::Named,
                implicit_precedence,
                start_state,
                is_immediate: false,
            })
            .collect(),
    }
}

fn tokens(indices: &[usize]) -> TokenSet {
    let mut set = TokenSet::new();
    for &i in indices {
        set.insert(Symbol::terminal(i));
    }
    set
}

fn build(grammar: &LexicalGrammar, tokens: &TokenSet) -> LexTable {
    let mut builder = LexTableBuilder::new(grammar);
    assert_eq!(builder.add_state_for_tokens(tokens), 0);
    builder.table
}

/// The state after a text.
fn run(table: &LexTable, start: u32, text: &str) -> Option<u32> {
    let mut state = start;
    for c in text.chars() {
        let actions = &table.states[state as usize].advance_actions;
        let mut found = actions.iter().filter(|(chars, _)| chars.contains(c));
        state = found.next()?.1.state;
        assert!(found.next().is_none());
    }
    Some(state)
}

fn accepted(table: &LexTable, text: &str) -> Option<Symbol> {
    table.states[run(table, 0, text)? as usize].accept_action
}

/// Token 0 is "ab", token 1 is "ac".
fn two_words() -> LexicalGrammar {
    grammar(
        vec![accept(0, 0), advance('b', 0), advance('a', 1), accept(1, 0), advance('c', 3), advance('a', 4)],
        vec![(2, 0), (5, 0)],
    )
}

#[test]
fn common_beginnings_are_shared() {
    let grammar = two_words();
    let table = build(&grammar, &tokens(&[0, 1]));
    assert_eq!(table.states.len(), 4);
    assert_eq!(table.states[0].advance_actions.len(), 1);
    assert_eq!(accepted(&table, "ab"), Some(Symbol::terminal(0)));
    assert_eq!(accepted(&table, "ac"), Some(Symbol::terminal(1)));
    assert_eq!(accepted(&table, "a"), None);
    assert_eq!(run(&table, 0, "b"), None);
}

#[test]
fn states_are_numbered_as_they_are_found() {
    let grammar = two_words();
    let table = build(&grammar, &tokens(&[0, 1]));
    assert_eq!(run(&table, 0, "a"), Some(1));
    assert_eq!(run(&table, 0, "ab"), Some(2));
    assert_eq!(run(&table, 0, "ac"), Some(3));
    let (chars, action) = &table.states[0].advance_actions[0];
    assert_eq!(chars.range_pairs(), vec![(0x61, 0x62)]);
    assert_eq!(*action, AdvanceAction { state: 1, in_main_token: true });
}

#[test]
fn entry_points_share_states() {
    let grammar = two_words();
    let mut builder = LexTableBuilder::new(&grammar);
    assert_eq!(builder.add_state_for_tokens(&tokens(&[0, 1])), 0);
    let states = builder.table.states.len();
    // The same tokens lead to the same state, other tokens to a new one.
    assert_eq!(builder.add_state_for_tokens(&tokens(&[0, 1])), 0);
    assert_eq!(builder.table.states.len(), states);
    assert_eq!(builder.add_state_for_tokens(&tokens(&[1])), states as u32);
    assert_eq!(builder.table.states.len(), states + 2);
    assert_eq!(run(&builder.table, states as u32, "ac"), Some(3));
}

#[test]
fn reset_forgets_everything() {
    let grammar = two_words();
    let mut builder = LexTableBuilder::new(&grammar);
    builder.add_state_for_tokens(&tokens(&[0, 1]));
    builder.reset();
    assert_eq!(builder.table.states.len(), 0);
    assert_eq!(builder.add_state_for_tokens(&tokens(&[0, 1])), 0);
    assert_eq!(builder.table.states.len(), 4);
}

#[test]
fn end_of_input_is_accepted() {
    let grammar = two_words();
    let mut set = tokens(&[0]);
    set.insert(Symbol::end());
    let table = build(&grammar, &set);
    let action = table.states[0].eof_action.unwrap();
    assert!(action.in_main_token);
    let end = &table.states[action.state as usize];
    assert_eq!(end.accept_action, Some(Symbol::end()));
    assert!(end.eof_action.is_none() && end.advance_actions.is_empty());
    // In the middle of a token the end of the input is not valid.
    assert!(table.states[run(&table, 0, "a").unwrap() as usize].eof_action.is_none());
}

#[test]
fn external_tokens_make_the_end_of_input_valid() {
    let grammar = two_words();
    let mut set = tokens(&[0]);
    set.insert(Symbol::external(0));
    assert!(build(&grammar, &set).states[0].eof_action.is_some());
    assert!(build(&grammar, &tokens(&[0])).states[0].eof_action.is_none());
}

#[test]
fn separators_are_not_part_of_the_token() {
    // Token 0 is "x" after any number of spaces.
    let grammar = grammar(
        vec![accept(0, 0), advance('x', 0), NfaState::Split(1, 3), skip(CharacterSet::from_char(' '), 2)],
        vec![(2, 0)],
    );
    let mut set = tokens(&[0]);
    set.insert(Symbol::end());
    let table = build(&grammar, &set);
    assert_eq!(accepted(&table, "  x"), Some(Symbol::terminal(0)));
    let flags: Vec<(Vec<(u32, u32)>, bool)> =
        table.states[0].advance_actions.iter().map(|(c, a)| (c.range_pairs(), a.in_main_token)).collect();
    assert_eq!(flags, vec![(vec![(0x20, 0x21)], false), (vec![(0x78, 0x79)], true)]);
    // The end of the input stays valid while separators are read.
    assert_eq!(run(&table, 0, "  "), Some(0));
}

#[test]
fn nothing_to_look_for() {
    let grammar = two_words();
    let table = build(&grammar, &TokenSet::new());
    assert_eq!(table.states.len(), 1);
    assert_eq!(table.states[0].accept_action, Some(Symbol::end()));
    assert!(table.states[0].eof_action.is_none() && table.states[0].advance_actions.is_empty());
}

#[test]
fn last_set_looked_at_decides_about_the_end() {
    // The end of the input is valid, and nothing else: the empty set was looked at last.
    let grammar = two_words();
    let mut set = TokenSet::new();
    set.insert(Symbol::end());
    let table = build(&grammar, &set);
    assert_eq!(table.states[0].accept_action, Some(Symbol::end()));
    // With a token, the states after its first character were looked at last.
    let mut set = tokens(&[0]);
    set.insert(Symbol::end());
    assert_eq!(build(&grammar, &set).states[0].accept_action, None);
}

#[test]
fn preferred_token_is_accepted() {
    let states = |first: i32, second: i32| {
        vec![accept(0, first), advance('a', 0), accept(1, second), advance('a', 2)]
    };
    let winner = |grammar: LexicalGrammar| accepted(&build(&grammar, &tokens(&[0, 1])), "a");
    // By precedence, then by implicit precedence, then by number.
    assert_eq!(winner(grammar(states(0, 1), vec![(1, 5), (3, 0)])), Some(Symbol::terminal(1)));
    assert_eq!(winner(grammar(states(1, 0), vec![(1, 0), (3, 5)])), Some(Symbol::terminal(0)));
    assert_eq!(winner(grammar(states(0, 0), vec![(1, 0), (3, 5)])), Some(Symbol::terminal(1)));
    assert_eq!(winner(grammar(states(0, 0), vec![(1, 2), (3, 2)])), Some(Symbol::terminal(0)));
}

#[test]
fn precedence_comes_before_length() {
    // Token 0 is /[a-z]+/, token 1 is "a" with the given precedence.
    let words = |precedence: i32| {
        grammar(
            vec![
                accept(0, 0),
                NfaState::Split(2, 0),
                read(CharacterSet::from_range('a', 'z'), 1, 0),
                accept(1, precedence),
                read(CharacterSet::from_char('a'), 3, precedence),
            ],
            vec![(2, 0), (4, 0)],
        )
    };
    let high = words(1);
    let table = build(&high, &tokens(&[0, 1]));
    assert_eq!(accepted(&table, "a"), Some(Symbol::terminal(1)));
    assert_eq!(run(&table, 0, "ab"), None);
    assert_eq!(accepted(&table, "ba"), Some(Symbol::terminal(0)));
    // At the same precedence the longer match wins.
    let level = words(0);
    let table = build(&level, &tokens(&[0, 1]));
    assert_eq!(accepted(&table, "a"), Some(Symbol::terminal(0)));
    assert_eq!(accepted(&table, "ab"), Some(Symbol::terminal(0)));
}

/// Single characters with gaps between them, so that each is a range.
fn scattered(count: u32) -> CharacterSet {
    let mut set = CharacterSet::empty();
    for i in 0..count {
        set = set.add(&CharacterSet::from_char(char::from_u32(0x100 + 2 * i).unwrap()));
    }
    assert_eq!(set.range_count(), count as usize);
    set
}

#[test]
fn sets_with_many_ranges_are_listed() {
    let with = |count: u32| grammar(vec![accept(0, 0), read(scattered(count), 0, 0)], vec![(1, 0)]);
    let sets = find_large_sets(&with(9)).unwrap();
    assert_eq!(sets.len(), 1);
    assert_eq!(sets[0].0, Some(Symbol::terminal(0)));
    assert!(sets[0].1.equals(&scattered(9)));
    assert!(find_large_sets(&with(8)).unwrap().is_empty());
}

#[test]
fn characters_of_a_token_are_taken_together() {
    // In its first state, the token reads each half with another action.
    let mut odd = scattered(10);
    let mut first_half = scattered(5);
    odd.remove_intersection(&mut first_half);
    let grammar = grammar(
        vec![
            accept(0, 0),
            advance('x', 0),
            advance('y', 0),
            read(scattered(5), 1, 0),
            read(odd, 2, 0),
            NfaState::Split(3, 4),
        ],
        vec![(5, 0)],
    );
    let sets = find_large_sets(&grammar).unwrap();
    assert_eq!(sets.len(), 1);
    assert_eq!(sets[0].0, Some(Symbol::terminal(0)));
    assert!(sets[0].1.equals(&scattered(10)));
}

#[test]
fn large_separators_belong_to_no_token() {
    // Tokens 0 and 1 both skip the same large set; each set is listed once.
    let grammar = grammar(
        vec![
            accept(0, 0),
            advance('x', 0),
            NfaState::Split(1, 3),
            skip(scattered(9), 2),
            accept(1, 0),
            advance('y', 4),
            NfaState::Split(5, 7),
            skip(scattered(9), 6),
        ],
        vec![(2, 0), (6, 0)],
    );
    let sets = find_large_sets(&grammar).unwrap();
    assert_eq!(sets.len(), 1);
    assert_eq!(sets[0].0, None);
    assert!(sets[0].1.equals(&scattered(9)));
}
