use lex_tables::build_lex_table::{build_lex_table, try_build_lex_table, LexTables};
use lex_tables::character_set::CharacterSet;
use lex_tables::grammars::{LexicalGrammar, LexicalVariable, StrId, SyntaxGrammar, VariableType};
use lex_tables::keywords::{deferred_keywords, token_precedences, KeywordRules};
use lex_tables::nfa::{Nfa, NfaState};
use lex_tables::rules::{Symbol, TokenSet};
use lex_tables::tables::{LexTable, ParseAction, ParseState, ParseTable, TerminalEntries};
use lex_tables::token_conflicts::{CoincidentTokenIndex, TokenConflictMap};

const WORD: usize = 0;
const KW: usize = 1;
const DASHED: usize = 2;

fn terminal(index: usize) -> Symbol {
    Symbol::terminal(index)
}

fn read(chars: CharacterSet, state_id: u32, precedence: i32) -> NfaState {
    NfaState::Advance { chars, state_id, is_sep: false, precedence }
}

fn advance(c: char, state_id: u32, precedence: i32) -> NfaState {
    read(CharacterSet::from_char(c), state_id, precedence)
}

fn accept(variable_index: usize, precedence: i32) -> NfaState {
    NfaState::Accept { variable_index, precedence }
}

fn variable(start_state: u32) -> LexicalVariable {
    LexicalVariable {
        name: StrId::default(),
        kind: VariableType::Named,
        implicit_precedence: 0,
        start_state,
        is_immediate: false,
    }
}

/// A word /[a-z]+/, the keyword "a" with its own precedence, and the literal "a-".
fn lexical_grammar(word_precedence: i32, keyword_precedence: i32) -> LexicalGrammar {
    LexicalGrammar {
        nfa: Nfa {
            states: vec![
                accept(WORD, word_precedence),
                NfaState::Split(2, 0),
                read(CharacterSet::from_range('a', 'z'), 1, word_precedence),
                accept(KW, keyword_precedence),
                advance('a', 3, keyword_precedence),
                accept(DASHED, 0),
                advance('-', 5, 0),
                advance('a', 6, 0),
            ],
        },
        variables: vec![variable(2), variable(4), variable(7)],
    }
}

fn syntax_grammar() -> SyntaxGrammar {
    SyntaxGrammar { extra_symbols: vec![], word_token: Some(terminal(WORD)) }
}

fn token_set(indices: &[usize]) -> TokenSet {
    let mut set = TokenSet::new();
    for &i in indices {
        set.insert(terminal(i));
    }
    set
}

/// The word conflicts with both other tokens; the keyword and the literal are valid
/// together.
fn conflict_map() -> TokenConflictMap {
    TokenConflictMap {
        row_words: 1,
        conflict_or_prefix_bits: vec![0b110, 0b001, 0b001],
        overlap_either_bits: vec![0; 3],
        starting_chars_by_index: vec![
            CharacterSet::from_range('a', 'z'),
            CharacterSet::from_char('a'),
            CharacterSet::from_char('a'),
        ],
        following_tokens_by_index: vec![TokenSet::new(), TokenSet::new(), TokenSet::new()],
    }
}

fn coincident_index() -> CoincidentTokenIndex {
    CoincidentTokenIndex { row_bits: vec![0b010, 0b101, 0b010] }
}

fn parse_state(entries: &[(Symbol, usize)], reserved: &[usize]) -> ParseState {
    let mut terminal_entries = TerminalEntries::new();
    for &(symbol, entry) in entries {
        terminal_entries.insert(symbol, entry);
    }
    ParseState { terminal_entries, reserved_words: token_set(reserved), lex_state_id: 99 }
}

fn shift(state: u32) -> Vec<ParseAction> {
    vec![ParseAction::Shift { state, is_repetition: false }]
}

/// The initial state expects the word or the keyword; after a word come the keyword or
/// the literal; after an initial keyword comes a word.
fn parse_table() -> ParseTable {
    ParseTable {
        states: vec![
            parse_state(&[(Symbol::end(), 0)], &[]),
            parse_state(&[(terminal(WORD), 1), (terminal(KW), 2)], &[]),
            parse_state(&[(terminal(KW), 3), (terminal(DASHED), 3)], &[]),
            parse_state(&[(terminal(WORD), 3)], &[]),
            parse_state(&[(Symbol::end(), 0)], &[]),
        ],
        action_lists: vec![vec![ParseAction::Accept], shift(2), shift(3), shift(4)],
    }
}

fn sets_for(
    table: &ParseTable,
    syntax: &SyntaxGrammar,
    lexical: &LexicalGrammar,
    map: &TokenConflictMap,
    pairs: &[(Symbol, Symbol)],
) -> Vec<Vec<u32>> {
    let keywords = token_set(&[KW]);
    let rules = KeywordRules {
        syntax_grammar: syntax,
        lexical_grammar: lexical,
        keywords: &keywords,
        token_conflict_map: map,
        unsafe_keyword_pairs: pairs,
    };
    rules.token_sets(table).iter().map(|set| set.terminals().iter().map(|s| s.index).collect()).collect()
}

/// What the lexer finds at the start of the text: the token, and its length.
fn lex(table: &LexTable, start: u32, text: &str) -> Option<(u32, usize)> {
    let mut state = start as usize;
    let mut found = table.states[state].accept_action.map(|s| (s.index, 0));
    for (length, c) in text.chars().enumerate() {
        match table.states[state].advance_actions.iter().find(|(chars, _)| chars.contains(c)) {
            Some((_, action)) => state = action.state as usize,
            None => break,
        }
        if let Some(symbol) = table.states[state].accept_action {
            found = Some((symbol.index, length + 1));
        }
    }
    found
}

fn build(table: &mut ParseTable, lexical: &LexicalGrammar, pairs: &[(Symbol, Symbol)]) -> LexTables {
    build_lex_table(
        table,
        &syntax_grammar(),
        lexical,
        &token_set(&[KW]),
        &coincident_index(),
        &conflict_map(),
        pairs,
    )
}

#[test]
fn keyword_is_retained_beside_an_unsafe_literal() {
    let pairs = [(terminal(KW), terminal(DASHED))];
    let sets = sets_for(&parse_table(), &syntax_grammar(), &lexical_grammar(0, 1), &conflict_map(), &pairs);
    // The word stands in for the keyword in the initial state, but not after a word.
    assert_eq!(sets, vec![vec![], vec![0], vec![1, 2], vec![0], vec![]]);
}

#[test]
fn keyword_is_left_to_the_word_without_an_unsafe_pair() {
    let sets = sets_for(&parse_table(), &syntax_grammar(), &lexical_grammar(0, 1), &conflict_map(), &[]);
    assert_eq!(sets, vec![vec![], vec![0], vec![0, 2], vec![0], vec![]]);
}

#[test]
fn words_that_start_like_a_keyword_are_words() {
    let mut table = parse_table();
    let pairs = [(terminal(KW), terminal(DASHED))];
    let tables = build(&mut table, &lexical_grammar(0, 1), &pairs);
    let ids: Vec<u32> = table.states.iter().map(|s| s.lex_state_id).collect();
    let main = &tables.main_lex_table;
    // In the initial state "ab" is one word, although the keyword has precedence.
    assert_eq!(lex(main, ids[1], "ab"), Some((WORD as u32, 2)));
    assert_eq!(lex(main, ids[1], "a"), Some((WORD as u32, 1)));
    // After a word the keyword itself is looked for.
    assert_eq!(lex(main, ids[2], "a"), Some((KW as u32, 1)));
    assert_eq!(lex(main, ids[2], "b"), None);
    // The keyword lexer knows the keyword, and nothing longer.
    let keywords = &tables.keyword_lex_table;
    assert_eq!(lex(keywords, 0, "a"), Some((KW as u32, 1)));
    assert_eq!(lex(keywords, 0, "ab"), Some((KW as u32, 1)));
    assert_eq!(lex(keywords, 0, "b"), None);
    assert_eq!(keywords.states.len(), 2);
}

#[test]
fn literal_is_found_where_it_is_expected() {
    let mut table = parse_table();
    let pairs = [(terminal(KW), terminal(DASHED))];
    let tables = build(&mut table, &lexical_grammar(0, 0), &pairs);
    let start = table.states[2].lex_state_id;
    assert_eq!(lex(&tables.main_lex_table, start, "a-"), Some((DASHED as u32, 2)));
    assert_eq!(lex(&tables.main_lex_table, start, "a"), Some((KW as u32, 1)));
}

#[test]
fn parse_states_share_lexer_states() {
    let mut table = parse_table();
    let pairs = [(terminal(KW), terminal(DASHED))];
    let tables = build(&mut table, &lexical_grammar(0, 1), &pairs);
    let ids: Vec<u32> = table.states.iter().map(|s| s.lex_state_id).collect();
    assert_eq!(ids[0], 0);
    assert_eq!(vec![ids[1], ids[3], ids[4]], vec![0, 0, 0]);
    assert_ne!(ids[2], 0);
    assert!((ids[2] as usize) < tables.main_lex_table.states.len());
    assert!(tables.main_lex_table.states[0].eof_action.is_some());
    assert!(tables.large_character_sets.is_empty());
    // Nothing else of the parse table changes.
    assert_eq!(table.states[1].terminal_entries.get(terminal(KW)), Some(2));
    assert_eq!(table.action_lists.len(), 4);
}

#[test]
fn main_lexer_is_minimized_and_sorted() {
    let mut table = parse_table();
    let pairs = [(terminal(KW), terminal(DASHED))];
    let tables = build(&mut table, &lexical_grammar(0, 0), &pairs);
    let main = &tables.main_lex_table;
    // The entry for words and the end of the input, the state after the end, the entry
    // for the keyword and the literal, and the states after their characters and after
    // a letter of a word.
    let accepts: Vec<Option<Symbol>> = main.states.iter().map(|s| s.accept_action).collect();
    assert_eq!(
        accepts,
        vec![
            None,
            None,
            Some(Symbol::end()),
            Some(terminal(WORD)),
            Some(terminal(KW)),
            Some(terminal(DASHED)),
        ]
    );
    assert_eq!(table.states[2].lex_state_id, 1);
    assert_eq!(main.states[0].eof_action.unwrap().state, 2);
}

#[test]
fn lexers_that_fit_are_built() {
    let mut table = parse_table();
    let built = try_build_lex_table(
        &mut table,
        &syntax_grammar(),
        &lexical_grammar(0, 1),
        &token_set(&[KW]),
        &coincident_index(),
        &conflict_map(),
        &[(terminal(KW), terminal(DASHED))],
    );
    assert_eq!(built.unwrap().keyword_lex_table.states.len(), 2);
    assert_eq!(table.states[0].lex_state_id, 0);
}

#[test]
fn without_a_word_token_keywords_are_dropped() {
    let syntax = SyntaxGrammar { extra_symbols: vec![], word_token: None };
    let pairs = [(terminal(KW), terminal(DASHED))];
    let sets = sets_for(&parse_table(), &syntax, &lexical_grammar(0, 1), &conflict_map(), &pairs);
    assert_eq!(sets, vec![vec![], vec![0], vec![2], vec![0], vec![]]);
    let mut table = parse_table();
    let tables = build_lex_table(
        &mut table,
        &syntax,
        &lexical_grammar(0, 1),
        &token_set(&[KW]),
        &coincident_index(),
        &conflict_map(),
        &pairs,
    );
    assert!(tables.keyword_lex_table.states.is_empty());
}

#[test]
fn immediate_keywords_are_looked_for_where_they_are_valid() {
    let mut lexical = lexical_grammar(0, 1);
    lexical.variables[KW].is_immediate = true;
    let mut table = parse_table();
    table.states.push(parse_state(&[(terminal(WORD), 3)], &[KW]));
    let sets = sets_for(&table, &syntax_grammar(), &lexical, &conflict_map(), &[]);
    // As a reserved word it is left to the word token all the same.
    assert_eq!(sets, vec![vec![], vec![0, 1], vec![1, 2], vec![0], vec![], vec![0]]);
}

#[test]
fn reserved_words_are_looked_for() {
    let mut table = parse_table();
    table.states.push(parse_state(&[(Symbol::end(), 0)], &[KW, DASHED]));
    let sets = sets_for(&table, &syntax_grammar(), &lexical_grammar(0, 1), &conflict_map(), &[]);
    assert_eq!(sets[5], vec![0, 2]);
}

#[test]
fn keyword_outranks_a_word_of_negative_precedence() {
    // The keyword is valid in states 1 and 2, with the word token and without it.
    let pairs = [(terminal(KW), terminal(WORD))];
    let table = parse_table();
    let sets = sets_for(&table, &syntax_grammar(), &lexical_grammar(-1, 0), &conflict_map(), &pairs);
    assert_eq!(sets, vec![vec![], vec![0, 1], vec![1, 2], vec![0], vec![]]);
    // It does not if its own precedence is as low, or if that of the word is not negative.
    let sets = sets_for(&table, &syntax_grammar(), &lexical_grammar(-1, -1), &conflict_map(), &pairs);
    assert_eq!(sets, vec![vec![], vec![0], vec![0, 2], vec![0], vec![]]);
    let sets = sets_for(&table, &syntax_grammar(), &lexical_grammar(0, 1), &conflict_map(), &pairs);
    assert_eq!(sets, vec![vec![], vec![0], vec![0, 2], vec![0], vec![]]);
}

#[test]
fn precedences_are_those_of_the_last_accepting_state() {
    let mut lexical = lexical_grammar(-3, 4);
    assert_eq!(token_precedences(&lexical), vec![-3, 4, 0]);
    lexical.nfa.states.push(accept(KW, 9));
    assert_eq!(token_precedences(&lexical), vec![-3, 9, 0]);
}

#[test]
fn each_deferred_keyword_is_listed_once() {
    let pairs = [
        (terminal(2), terminal(0)),
        (terminal(1), terminal(0)),
        (terminal(2), terminal(1)),
        (Symbol::external(2), terminal(1)),
    ];
    assert_eq!(deferred_keywords(&pairs), vec![terminal(2), terminal(1), Symbol::external(2)]);
}

/// A word /a#?/ that goes on with '#', the keyword "a", and the literal "#".
fn hash_grammar() -> LexicalGrammar {
    LexicalGrammar {
        nfa: Nfa {
            states: vec![
                accept(0, 0),
                advance('#', 0, 0),
                NfaState::Split(0, 1),
                advance('a', 2, 0),
                accept(1, 0),
                advance('a', 4, 0),
                accept(2, 0),
                advance('#', 6, 0),
            ],
        },
        variables: vec![variable(3), variable(5), variable(7)],
    }
}

fn hash_map(following: &[usize]) -> TokenConflictMap {
    TokenConflictMap {
        row_words: 1,
        conflict_or_prefix_bits: vec![0; 3],
        overlap_either_bits: vec![0; 3],
        starting_chars_by_index: vec![
            CharacterSet::from_char('a'),
            CharacterSet::from_char('a'),
            CharacterSet::from_char('#'),
        ],
        following_tokens_by_index: vec![TokenSet::new(), token_set(following), TokenSet::new()],
    }
}

/// State 0 expects the keyword, with the given actions; state 1 expects the literal.
fn hash_table(actions: Vec<ParseAction>) -> ParseTable {
    ParseTable {
        states: vec![
            parse_state(&[(terminal(1), 0)], &[]),
            parse_state(&[(terminal(2), 1)], &[]),
            parse_state(&[(terminal(1), 0)], &[]),
        ],
        action_lists: vec![actions, vec![ParseAction::Accept]],
    }
}

fn reduce() -> ParseAction {
    ParseAction::Reduce { symbol: terminal(0), child_count: 1, dynamic_precedence: 0, production_id: 0 }
}

#[test]
fn keyword_is_retained_before_a_token_that_would_extend_the_word() {
    let pairs = [(terminal(1), terminal(0))];
    let syntax = syntax_grammar();
    let sets = |table: ParseTable, map: TokenConflictMap| sets_for(&table, &syntax, &hash_grammar(), &map, &pairs);
    // The literal comes after the keyword, by a shift or after a reduction.
    let retained = vec![vec![1], vec![2], vec![1]];
    let substituted = vec![vec![0], vec![2], vec![0]];
    assert_eq!(sets(hash_table(shift(1)), hash_map(&[])), retained);
    assert_eq!(sets(hash_table(vec![reduce()]), hash_map(&[2])), retained);
    // Nothing that could be mistaken for a part of the word comes after it.
    assert_eq!(sets(hash_table(shift(0)), hash_map(&[])), substituted);
    assert_eq!(sets(hash_table(vec![reduce()]), hash_map(&[])), substituted);
    assert_eq!(sets(hash_table(vec![ParseAction::Recover]), hash_map(&[2])), substituted);
}

#[test]
fn extras_and_valid_words_do_not_retain_a_keyword() {
    let pairs = [(terminal(1), terminal(0))];
    let extra = SyntaxGrammar { extra_symbols: vec![terminal(2)], word_token: Some(terminal(0)) };
    let sets = sets_for(&hash_table(shift(1)), &extra, &hash_grammar(), &hash_map(&[]), &pairs);
    assert_eq!(sets, vec![vec![0], vec![2], vec![0]]);
    // Where the word token is valid itself, it stands in for the keyword.
    let mut table = hash_table(shift(1));
    table.states[0].terminal_entries.insert(terminal(0), 1);
    let sets = sets_for(&table, &syntax_grammar(), &hash_grammar(), &hash_map(&[]), &pairs);
    assert_eq!(sets, vec![vec![0], vec![2], vec![1]]);
}

#[test]
fn characters_that_words_start_with_do_not_retain_a_keyword() {
    // If words can start with '#', nothing is gained by keeping the keyword.
    let pairs = [(terminal(1), terminal(0))];
    let mut map = hash_map(&[]);
    map.starting_chars_by_index[0] = CharacterSet::from_char('a').add(&CharacterSet::from_char('#'));
    let sets = sets_for(&hash_table(shift(1)), &syntax_grammar(), &hash_grammar(), &map, &pairs);
    assert_eq!(sets, vec![vec![0], vec![2], vec![0]]);
}
