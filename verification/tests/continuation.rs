use lex_tables::character_set::CharacterSet;
use lex_tables::continuation::word_continuation_chars;
use lex_tables::grammars::{LexicalGrammar, LexicalVariable, StrId, VariableType};
use lex_tables::nfa::{Nfa, NfaState};

fn advance(character: char, state_id: u32) -> NfaState {
    NfaState::Advance { chars: CharacterSet::from_char(character), state_id, is_sep: false, precedence: 0 }
}

fn accept(variable_index: usize) -> NfaState {
    NfaState::Accept { variable_index, precedence: 0 }
}

fn grammar(states: Vec<NfaState>, start_states: Vec<u32>) -> LexicalGrammar {
    LexicalGrammar {
        nfa: Nfa { states },
        variables: start_states
            .into_iter()
            .map(|start_state| LexicalVariable {
                name: StrId::default(),
                kind: VariableType::Named,
                implicit_precedence: 0,
                start_state,
                is_immediate: false,
            })
            .collect(),
    }
}

#[test]
fn continuation_after_longer_optional_keyword_spelling() {
    let grammar = grammar(
        vec![
            advance('a', 1),
            NfaState::Split(2, 3),
            accept(0),
            advance('b', 4),
            NfaState::Split(5, 6),
            accept(0),
            advance('#', 7),
            accept(0),
            advance('a', 9),
            NfaState::Split(10, 11),
            accept(1),
            advance('b', 12),
            accept(1),
        ],
        vec![0, 8],
    );

    let chars = word_continuation_chars(&grammar, 0, 1);
    assert!(chars.contains('#'), "the word can extend the keyword 'ab' with '#'");
}

#[test]
fn continuations_are_those_after_each_spelling() {
    let grammar = grammar(
        vec![
            advance('a', 1),
            NfaState::Split(2, 3),
            accept(0),
            advance('b', 4),
            NfaState::Split(5, 6),
            accept(0),
            advance('#', 7),
            accept(0),
            advance('a', 9),
            NfaState::Split(10, 11),
            accept(1),
            advance('b', 12),
            accept(1),
        ],
        vec![0, 8],
    );
    // After "a" the word goes on with 'b', after "ab" with '#'.
    let chars = word_continuation_chars(&grammar, 0, 1);
    assert_eq!(chars.range_pairs(), vec![(0x23, 0x24), (0x62, 0x63)]);
    // The other way round, the longer token goes on with 'b' only.
    let chars = word_continuation_chars(&grammar, 1, 0);
    assert_eq!(chars.range_pairs(), vec![(0x62, 0x63)]);
}

#[test]
fn continuations_of_a_repeated_word() {
    // The word is /[a-c]+/, the keyword is "ab".
    let grammar = grammar(
        vec![
            accept(0),
            NfaState::Split(2, 0),
            NfaState::Advance { chars: CharacterSet::from_range('a', 'c'), state_id: 1, is_sep: false, precedence: 0 },
            accept(1),
            advance('b', 3),
            advance('a', 4),
        ],
        vec![2, 5],
    );
    let chars = word_continuation_chars(&grammar, 0, 1);
    assert_eq!(chars.range_pairs(), vec![(0x61, 0x64)]);
}

#[test]
fn no_continuation_without_a_common_spelling() {
    let grammar = grammar(vec![accept(0), advance('x', 0), accept(1), advance('y', 2)], vec![1, 3]);
    assert!(word_continuation_chars(&grammar, 0, 1).is_empty());
}

#[test]
fn search_goes_round_loops_once() {
    // Both tokens are /a+/.
    let grammar = grammar(
        vec![
            accept(0),
            NfaState::Split(2, 0),
            advance('a', 1),
            accept(1),
            NfaState::Split(5, 3),
            advance('a', 4),
        ],
        vec![2, 5],
    );
    let chars = word_continuation_chars(&grammar, 0, 1);
    assert_eq!(chars.range_pairs(), vec![(0x61, 0x62)]);
}
