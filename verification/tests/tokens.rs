use lex_tables::character_set::CharacterSet;
use lex_tables::rules::{Symbol, SymbolType, TokenSet};
use lex_tables::token_conflicts::{check_token_conflicts, merge_token_set, CoincidentTokenIndex, TokenConflictMap};
use lex_tables::token_groups::group_states;

fn set(indices: &[usize]) -> TokenSet {
    let mut tokens = TokenSet::new();
    for &i in indices {
        tokens.insert(Symbol::terminal(i));
    }
    tokens
}

fn indices(tokens: &TokenSet) -> Vec<u32> {
    tokens.terminals().iter().map(|s| s.index).collect()
}

/// Token 0 conflicts with token 1, and overlaps with tokens 2 and 3; it is valid
/// together with token 2.
fn relations() -> (TokenConflictMap, CoincidentTokenIndex) {
    let n = 4;
    let map = TokenConflictMap {
        row_words: 1,
        conflict_or_prefix_bits: vec![0b0010, 0, 0, 0],
        overlap_either_bits: vec![0b1100, 0, 0b0001, 0b0001],
        starting_chars_by_index: (0..n).map(|_| CharacterSet::empty()).collect(),
        following_tokens_by_index: (0..n).map(|_| TokenSet::new()).collect(),
    };
    let index = CoincidentTokenIndex { row_bits: vec![0b0100, 0, 0b0001, 0] };
    (map, index)
}

#[test]
fn conflicting_tokens_clash() {
    let (map, index) = relations();
    assert!(check_token_conflicts(0, &set(&[1]), &map, &index));
    // The relation is looked up in the row of the token that is asked about.
    assert!(!check_token_conflicts(1, &set(&[0]), &map, &index));
}

#[test]
fn overlapping_tokens_clash_unless_they_coincide() {
    let (map, index) = relations();
    assert!(!check_token_conflicts(0, &set(&[2]), &map, &index));
    assert!(check_token_conflicts(0, &set(&[3]), &map, &index));
    assert!(check_token_conflicts(0, &set(&[2, 3]), &map, &index));
    assert!(!check_token_conflicts(0, &TokenSet::new(), &map, &index));
}

#[test]
fn rows_of_several_words() {
    let map = TokenConflictMap {
        row_words: 2,
        conflict_or_prefix_bits: {
            let mut bits = vec![0u64; 140];
            bits[1] = 1 << 1;
            bits
        },
        overlap_either_bits: vec![0; 140],
        starting_chars_by_index: (0..70).map(|_| CharacterSet::empty()).collect(),
        following_tokens_by_index: (0..70).map(|_| TokenSet::new()).collect(),
    };
    let index = CoincidentTokenIndex { row_bits: vec![0; 140] };
    assert!(check_token_conflicts(0, &set(&[65]), &map, &index));
    assert!(!check_token_conflicts(0, &set(&[1]), &map, &index));
    assert!(!check_token_conflicts(1, &set(&[65]), &map, &index));
}

#[test]
fn sets_without_clashes_are_merged() {
    let (map, index) = relations();
    let mut tokens = set(&[0]);
    tokens.insert(Symbol::end());
    assert!(merge_token_set(&mut tokens, &set(&[2]), &map, &index));
    assert_eq!(indices(&tokens), vec![0, 2]);
    assert!(tokens.contains(Symbol::end()));
}

#[test]
fn sets_with_clashes_are_left_alone() {
    let (map, index) = relations();
    // The clash is found from either side.
    let mut tokens = set(&[0]);
    assert!(!merge_token_set(&mut tokens, &set(&[1]), &map, &index));
    assert_eq!(indices(&tokens), vec![0]);
    let mut tokens = set(&[1]);
    assert!(!merge_token_set(&mut tokens, &set(&[0]), &map, &index));
    assert_eq!(indices(&tokens), vec![1]);
}

#[test]
fn common_tokens_do_not_stop_a_merge() {
    let (map, index) = relations();
    // Token 0 is in both sets, so what it clashes with does not matter.
    let mut tokens = set(&[0, 1]);
    assert!(merge_token_set(&mut tokens, &set(&[0, 1, 2]), &map, &index));
    assert_eq!(indices(&tokens), vec![0, 1, 2]);
}

#[test]
fn states_join_the_first_group_that_fits() {
    let (map, index) = relations();
    let groups = group_states(vec![set(&[0]), set(&[1]), set(&[2]), set(&[3]), set(&[0, 2])], &map, &index);
    let found: Vec<(Vec<u32>, Vec<u32>)> = groups.iter().map(|(t, s)| (indices(t), s.clone())).collect();
    // State 2 fits both groups and joins the first; state 3 clashes with token 0.
    assert_eq!(found, vec![(vec![0, 2], vec![0, 2, 4]), (vec![1, 3], vec![1, 3])]);
}

#[test]
fn token_sets_hold_all_kinds_of_tokens() {
    let mut tokens = set(&[70, 3]);
    tokens.insert(Symbol::external(2));
    tokens.insert(Symbol { kind: SymbolType::EndOfNonTerminalExtra, index: 0 });
    assert_eq!(indices(&tokens), vec![3, 70]);
    assert!(tokens.contains(Symbol::external(2)) && !tokens.contains(Symbol::external(3)));
    assert!(!tokens.contains(Symbol::end()));
    assert!(tokens.contains_terminal(70) && !tokens.contains_terminal(69));
    assert_eq!(tokens.iter().len(), 4);
}
