use lex_tables::character_set::CharacterSet;
use lex_tables::groups::lex_states_differ;
use lex_tables::minimize::minimize_lex_table;
use lex_tables::rules::{Symbol, TokenSet};
use lex_tables::sort_states::sort_states;
use lex_tables::tables::{AdvanceAction, LexState, LexTable, ParseState, ParseTable, TerminalEntries};

fn to(state: u32) -> AdvanceAction {
    AdvanceAction { state, in_main_token: true }
}

fn state(accept: Option<usize>, actions: &[(char, u32)]) -> LexState {
    LexState {
        accept_action: accept.map(Symbol::terminal),
        eof_action: None,
        advance_actions: actions.iter().map(|&(c, s)| (CharacterSet::from_char(c), to(s))).collect(),
    }
}

fn parse_table(lex_state_ids: &[u32]) -> ParseTable {
    ParseTable {
        states: lex_state_ids
            .iter()
            .map(|&lex_state_id| ParseState {
                terminal_entries: TerminalEntries::new(),
                reserved_words: TokenSet::new(),
                lex_state_id,
            })
            .collect(),
        action_lists: Vec::new(),
    }
}

fn lex_state_ids(table: &ParseTable) -> Vec<u32> {
    table.states.iter().map(|s| s.lex_state_id).collect()
}

fn describe(table: &LexTable) -> Vec<(Option<u32>, Vec<(u32, u32)>)> {
    table
        .states
        .iter()
        .map(|s| {
            let actions = s.advance_actions.iter().map(|(c, a)| (c.range_pairs()[0].0, a.state)).collect();
            (s.accept_action.map(|t| t.index), actions)
        })
        .collect()
}

#[test]
fn states_that_do_the_same_are_joined() {
    // States 1 and 2 both read 'x' and then accept token 7.
    let mut table = LexTable {
        states: vec![
            state(None, &[('a', 1), ('b', 2)]),
            state(None, &[('x', 3)]),
            state(None, &[('x', 4)]),
            state(Some(7), &[]),
            state(Some(7), &[]),
        ],
    };
    let mut parse = parse_table(&[0, 2, 4, 3]);
    minimize_lex_table(&mut table, &mut parse);
    assert_eq!(
        describe(&table),
        vec![
            (None, vec![(0x61, 1), (0x62, 1)]),
            (None, vec![(0x78, 2)]),
            (Some(7), vec![]),
        ]
    );
    assert_eq!(lex_state_ids(&parse), vec![0, 1, 2, 2]);
}

#[test]
fn states_that_lead_elsewhere_stay_apart() {
    // States 1 and 2 look alike, but lead to different tokens.
    let mut table = LexTable {
        states: vec![
            state(None, &[('a', 1), ('b', 2)]),
            state(None, &[('x', 3)]),
            state(None, &[('x', 4)]),
            state(Some(7), &[]),
            state(Some(8), &[]),
        ],
    };
    let mut parse = parse_table(&[0, 1, 2]);
    minimize_lex_table(&mut table, &mut parse);
    assert_eq!(table.states.len(), 5);
    let ids = lex_state_ids(&parse);
    assert_eq!(ids[0], 0);
    assert_ne!(ids[1], ids[2]);
}

#[test]
fn differences_are_found_however_deep() {
    // A chain that ends in different tokens keeps all of its links apart.
    let mut table = LexTable {
        states: vec![
            state(None, &[('a', 1), ('b', 4)]),
            state(None, &[('x', 2)]),
            state(None, &[('x', 3)]),
            state(Some(1), &[]),
            state(None, &[('x', 5)]),
            state(None, &[('x', 6)]),
            state(Some(2), &[]),
        ],
    };
    let mut parse = parse_table(&[0]);
    minimize_lex_table(&mut table, &mut parse);
    assert_eq!(table.states.len(), 7);
}

#[test]
fn first_state_is_not_joined() {
    let mut table = LexTable { states: vec![state(Some(1), &[]), state(Some(1), &[]), state(Some(1), &[])] };
    let mut parse = parse_table(&[2, 0, 1]);
    minimize_lex_table(&mut table, &mut parse);
    assert_eq!(table.states.len(), 2);
    assert_eq!(lex_state_ids(&parse), vec![1, 0, 1]);
}

#[test]
fn separators_keep_states_apart() {
    let mut skipping = state(None, &[('x', 0)]);
    skipping.advance_actions[0].1.in_main_token = false;
    let mut table = LexTable { states: vec![state(None, &[]), state(None, &[('x', 0)]), skipping] };
    let mut parse = parse_table(&[0]);
    minimize_lex_table(&mut table, &mut parse);
    assert_eq!(table.states.len(), 3);
}

#[test]
fn targets_of_the_end_are_not_compared() {
    // States 1 and 2 go to different states at the end of the input, and are joined.
    let ending = |target: u32| LexState { accept_action: None, eof_action: Some(to(target)), advance_actions: vec![] };
    let mut table =
        LexTable { states: vec![state(None, &[]), ending(3), ending(4), state(Some(1), &[]), state(Some(2), &[])] };
    let mut parse = parse_table(&[1, 2, 3, 4]);
    minimize_lex_table(&mut table, &mut parse);
    let ids = lex_state_ids(&parse);
    assert_eq!(ids[0], ids[1]);
    assert_ne!(ids[2], ids[3]);
    assert_eq!(table.states[ids[0] as usize].eof_action, Some(to(ids[2])));
}

#[test]
fn states_differ_by_the_groups_they_lead_to() {
    let left = state(None, &[('a', 1), ('b', 2)]);
    let right = state(None, &[('a', 2), ('b', 1)]);
    assert!(!lex_states_differ(&left, &right, &[0, 5, 5]));
    assert!(lex_states_differ(&left, &right, &[0, 5, 6]));
    // Only actions that both states have are compared.
    assert!(!lex_states_differ(&left, &state(None, &[('a', 1)]), &[0, 5, 6]));
}

#[test]
fn states_are_sorted_after_the_first() {
    let mut table = LexTable {
        states: vec![
            state(Some(9), &[('a', 1), ('b', 2), ('c', 3)]),
            state(Some(5), &[('z', 3)]),
            state(None, &[('y', 1)]),
            state(Some(2), &[]),
        ],
    };
    let mut parse = parse_table(&[0, 1, 2, 3]);
    sort_states(&mut table, &mut parse);
    assert_eq!(
        describe(&table),
        vec![
            (Some(9), vec![(0x61, 3), (0x62, 1), (0x63, 2)]),
            (None, vec![(0x79, 3)]),
            (Some(2), vec![]),
            (Some(5), vec![(0x7a, 2)]),
        ]
    );
    assert_eq!(lex_state_ids(&parse), vec![0, 3, 1, 2]);
}

#[test]
fn equal_states_keep_their_order() {
    let mut table = LexTable {
        states: vec![state(None, &[]), state(Some(1), &[]), state(Some(0), &[]), state(Some(1), &[])],
    };
    let mut parse = parse_table(&[1, 3, 2]);
    sort_states(&mut table, &mut parse);
    assert_eq!(lex_state_ids(&parse), vec![2, 3, 1]);
}

#[test]
fn states_are_sorted_by_end_and_actions_too() {
    let mut ending = state(Some(1), &[]);
    ending.eof_action = Some(to(0));
    let mut table = LexTable {
        states: vec![
            state(None, &[]),
            ending,
            state(Some(1), &[('b', 0)]),
            state(Some(1), &[('a', 0), ('b', 0)]),
            state(Some(1), &[('a', 0)]),
        ],
    };
    let mut parse = parse_table(&[1, 2, 3, 4]);
    sort_states(&mut table, &mut parse);
    // No end first; then by the first action; a list that goes on comes later.
    assert_eq!(lex_state_ids(&parse), vec![4, 3, 2, 1]);
}
