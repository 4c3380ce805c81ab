use lex_tables::character_set::CharacterSet;

#[test]
fn neighbouring_ranges_are_joined() {
    let set = CharacterSet::from_range('a', 'c').add(&CharacterSet::from_range('d', 'f'));
    assert_eq!(set.range_pairs(), vec![(0x61, 0x67)]);
    assert_eq!(set.range_count(), 1);
    let set = set.add(&CharacterSet::from_char('x'));
    assert_eq!(set.range_pairs(), vec![(0x61, 0x67), (0x78, 0x79)]);
    assert_eq!(set.range_count(), 2);
}

#[test]
fn ranges_can_be_given_backwards() {
    assert!(CharacterSet::from_range('c', 'a').equals(&CharacterSet::from_range('a', 'c')));
}

#[test]
fn intersection_is_taken_out_of_both() {
    let mut left = CharacterSet::from_range('a', 'f');
    let mut right = CharacterSet::from_range('d', 'k');
    let both = left.remove_intersection(&mut right);
    assert_eq!(both.range_pairs(), vec![(0x64, 0x67)]);
    assert_eq!(left.range_pairs(), vec![(0x61, 0x64)]);
    assert_eq!(right.range_pairs(), vec![(0x67, 0x6c)]);
}

#[test]
fn sets_are_ordered_by_size_and_then_by_ranges() {
    assert_eq!(CharacterSet::empty().order_key(), vec![0]);
    let set = CharacterSet::from_range('a', 'c').add(&CharacterSet::from_char('x'));
    assert_eq!(set.order_key(), vec![4, 3, 0x61, 1, 0x78]);
}

#[test]
fn shared_characters() {
    let vowels = CharacterSet::from_char('a').add(&CharacterSet::from_char('e'));
    assert!(vowels.shares_char(&CharacterSet::from_range('b', 'f')));
    assert!(!vowels.shares_char(&CharacterSet::from_range('b', 'd')));
    assert!(!vowels.shares_char(&CharacterSet::empty()));
    assert!(vowels.contains('e') && !vowels.contains('f'));
}

#[test]
fn surrogates_are_not_characters() {
    // What is left of a range that spans the surrogates when both ends are taken out.
    let mut gap = CharacterSet::from_range('\u{D7FF}', '\u{E000}');
    let mut ends = CharacterSet::from_char('\u{D7FF}').add(&CharacterSet::from_char('\u{E000}'));
    gap.remove_intersection(&mut ends);
    assert_eq!(gap.range_pairs(), vec![(0xD800, 0xE000)]);
    assert!(!gap.is_empty());
    assert!(!gap.shares_char(&gap));
}
