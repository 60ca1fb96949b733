use wordle_solve::letters::{LetterMap, LetterSet};

#[test]
fn letter_set_holds_each_letter_once() {
    let mut set = LetterSet::new();
    assert_eq!(set.len(), 0);
    assert!(!set.contains('a'));
    set.insert('a');
    set.insert('b');
    set.insert('a');
    assert_eq!(set.len(), 2);
    assert!(set.contains('a'));
    assert!(set.contains('b'));
    assert!(!set.contains('c'));
    assert_eq!(set.get(0), 'a');
    assert_eq!(set.get(1), 'b');
}

#[test]
fn letter_set_takes_over_another() {
    let mut set = LetterSet::new();
    set.insert('a');
    let mut other = LetterSet::new();
    other.insert('b');
    other.insert('a');
    other.insert('c');
    set.insert_all(&other);
    assert_eq!(set.len(), 3);
    assert!(set.contains('a') && set.contains('b') && set.contains('c'));
}

#[test]
fn letter_map_keeps_the_last_count() {
    let mut table = LetterMap::new();
    assert_eq!(table.get('e'), None);
    table.insert('e', 2);
    table.insert('t', 1);
    table.insert('e', 5);
    assert_eq!(table.len(), 2);
    assert_eq!(table.get('e'), Some(5));
    assert_eq!(table.get('t'), Some(1));
    assert_eq!(table.get_entry(0), ('e', 5));
    assert_eq!(table.get_entry(1), ('t', 1));
}

#[test]
fn letter_map_raises_to_the_larger_counts() {
    let mut table = LetterMap::new();
    table.insert('a', 2);
    table.insert('b', 1);
    let mut other = LetterMap::new();
    other.insert('a', 1);
    other.insert('b', 3);
    other.insert('c', 4);
    table.raise_to(&other);
    assert_eq!(table.get('a'), Some(2));
    assert_eq!(table.get('b'), Some(3));
    assert_eq!(table.get('c'), Some(4));
    assert_eq!(table.len(), 3);
}

#[test]
fn letter_map_lowers_to_the_smaller_counts() {
    let mut table = LetterMap::new();
    table.insert('a', 2);
    table.insert('b', 1);
    let mut other = LetterMap::new();
    other.insert('a', 1);
    other.insert('b', 3);
    other.insert('c', 4);
    table.lower_to(&other);
    assert_eq!(table.get('a'), Some(1));
    assert_eq!(table.get('b'), Some(1));
    assert_eq!(table.get('c'), Some(4));
    assert_eq!(table.len(), 3);
}
