use mileage::set::{CharSet, CharSetBuf};
use mileage::CharRange;

fn build(ranges: &[(char, char)]) -> CharSetBuf {
    let v: Vec<CharRange> = ranges
        .iter()
        .map(|&(lo, hi)| CharRange::closed(lo, hi))
        .collect();
    CharSetBuf::from_ranges(&v)
}

#[test]
fn insert_range() {
    let test_data = vec![
        (vec![('a', 'c')], ('z', 'a') /* empty */, vec![('a', 'c')]),
        (vec![], ('m', 'm'), vec![('m', 'm')]),
        (vec![('m', 'm')], ('l', 'l'), vec![('l', 'm')]),
        (vec![('m', 'm')], ('n', 'n'), vec![('m', 'n')]),
        (vec![('m', 'm')], ('k', 'k'), vec![('k', 'k'), ('m', 'm')]),
        (vec![('m', 'm')], ('o', 'o'), vec![('m', 'm'), ('o', 'o')]),
        (vec![('l', 'l'), ('n', 'n')], ('m', 'm'), vec![('l', 'n')]),
        (vec![('l', 'n')], ('m', 'm'), vec![('l', 'n')]),
        (vec![('a', 'c'), ('e', 'g')], ('d', 'd'), vec![('a', 'g')]),
        (vec![('a', 'c'), ('e', 'g')], ('b', 'f'), vec![('a', 'g')]),
        (vec![('c', 'e'), ('g', 'i')], ('a', 'f'), vec![('a', 'i')]),
        (vec![('c', 'e'), ('g', 'i')], ('f', 'k'), vec![('c', 'k')]),
        (
            vec![('a', 'b'), ('h', 'j')],
            ('d', 'f'),
            vec![('a', 'b'), ('d', 'f'), ('h', 'j')],
        ),
    ];

    for (set, diff, result) in test_data {
        let mut set = build(&set);
        set.insert_range(CharRange::closed(diff.0, diff.1));
        let result = build(&result);
        assert_eq!(set, result);
    }
}

#[test]
fn remove_range() {
    let test_data = vec![
        (vec![('a', 'c')], ('z', 'a') /* empty */, vec![('a', 'c')]),
        (vec![], ('a', 'a'), vec![]),
        (vec![('a', 'a')], ('a', 'a'), vec![]),
        (vec![('a', 'c')], ('a', 'a'), vec![('b', 'c')]),
        (vec![('a', 'c')], ('b', 'b'), vec![('a', 'a'), ('c', 'c')]),
        (vec![('a', 'c')], ('c', 'c'), vec![('a', 'b')]),
        (
            vec![('a', 'b'), ('d', 'e')],
            ('b', 'd'),
            vec![('a', 'a'), ('e', 'e')],
        ),
    ];

    for (set, diff, result) in test_data {
        let mut set = build(&set);
        set.remove_range(CharRange::closed(diff.0, diff.1));
        let result = build(&result);
        assert_eq!(set, result);
    }
}

#[test]
fn insert_merges_neighbours() {
    let mut set = CharSetBuf::from_range(CharRange::closed('a', 'b'));
    set.insert('d');
    set.insert('c');
    assert_eq!(set, CharSetBuf::from_range(CharRange::closed('a', 'd')));
}

#[test]
fn remove_splits() {
    let mut set = CharSetBuf::from_range(CharRange::closed('a', 'c'));
    set.remove('b');
    assert_eq!(set, CharSetBuf::from_chars(&['a', 'c']));
}

#[test]
fn insert_merges_across_surrogate_gap() {
    // U+D7FF and U+E000 are adjacent: a range ending at one touches a
    // range starting at the other and the two must merge.
    let mut set = CharSetBuf::from_range(CharRange::closed('\u{D000}', '\u{D7FF}'));
    set.insert_range(CharRange::closed('\u{E000}', '\u{E100}'));
    assert_eq!(
        set,
        CharSetBuf::from_range(CharRange::closed('\u{D000}', '\u{E100}'))
    );
}

#[test]
fn insert_range_idempotent() {
    let mut set = build(&[('a', 'c'), ('x', 'z')]);
    set.insert_range(CharRange::closed('b', 'y'));
    let once = set.clone();
    set.insert_range(CharRange::closed('b', 'y'));
    assert_eq!(set, once);
}

#[test]
fn insert_then_remove_restores_disjoint() {
    let before = build(&[('a', 'c'), ('x', 'z')]);
    let mut set = before.clone();
    set.insert_range(CharRange::closed('g', 'j'));
    set.remove_range(CharRange::closed('g', 'j'));
    assert_eq!(set, before);

    // When the removed range met prior contents, what is left is the
    // prior contents less the range.
    let mut set = build(&[('a', 'c')]);
    set.insert_range(CharRange::closed('c', 'e'));
    set.remove_range(CharRange::closed('c', 'e'));
    assert_eq!(set, build(&[('a', 'b')]));
}

#[test]
fn view_lookups() {
    let ranges = [CharRange::closed('a', 'c'), CharRange::closed('x', 'z')];
    let set = CharSet::from_raw(&ranges);
    assert!(set.contains('a'));
    assert!(set.contains('b'));
    assert!(set.contains('z'));
    assert!(!set.contains('d'));
    assert!(!set.contains('w'));
    assert_eq!(set.len(), 6);
    assert!(!set.is_empty());
    assert!(CharSet::empty().is_empty());
    assert_eq!(CharSet::empty().len(), 0);
    assert_eq!(set.chars(), vec!['a', 'b', 'c', 'x', 'y', 'z']);

    let mut it = set.ranges();
    assert_eq!(it.len(), 2);
    assert_eq!(it.next(), Some(CharRange::closed('a', 'c')));
    assert_eq!(it.next_back(), Some(CharRange::closed('x', 'z')));
    assert_eq!(it.next(), None);
    assert_eq!(it.next_back(), None);
}

#[test]
fn buf_lookups() {
    let mut set = CharSetBuf::new();
    assert!(set.is_empty());
    set.extend_chars(&['q', 'a', 'b']);
    assert!(set.contains('a'));
    assert!(set.contains('q'));
    assert!(!set.contains('c'));
    assert_eq!(set.len(), 3);
    assert_eq!(set.as_set().chars(), vec!['a', 'b', 'q']);
    set.clear();
    assert!(set.is_empty());
    assert_eq!(CharSetBuf::with_capacity(8).len(), 0);
    assert_eq!(CharSetBuf::default(), CharSetBuf::new());
}
