use mileage::range::CharBound;
use mileage::{CharRange, AFTER_SURROGATE, BEFORE_SURROGATE};

fn trivial(r: CharRange) -> impl Iterator<Item = char> + DoubleEndedIterator {
    (r.low as u32..=r.high as u32).filter_map(char::from_u32)
}

#[test]
fn surrogates_correct() {
    assert!(char::from_u32(BEFORE_SURROGATE as u32 + 1).is_none());
    assert!(char::from_u32(AFTER_SURROGATE as u32 - 1).is_none());
}

#[test]
fn exact_size_iterator() {
    // Test that the exact-size claim is actually true on a simple case.
    let r = CharRange::closed('a', 'z');
    assert_eq!(
        r.to_vec()
            .into_iter()
            .enumerate()
            .rev()
            .collect::<Vec<_>>(),
        trivial(r)
            .enumerate()
            .collect::<Vec<_>>()
            .into_iter()
            .rev()
            .collect::<Vec<_>>(),
    );
}

#[test]
fn full_range() {
    let r = CharRange::full();
    let mut it = r.iter();
    let mut count = 0usize;
    while it.next().is_some() {
        count += 1;
    }
    assert_eq!(count, trivial(r).count());
    assert_eq!(r.to_vec(), trivial(r).collect::<Vec<_>>());
}

#[test]
fn reverse_range() {
    let r = CharRange::full();
    assert_eq!(
        r.to_vec_rev(),
        trivial(r).rev().collect::<Vec<_>>(),
    );
}

#[test]
fn surrogate_hug() {
    let r = CharRange::closed(BEFORE_SURROGATE, AFTER_SURROGATE);
    let mut it = r.iter();
    let mut count = 0usize;
    while it.next().is_some() {
        count += 1;
    }
    assert_eq!(count, trivial(r).count());
    assert_eq!(r.len(), trivial(r).count());
    assert_eq!(r.to_vec(), r.to_vec());
}

#[test]
fn alphabet() {
    let r = CharRange::closed('a', 'z');
    let mut it = r.iter();
    let mut count = 0usize;
    while it.next().is_some() {
        count += 1;
    }
    assert_eq!(count, trivial(r).count());
    assert_eq!(r.len(), trivial(r).count());
    assert_eq!(r.to_vec(), trivial(r).collect::<Vec<_>>());
}

#[test]
fn alphabet_exact() {
    let r = CharRange::from_bounds(CharBound::Included('a'), CharBound::Included('z'));
    let expected: Vec<char> = "abcdefghijklmnopqrstuvwxyz".chars().collect();
    assert_eq!(r.to_vec(), expected);
    assert_eq!(r.len(), 26);
}

#[test]
fn surrogate_hug_exact() {
    let r = CharRange::closed('\u{D7FF}', '\u{E000}');
    assert_eq!(r.to_vec(), vec!['\u{D7FF}', '\u{E000}']);
    assert_eq!(r.len(), 2);
}

#[test]
fn full_range_exact() {
    let r = CharRange::from_bounds(CharBound::Unbounded, CharBound::Unbounded);
    let v = r.to_vec();
    assert_eq!(v.len(), 0x10F800);
    assert_eq!(r.len(), 0x10F800);
    assert_eq!(v[0], '\0');
    assert_eq!(v[0xD7FF], '\u{D7FF}');
    assert_eq!(v[0xD800], '\u{E000}');
    assert_eq!(v[v.len() - 1], '\u{10FFFF}');
}

#[test]
fn excluded_bounds() {
    let r = CharRange::from_bounds(
        CharBound::Excluded('\u{D7FF}'),
        CharBound::Included('\u{E000}'),
    );
    assert_eq!(r.to_vec(), vec!['\u{E000}']);
    let r = CharRange::from_bounds(
        CharBound::Included('\u{D7FF}'),
        CharBound::Excluded('\u{E000}'),
    );
    assert_eq!(r.to_vec(), vec!['\u{D7FF}']);
    assert!(CharRange::from_bounds(
        CharBound::Excluded('\u{10FFFF}'),
        CharBound::Unbounded,
    )
    .is_empty());
    assert!(CharRange::from_bounds(CharBound::Unbounded, CharBound::Excluded('\0')).is_empty());
}

#[test]
fn empty_ranges_equal() {
    assert_eq!(CharRange::closed('z', 'a'), CharRange::empty());
    assert!(!CharRange::closed('z', 'a').contains('g'));
    assert!(CharRange::closed('a', 'g').contains('d'));
    assert!(!CharRange::closed('a', 'g').contains('z'));
}

#[test]
fn next_back_steps_high() {
    // Reverse iteration across the surrogate boundary.
    let r = CharRange::closed('\u{D7FE}', '\u{E001}');
    let mut it = r.iter();
    assert_eq!(it.next_back(), Some('\u{E001}'));
    assert_eq!(it.next_back(), Some('\u{E000}'));
    assert_eq!(it.next_back(), Some('\u{D7FF}'));
    assert_eq!(it.next_back(), Some('\u{D7FE}'));
    assert_eq!(it.next_back(), None);
    assert_eq!(it.next(), None);
}

#[test]
fn split_range_halves() {
    let full = CharRange::full();
    let ((a, b), (c, d)) = full.split_range();
    assert_eq!((a, b), (0, 0xD7FF));
    assert_eq!((c, d), (0xE000, 0x10FFFF));

    let r = CharRange::closed('a', 'z');
    let ((a, b), (c, d)) = r.split_range();
    let mut out: Vec<char> = Vec::new();
    for v in a..=b {
        out.push(char::from_u32(v).unwrap());
    }
    if c <= d {
        for v in c..=d {
            out.push(char::from_u32(v).unwrap());
        }
    }
    assert_eq!(out, r.to_vec());

    let hug = CharRange::closed('\u{D7FF}', '\u{E000}');
    let ((a, b), (c, d)) = hug.split_range();
    assert_eq!((a, b), (0xD7FF, 0xD7FF));
    assert_eq!((c, d), (0xE000, 0xE000));
}

#[test]
fn contains_iff_iterated() {
    let r = CharRange::closed('a', 'g');
    for c in ['a', 'd', 'g', 'h', 'z', '\0'] {
        assert_eq!(r.contains(c), r.to_vec().contains(&c));
    }
    let e = CharRange::empty();
    assert!(!e.contains('a'));
    assert!(e.to_vec().is_empty());
}

#[test]
fn no_surrogates_yielded() {
    for c in CharRange::closed('\u{D000}', '\u{E800}').to_vec() {
        assert!(!(0xD800..=0xDFFF).contains(&(c as u32)));
    }
}

#[test]
fn lexicographic_order() {
    let a = CharRange::closed('a', 'c');
    let b = CharRange::closed('a', 'd');
    let c = CharRange::closed('b', 'b');
    assert!(a < b);
    assert!(b < c);
    assert!(a < c);
    assert_eq!(a.partial_cmp(&a), Some(std::cmp::Ordering::Equal));
    assert_eq!(a.partial_cmp(&CharRange::empty()), None);
    assert_eq!(CharRange::empty().partial_cmp(&a), None);
}
