use mileage::map::CharMapRef;
use mileage::CharRange;

#[test]
fn map_lookups() {
    let ranges = [CharRange::closed('a', 'c'), CharRange::closed('x', 'z')];
    let values = ["low", "high"];
    let map = CharMapRef::from_raw(&ranges, &values);

    assert!(map.contains('b'));
    assert!(!map.contains('m'));
    assert_eq!(map.len(), 6);
    assert!(!map.is_empty());
    assert_eq!(map.get('a'), Some(&"low"));
    assert_eq!(map.get('y'), Some(&"high"));
    assert_eq!(map.get('d'), None);

    let empty: CharMapRef<'_, u32> = CharMapRef::empty();
    assert!(empty.is_empty());
    assert_eq!(empty.len(), 0);
    assert_eq!(empty.get('a'), None);
}

#[test]
fn map_iteration() {
    let ranges = [CharRange::closed('a', 'b'), CharRange::closed('d', 'd')];
    let values = [1u32, 2u32];
    let map = CharMapRef::from_raw(&ranges, &values);

    assert_eq!(map.chars(), vec!['a', 'b', 'd']);

    let mut rit = map.ranges();
    assert_eq!(rit.next(), Some(CharRange::closed('a', 'b')));
    assert_eq!(rit.next(), Some(CharRange::closed('d', 'd')));
    assert_eq!(rit.next(), None);

    let mut it = map.range_values();
    assert_eq!(it.len(), 2);
    assert_eq!(it.next(), Some((CharRange::closed('a', 'b'), &1u32)));
    assert_eq!(it.next(), Some((CharRange::closed('d', 'd'), &2u32)));
    assert_eq!(it.next(), None);
}
