use mileage::trie::{generate, CharTrie, TrieOverflow};
use mileage::CharRange;

#[test]
fn new_with_ascii() {
    let data = generate(|c: char| c.is_ascii()).unwrap();

    // The generated tables.
    let ascii: [u64; 32] = [
        0xFFFF_FFFF_FFFF_FFFF,
        0xFFFF_FFFF_FFFF_FFFF,
        0, 0, 0, 0, 0, 0, 0, 0, 0, 0, 0, 0, 0, 0,
        0, 0, 0, 0, 0, 0, 0, 0, 0, 0, 0, 0, 0, 0, 0, 0,
    ];
    assert_eq!(data.level1, ascii);
    assert_eq!(data.level2, [0u8; 992]);
    assert_eq!(data.level3_first, [0u8; 256]);
    assert_eq!(data.level3_second, vec![[0u8; 64]]);
    assert_eq!(data.leaves, vec![0u64]);

    // Said trie actually in memory.
    let trie = CharTrie::from_raw(
        &data.level1,
        &data.level2,
        (&data.level3_first, data.level3_second.as_slice()),
        data.leaves.as_slice(),
    );

    // The trie stores the correct set.
    for c in CharRange::full().to_vec() {
        assert_eq!(trie.contains(c), c.is_ascii(), "{:?}", c);
    }
}

#[test]
fn round_trip_scattered() {
    // A predicate with structure in every region of the trie.
    let p = |c: char| {
        let v = c as u32;
        v % 5 == 0 && v % 7 != 0 && (v < 0x3000 || (0x2_0000..0x2_0400).contains(&v))
    };
    let data = generate(p).unwrap();
    let trie = CharTrie::from_raw(
        &data.level1,
        &data.level2,
        (&data.level3_first, data.level3_second.as_slice()),
        data.leaves.as_slice(),
    );
    for c in CharRange::full().to_vec() {
        assert_eq!(trie.contains(c), p(c), "{:?}", c);
    }
}

#[test]
fn optimal_tables() {
    let p = |c: char| {
        let v = c as u32;
        (0x900..0xA00).contains(&v) || (0x4_0000..0x4_1000).contains(&v)
    };
    let data = generate(p).unwrap();
    // No unused tail leaves: the largest referenced index is the last.
    let max_ref = data
        .level2
        .iter()
        .copied()
        .chain(data.level3_second.iter().flat_map(|b| b.iter().copied()))
        .max()
        .unwrap() as usize;
    assert_eq!(data.leaves.len(), max_ref + 1);
    // No unused second-level blocks.
    let max_first = data.level3_first.iter().copied().max().unwrap() as usize;
    assert_eq!(data.level3_second.len(), max_first + 1);
    // All leaves distinct.
    for i in 0..data.leaves.len() {
        for j in 0..i {
            assert_ne!(data.leaves[i], data.leaves[j]);
        }
    }
    // All second-level blocks distinct.
    for i in 0..data.level3_second.len() {
        for j in 0..i {
            assert_ne!(data.level3_second[i], data.level3_second[j]);
        }
    }
}

#[test]
fn not_compressible() {
    // Every 64-codepoint chunk above U+0800 gets its own word: far more
    // than 256 distinct leaves.
    let p = |c: char| {
        let v = c as u32;
        ((v >> 6) >> (v & 63)) & 1 == 1
    };
    assert_eq!(generate(p).err(), Some(TrieOverflow));
}
