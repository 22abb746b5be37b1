use packed_leaf::{Error, PackedLeaf, UpdateMap, Value};
use std::collections::BTreeMap;

#[test]
fn push_get_and_full_leaf_of_u64() {
    let mut leaf = PackedLeaf::<u64>::empty();
    assert_eq!(leaf.push(0x01), Ok(()));
    assert_eq!(leaf.push(0x02), Ok(()));
    assert_eq!(leaf.length(), 2);
    assert_eq!(leaf.get(0), Some(0x01));
    assert_eq!(leaf.get(1), Some(0x02));
    assert_eq!(leaf.get(2), None);
    assert_eq!(leaf.push(0x03), Ok(()));
    assert_eq!(leaf.push(0x04), Ok(()));
    assert_eq!(leaf.length(), 4);
    assert_eq!(leaf.push(0x05), Err(Error::PackedLeafFull { len: 4 }));
    assert_eq!(leaf.length(), 4);
    let hash = leaf.tree_hash();
    assert_eq!(&hash[0..8], &[1, 0, 0, 0, 0, 0, 0, 0]);
    assert_eq!(&hash[24..32], &[4, 0, 0, 0, 0, 0, 0, 0]);
}

#[test]
fn pushes_fill_a_byte_leaf_then_fail() {
    let mut leaf = PackedLeaf::<u8>::empty();
    for i in 0..32u8 {
        assert_eq!(leaf.push(i.wrapping_mul(7)), Ok(()));
        assert_eq!(leaf.length(), i as usize + 1);
    }
    assert_eq!(leaf.push(9), Err(Error::PackedLeafFull { len: 32 }));
    for i in 0..32u8 {
        assert_eq!(leaf.get(i as usize), Some(i.wrapping_mul(7)));
    }
}

#[test]
fn overwrite_then_get_returns_new_value() {
    let mut leaf = PackedLeaf::<u16>::repeat(0x1111, 5);
    assert_eq!(leaf.insert_mut(3, 0xBEEF), Ok(()));
    assert_eq!(leaf.get(3), Some(0xBEEF));
    assert_eq!(leaf.get(2), Some(0x1111));
    assert_eq!(leaf.get(4), Some(0x1111));
    assert_eq!(leaf.length(), 5);
    assert_eq!(leaf.tree_hash()[6], 0xEF);
    assert_eq!(leaf.tree_hash()[7], 0xBE);
}

#[test]
fn insert_at_frontier_appends() {
    let mut leaf = PackedLeaf::<u32>::single(7);
    assert_eq!(leaf.insert_mut(1, 0x0102_0304), Ok(()));
    assert_eq!(leaf.length(), 2);
    assert_eq!(leaf.get(1), Some(0x0102_0304));
    assert_eq!(&leaf.tree_hash()[4..8], &[4, 3, 2, 1]);
}

#[test]
fn insert_out_of_chunk_is_refused() {
    let mut leaf = PackedLeaf::<u64>::repeat(5, 2);
    let before = leaf.clone();
    assert_eq!(
        leaf.insert_mut(4, 1),
        Err(Error::PackedLeafOutOfBounds { sub_index: 32, len: 2 })
    );
    assert_eq!(
        leaf.insert_mut(100, 1),
        Err(Error::PackedLeafOutOfBounds { sub_index: 800, len: 2 })
    );
    assert_eq!(leaf, before);
    let mut bytes = PackedLeaf::<u8>::empty();
    assert_eq!(
        bytes.insert_mut(32, 1),
        Err(Error::PackedLeafOutOfBounds { sub_index: 32, len: 0 })
    );
}

#[test]
fn insert_at_index_leaves_source_unchanged() {
    let leaf = PackedLeaf::<u64>::repeat(9, 3);
    let copy = leaf.clone();
    let edited = leaf.insert_at_index(1, 42).unwrap();
    assert_eq!(leaf, copy);
    for j in 0..3 {
        assert_eq!(leaf.get(j), Some(9));
    }
    assert_eq!(edited.get(1), Some(42));
    assert_eq!(edited.get(0), Some(9));
    let appended = leaf.insert_at_index(3, 11).unwrap();
    assert_eq!(appended.length(), 4);
    assert_eq!(leaf.length(), 3);
    assert_eq!(
        leaf.insert_at_index(4, 1),
        Err(Error::PackedLeafOutOfBounds { sub_index: 32, len: 3 })
    );
}

#[test]
fn repeat_packs_copies_and_zero_tail() {
    let leaf = PackedLeaf::<u16>::repeat(0xAABB, 3);
    assert_eq!(leaf.length(), 3);
    let hash = leaf.tree_hash();
    assert_eq!(&hash[0..6], &[0xBB, 0xAA, 0xBB, 0xAA, 0xBB, 0xAA]);
    assert!(hash[6..].iter().all(|b| *b == 0));
    for i in 0..3 {
        assert_eq!(leaf.get(i), Some(0xAABB));
    }
    assert_eq!(leaf.get(3), None);
}

#[test]
fn repeat_full_and_none() {
    let full = PackedLeaf::<u32>::repeat(u32::MAX, 8);
    assert_eq!(full.length(), 8);
    assert_eq!(full.tree_hash(), [0xFF; 32]);
    let none = PackedLeaf::<u32>::repeat(u32::MAX, 0);
    assert_eq!(none, PackedLeaf::<u32>::empty());
}

#[test]
fn empty_and_single() {
    let empty = PackedLeaf::<u64>::empty();
    assert_eq!(empty.length(), 0);
    assert_eq!(empty.tree_hash(), [0; 32]);
    assert_eq!(empty.get(0), None);
    let single = PackedLeaf::<u64>::single(0x0807_0605_0403_0201);
    assert_eq!(single.length(), 1);
    assert_eq!(single.get(0), Some(0x0807_0605_0403_0201));
    let mut expected = [0u8; 32];
    expected[..8].copy_from_slice(&[1, 2, 3, 4, 5, 6, 7, 8]);
    assert_eq!(single.tree_hash(), expected);
}

#[test]
fn update_matches_chained_inserts() {
    let leaf = PackedLeaf::<u64>::repeat(1, 2);
    let mut updates: BTreeMap<usize, u64> = BTreeMap::new();
    updates.insert(3, 100);
    updates.insert(4, 20);
    updates.insert(6, 30);
    updates.insert(5, 40);
    updates.insert(8, 50);
    let batched = leaf.update(4, leaf.tree_hash(), &updates).unwrap();
    let one_by_one = leaf
        .insert_at_index(0, 20)
        .unwrap()
        .insert_at_index(1, 40)
        .unwrap()
        .insert_at_index(2, 30)
        .unwrap();
    assert_eq!(batched, one_by_one);
    assert_eq!(batched.length(), 3);
    assert_eq!(batched.get(0), Some(20));
    assert_eq!(batched.get(1), Some(40));
    assert_eq!(batched.get(2), Some(30));
    assert_eq!(leaf.get(0), Some(1));
}

#[test]
fn update_without_pending_writes_is_a_copy() {
    let leaf = PackedLeaf::<u8>::repeat(3, 10);
    let updates: BTreeMap<usize, u8> = BTreeMap::new();
    assert_eq!(leaf.update(0, [0; 32], &updates), Ok(leaf.clone()));
}

#[test]
fn entries_in_range_are_ascending_and_bounded() {
    let mut updates: BTreeMap<usize, u32> = BTreeMap::new();
    updates.insert(10, 1);
    updates.insert(2, 2);
    updates.insert(7, 3);
    updates.insert(5, 4);
    assert_eq!(updates.entries_in_range(2, 10), vec![(2, 2), (5, 4), (7, 3)]);
    assert_eq!(updates.entries_in_range(6, 6), vec![]);
    assert_eq!(updates.entries_in_range(9, 3), vec![]);
}

#[test]
fn packing_factors_and_encodings() {
    assert_eq!(u8::packing_factor(), 32);
    assert_eq!(u16::packing_factor(), 16);
    assert_eq!(u32::packing_factor(), 8);
    assert_eq!(u64::packing_factor(), 4);
    assert_eq!(0x0102u16.packed_bytes(), vec![2, 1]);
    assert_eq!(0x0102_0304u32.packed_bytes(), vec![4, 3, 2, 1]);
    assert_eq!(7u8.packed_bytes(), vec![7]);
    assert_eq!(u64::from_packed_bytes(&[1, 0, 0, 0, 0, 0, 0, 0x80]), 0x8000_0000_0000_0001);
    assert_eq!(u16::from_packed_bytes(&[0x34, 0x12]), 0x1234);
}
