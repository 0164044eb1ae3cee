use xxl_container::bitsetfile::bit_map_offset_and_bit_mask;
use xxl_container::bitsetfile::max_id_from;
use xxl_container::bitsetfile::BitSetFile;

#[test]
fn bit_map_offset_and_bit_mask_test() {
    assert_eq!(bit_map_offset_and_bit_mask(0), (0, 0b00000001));
    assert_eq!(bit_map_offset_and_bit_mask(1), (0, 0b00000010));
    assert_eq!(bit_map_offset_and_bit_mask(7), (0, 0b10000000));
    assert_eq!(bit_map_offset_and_bit_mask(8), (1, 0b00000001));
    assert_eq!(bit_map_offset_and_bit_mask(9), (1, 0b00000010));
    assert_eq!(bit_map_offset_and_bit_mask(15), (1, 0b10000000));
    assert_eq!(bit_map_offset_and_bit_mask(16), (2, 0b00000001));
    assert_eq!(bit_map_offset_and_bit_mask(17), (2, 0b00000010));
    assert_eq!(bit_map_offset_and_bit_mask(23), (2, 0b10000000));
    assert_eq!(bit_map_offset_and_bit_mask(24), (3, 0b00000001));
    assert_eq!(bit_map_offset_and_bit_mask(25), (3, 0b00000010));
    assert_eq!(bit_map_offset_and_bit_mask(31), (3, 0b10000000));
}

#[test]
fn max_id_from_test() {
    assert_eq!(max_id_from(0, 0b00000000), None);
    assert_eq!(max_id_from(0, 0b00000001), Some(0));
    assert_eq!(max_id_from(0, 0b00000010), Some(1));
    assert_eq!(max_id_from(0, 0b10000000), Some(7));
    assert_eq!(max_id_from(1, 0b00000001), Some(8));
    assert_eq!(max_id_from(1, 0b00000010), Some(9));
    assert_eq!(max_id_from(1, 0b10000000), Some(15));
    assert_eq!(max_id_from(2, 0b00000001), Some(16));
    assert_eq!(max_id_from(2, 0b00000010), Some(17));
    assert_eq!(max_id_from(2, 0b10000000), Some(23));
    assert_eq!(max_id_from(3, 0b00000001), Some(24));
    assert_eq!(max_id_from(3, 0b00000010), Some(25));
    assert_eq!(max_id_from(3, 0b10000000), Some(31));
    assert_eq!(max_id_from(4, 0b00000001), Some(32));
}

#[test]
fn bit_set_file_new() {
    let bit_set_file = BitSetFile::new();
    assert!(bit_set_file.is_empty());
    assert_eq!(bit_set_file.size(), 0);
    assert_eq!(bit_set_file.max_bit(), None);
    assert_eq!(bit_set_file.file_len(), 16);
}

#[test]
fn bit_set_file_insert() {
    let mut bit_set_file = BitSetFile::new();
    assert!(bit_set_file.is_empty());
    assert_eq!(bit_set_file.size(), 0);
    assert_eq!(bit_set_file.max_bit(), None);

    let was_not_set = bit_set_file.insert(1).unwrap();
    assert_eq!(was_not_set, true);
    assert!(!bit_set_file.is_empty());
    assert_eq!(bit_set_file.size(), 1);
    assert_eq!(bit_set_file.max_bit(), Some(1));

    let was_not_set = bit_set_file.insert(0).unwrap();
    assert_eq!(was_not_set, true);
    assert!(!bit_set_file.is_empty());
    assert_eq!(bit_set_file.size(), 2);
    assert_eq!(bit_set_file.max_bit(), Some(1));

    let was_not_set = bit_set_file.insert(16).unwrap();
    assert_eq!(was_not_set, true);
    assert!(!bit_set_file.is_empty());
    assert_eq!(bit_set_file.size(), 3);
    assert_eq!(bit_set_file.max_bit(), Some(16));

    let was_not_set = bit_set_file.insert(16).unwrap();
    assert_eq!(was_not_set, false);
    assert!(!bit_set_file.is_empty());
    assert_eq!(bit_set_file.size(), 3);
    assert_eq!(bit_set_file.max_bit(), Some(16));

    assert_eq!(bit_set_file.file_len(), 3 + 16);
}

#[test]
fn bit_set_file_remove() {
    let mut bit_set_file = BitSetFile::new();
    assert!(bit_set_file.is_empty());
    assert_eq!(bit_set_file.size(), 0);
    assert_eq!(bit_set_file.max_bit(), None);

    let was_set = bit_set_file.remove(1).unwrap();
    assert_eq!(was_set, false);
    assert!(bit_set_file.is_empty());
    assert_eq!(bit_set_file.size(), 0);
    assert_eq!(bit_set_file.max_bit(), None);

    let was_not_set = bit_set_file.insert(32).unwrap();
    assert_eq!(was_not_set, true);

    let was_set = bit_set_file.remove(32).unwrap();
    assert_eq!(was_set, true);
    assert!(bit_set_file.is_empty());
    assert_eq!(bit_set_file.size(), 0);
    assert_eq!(bit_set_file.max_bit(), None);

    assert_eq!(bit_set_file.file_len(), 16);
}

#[test]
fn bitset_shrink_to_next_highest() {
    // Insert bits 1, 0 and 16, then drop the highest: the maximum falls
    // back to the next-highest member and the image shrinks with it.
    let mut bits = BitSetFile::new();
    bits.insert(1).unwrap();
    bits.insert(0).unwrap();
    bits.insert(16).unwrap();
    assert_eq!(bits.max_bit(), Some(16));
    assert_eq!(bits.size(), 3);
    assert_eq!(bits.file_len(), 16 + 3);

    let was_set = bits.remove(16).unwrap();
    assert_eq!(was_set, true);
    assert_eq!(bits.max_bit(), Some(1));
    assert_eq!(bits.size(), 2);
    assert_eq!(bits.file_len(), 16 + 1);
}

#[test]
fn bitset_contains_and_clear() {
    let mut bits = BitSetFile::new();
    bits.insert(3).unwrap();
    bits.insert(9).unwrap();
    assert_eq!(bits.contains(3).unwrap(), true);
    assert_eq!(bits.contains(4).unwrap(), false);
    assert_eq!(bits.contains(9).unwrap(), true);
    assert_eq!(bits.contains(100).unwrap(), false);
    bits.clear().unwrap();
    assert_eq!(bits.contains(3).unwrap(), false);
    assert_eq!(bits.size(), 0);
    assert_eq!(bits.file_len(), 16);
}

#[test]
fn bitset_header_round_trip() {
    // Writing the header and reopening the image reconstructs the set.
    let mut bits = BitSetFile::new();
    bits.insert(5).unwrap();
    bits.insert(21).unwrap();
    bits.write_header();
    let image = bits.as_bytes().clone();
    assert_eq!(image.len(), 16 + 3);

    let reopened = BitSetFile::open(image);
    assert_eq!(reopened.size(), 2);
    assert_eq!(reopened.max_bit(), Some(21));
    assert_eq!(reopened.contains(5).unwrap(), true);
    assert_eq!(reopened.contains(21).unwrap(), true);
    assert_eq!(reopened.contains(6).unwrap(), false);
}

#[test]
fn bitset_iterator_mixed_cursors() {
    // The two ends never yield the same member twice, and once they cross
    // both stay exhausted.
    let mut bits = BitSetFile::new();
    bits.insert(1).unwrap();
    bits.insert(4).unwrap();
    bits.insert(9).unwrap();
    bits.insert(12).unwrap();
    let mut it = bits.contains_iter();
    assert_eq!(it.next(), Some(1));
    assert_eq!(it.next_back(), Some(12));
    assert_eq!(it.next(), Some(4));
    assert_eq!(it.next_back(), Some(9));
    assert_eq!(it.next(), None);
    assert_eq!(it.next_back(), None);
    assert_eq!(it.next(), None);
}

#[test]
fn bitset_iterator_walks_both_ways() {
    let mut bits = BitSetFile::new();
    bits.insert(2).unwrap();
    bits.insert(5).unwrap();
    bits.insert(11).unwrap();

    let mut forward = bits.contains_iter();
    assert_eq!(forward.next(), Some(2));
    assert_eq!(forward.next(), Some(5));
    assert_eq!(forward.next(), Some(11));
    assert_eq!(forward.next(), None);

    let mut backward = bits.contains_iter();
    assert_eq!(backward.len(), 3);
    assert_eq!(backward.size_hint(), (0, Some(3)));
    assert_eq!(backward.next_back(), Some(11));
    assert_eq!(backward.next_back(), Some(5));
    assert_eq!(backward.next_back(), Some(2));
    assert_eq!(backward.next_back(), None);
}
