use xxl_container::blockfilecontainer::BlockFileContainer;
use xxl_container::container::CloneContainer;
use xxl_container::container::Container;
use xxl_container::error::ContainerError;

#[test]
fn blockfilecontainer_reserve() {
    let mut bfc = BlockFileContainer::new_with_block_size(8);
    let id = bfc.reserve().unwrap();
    assert_eq!(id, 0);
    assert_eq!(bfc.size(), 1);
}

#[test]
fn blockfilecontainer_reserve_1000() {
    let mut bfc = BlockFileContainer::new_with_block_size(8);
    for i in 0..1000 {
        let id = bfc.reserve().unwrap();
        assert_eq!(id, i);
        assert_eq!(bfc.size(), id + 1);
    }
}

#[test]
fn blockfilecontainer_insert() {
    let mut bfc = BlockFileContainer::new_with_block_size(8);
    let id = bfc.insert(vec![1u8, 2, 3, 4, 5, 6, 7, 8]).unwrap();
    assert_eq!(id, 0);
    assert_eq!(bfc.size(), 1);
    assert_eq!(Container::contains(&mut bfc, id).unwrap(), true);
    let block = bfc.get(0).unwrap();
    assert_eq!(block, Some(vec![1u8, 2, 3, 4, 5, 6, 7, 8]));
}

#[test]
fn blockfilecontainer_insert_256() {
    let mut bfc = BlockFileContainer::new_with_block_size(8);
    for i in 0u8..255 {
        let id = bfc.insert(vec![i, i, i, i, i, i, i, i]).unwrap();
        assert_eq!(id, i as u64);
        assert_eq!(bfc.size(), id + 1);
        let block = bfc.get(id).unwrap();
        assert_eq!(block, Some(vec![i, i, i, i, i, i, i, i]));
        assert_eq!(Container::contains(&mut bfc, i as u64).unwrap(), true);
    }
}

#[test]
fn blockfilecontainer_remove() {
    let mut bfc = BlockFileContainer::new_with_block_size(8);
    let id = bfc.insert(vec![1u8, 2, 3, 4, 5, 6, 7, 8]).unwrap();
    assert_eq!(id, 0);
    assert_eq!(bfc.size(), 1);
    let block = Container::remove(&mut bfc, id).unwrap();
    assert_eq!(block, Some(vec![1u8, 2, 3, 4, 5, 6, 7, 8]));
    assert_eq!(bfc.size(), 0);
}

#[test]
fn blockfilecontainer_remove_256() {
    let mut bfc = BlockFileContainer::new_with_block_size(8);
    for i in 0u8..255 {
        let id = bfc.insert(vec![i, i, i, i, i, i, i, i]).unwrap();
        assert_eq!(id, i as u64);
        assert_eq!(bfc.size(), id + 1);
    }
    for i in 0u8..255 {
        let block = Container::remove(&mut bfc, i as u64).unwrap();
        assert_eq!(block, Some(vec![i, i, i, i, i, i, i, i]));
        assert_eq!(Container::contains(&mut bfc, i as u64).unwrap(), false);
    }
    assert_eq!(bfc.size(), 0);
}

#[test]
fn store_insert_255_then_reuse_id_zero() {
    // 255 inserts take ids 0..254; removing id 0 returns its block and a
    // further reserve hands 0 out again.
    let mut bfc = BlockFileContainer::new_with_block_size(8);
    for i in 0u8..255 {
        let id = bfc.insert(vec![i; 8]).unwrap();
        assert_eq!(id, i as u64);
    }
    assert_eq!(bfc.size(), 255);
    let removed = Container::remove(&mut bfc, 0).unwrap();
    assert_eq!(removed, Some(vec![0u8; 8]));
    assert_eq!(Container::contains(&mut bfc, 0).unwrap(), false);
    let id = bfc.reserve().unwrap();
    assert_eq!(id, 0);
}

#[test]
fn store_round_trip_keeps_residual_tail() {
    // A shorter payload replaces only the front of the block: the tail
    // keeps what the block held before.
    let mut bfc = BlockFileContainer::new_with_block_size(8);
    let id = bfc.insert(vec![9u8, 9, 9, 9, 9, 9, 9, 9]).unwrap();
    let old = Container::update(&mut bfc, id, vec![1u8, 2, 3]).unwrap();
    assert_eq!(old, Some(vec![9u8; 8]));
    let block = bfc.get(id).unwrap();
    assert_eq!(block, Some(vec![1u8, 2, 3, 9, 9, 9, 9, 9]));
}

#[test]
fn store_fresh_block_tail_reads_zero() {
    let mut bfc = BlockFileContainer::new_with_block_size(4);
    let id = bfc.insert(vec![7u8]).unwrap();
    assert_eq!(bfc.get(id).unwrap(), Some(vec![7u8, 0, 0, 0]));
}

#[test]
fn store_recycles_freed_id_below_max() {
    // Removing a used id strictly below the maximum pushes it onto the
    // free stack, and the next reserve adopts it.
    let mut bfc = BlockFileContainer::new_with_block_size(2);
    for i in 0u8..5 {
        bfc.insert(vec![i, i]).unwrap();
    }
    let removed = Container::remove(&mut bfc, 2).unwrap();
    assert_eq!(removed, Some(vec![2u8, 2]));
    let id = bfc.reserve().unwrap();
    assert_eq!(id, 2);
}

#[test]
fn store_clear_twice_stays_empty() {
    let mut bfc = BlockFileContainer::new_with_block_size(4);
    bfc.insert(vec![1u8, 2, 3, 4]).unwrap();
    bfc.insert(vec![5u8, 6, 7, 8]).unwrap();
    Container::clear(&mut bfc).unwrap();
    assert_eq!(bfc.size(), 0);
    assert!(Container::ids(&bfc).is_empty());
    assert_eq!(bfc.reserved_map().max_bit(), None);
    let first_len = bfc.reserved_map().file_len();
    Container::clear(&mut bfc).unwrap();
    assert_eq!(bfc.size(), 0);
    assert!(Container::ids(&bfc).is_empty());
    assert_eq!(bfc.reserved_map().max_bit(), None);
    assert_eq!(bfc.reserved_map().file_len(), first_len);
}

#[test]
fn store_contains_matches_ids() {
    let mut bfc = BlockFileContainer::new_with_block_size(2);
    for i in 0u8..6 {
        bfc.insert(vec![i, i]).unwrap();
    }
    Container::remove(&mut bfc, 1).unwrap();
    Container::remove(&mut bfc, 4).unwrap();
    let listed = Container::ids(&bfc);
    assert_eq!(listed, vec![0, 2, 3, 5]);
    for id in 0u64..8 {
        let listed_has = listed.contains(&id);
        let contains = Container::contains(&mut bfc, id).unwrap();
        assert_eq!(listed_has, contains);
    }
}

#[test]
fn store_errors() {
    let mut bfc = BlockFileContainer::new_with_block_size(4);
    assert_eq!(
        Container::update(&mut bfc, 3, vec![1u8]),
        Err(ContainerError::InvalidId)
    );
    assert_eq!(Container::remove(&mut bfc, 3), Err(ContainerError::InvalidId));
    let id = bfc.reserve().unwrap();
    assert_eq!(
        Container::update(&mut bfc, id, vec![1u8, 2, 3, 4, 5]),
        Err(ContainerError::Io)
    );
}

#[test]
fn store_update_of_reserved_slot_returns_none() {
    let mut bfc = BlockFileContainer::new_with_block_size(4);
    let id = bfc.reserve().unwrap();
    assert_eq!(bfc.get(id).unwrap(), None);
    let old = Container::update(&mut bfc, id, vec![1u8, 2]).unwrap();
    assert_eq!(old, None);
    let removed = Container::remove(&mut bfc, id).unwrap();
    assert_eq!(removed, Some(vec![1u8, 2, 0, 0]));
}

#[test]
fn store_remove_of_reserved_slot_returns_none() {
    let mut bfc = BlockFileContainer::new_with_block_size(4);
    bfc.insert(vec![1u8]).unwrap();
    let id = bfc.reserve().unwrap();
    let removed = Container::remove(&mut bfc, id).unwrap();
    assert_eq!(removed, None);
    assert_eq!(Container::contains(&mut bfc, id).unwrap(), false);
}

#[test]
fn store_block_file_shrinks_with_removals() {
    let mut bfc = BlockFileContainer::new_with_block_size(8);
    for i in 0u8..4 {
        bfc.insert(vec![i; 8]).unwrap();
    }
    assert_eq!(bfc.container_bytes().len(), 32);
    Container::remove(&mut bfc, 3).unwrap();
    assert_eq!(bfc.container_bytes().len(), 24);
    Container::remove(&mut bfc, 0).unwrap();
    assert_eq!(bfc.container_bytes().len(), 24);
    Container::remove(&mut bfc, 2).unwrap();
    assert_eq!(bfc.container_bytes().len(), 16);
    Container::remove(&mut bfc, 1).unwrap();
    assert_eq!(bfc.container_bytes().len(), 0);
}

#[test]
fn store_reopens_from_parts() {
    let mut bfc = BlockFileContainer::new_with_block_size(4);
    let a = bfc.insert(vec![1u8, 2, 3, 4]).unwrap();
    let b = bfc.insert(vec![5u8, 6, 7, 8]).unwrap();
    Container::remove(&mut bfc, a).unwrap();
    bfc.sync_headers();

    let container_image = bfc.container_bytes().clone();
    let reserved_image = bfc.reserved_map().as_bytes().clone();
    let used_image = bfc.used_map().as_bytes().clone();
    let free_image = bfc.free_list().as_bytes().clone();

    let mut reopened = BlockFileContainer::try_from_parts(
        container_image,
        xxl_container::bitsetfile::BitSetFile::open(reserved_image),
        xxl_container::bitsetfile::BitSetFile::open(used_image),
        xxl_container::stackfile::StackFile::open(free_image),
        4,
    )
    .expect("the persisted images belong together");
    assert_eq!(reopened.size(), 1);
    assert_eq!(Container::contains(&mut reopened, b).unwrap(), true);
    assert_eq!(reopened.get(b).unwrap(), Some(vec![5u8, 6, 7, 8]));
}

#[test]
fn store_rejects_mismatched_parts() {
    // A used set that is not a subset of the reserved set is refused.
    let mut used = xxl_container::bitsetfile::BitSetFile::new();
    used.insert(0).unwrap();
    let outcome = BlockFileContainer::try_from_parts(
        vec![0u8; 4],
        xxl_container::bitsetfile::BitSetFile::new(),
        used,
        xxl_container::stackfile::StackFile::new(),
        4,
    );
    assert!(outcome.is_none());

    // A block image of the wrong length is refused too.
    let mut reserved = xxl_container::bitsetfile::BitSetFile::new();
    reserved.insert(0).unwrap();
    let mut used = xxl_container::bitsetfile::BitSetFile::new();
    used.insert(0).unwrap();
    let outcome = BlockFileContainer::try_from_parts(
        vec![0u8; 3],
        reserved,
        used,
        xxl_container::stackfile::StackFile::new(),
        4,
    );
    assert!(outcome.is_none());
}

#[test]
fn bitset_validate_checks_counters() {
    // An image whose stored header disagrees with its bitmap bytes fails
    // validation; a faithful header passes.
    let mut bits = xxl_container::bitsetfile::BitSetFile::new();
    bits.insert(9).unwrap();
    bits.write_header();
    let good = bits.as_bytes().clone();
    assert!(xxl_container::bitsetfile::BitSetFile::open(good.clone()).validate());

    let mut corrupt = good.clone();
    corrupt[0] = 7;  // claim seven members
    assert!(!xxl_container::bitsetfile::BitSetFile::open(corrupt).validate());

    let mut truncated = good;
    truncated.pop();
    assert!(!xxl_container::bitsetfile::BitSetFile::open(truncated).validate());
}

#[test]
fn store_used_ids_iterate() {
    let mut bfc = BlockFileContainer::new_with_block_size(2);
    bfc.insert(vec![1u8]).unwrap();
    bfc.reserve().unwrap();
    bfc.insert(vec![2u8]).unwrap();
    let mut used = bfc.used_ids();
    assert_eq!(used.next(), Some(0));
    assert_eq!(used.next(), Some(2));
    assert_eq!(used.next(), None);
    let mut reserved = bfc.reserved_ids();
    assert_eq!(reserved.next_back(), Some(2));
    assert_eq!(reserved.next_back(), Some(1));
    assert_eq!(reserved.next_back(), Some(0));
    assert_eq!(reserved.next_back(), None);
}

#[test]
fn converter_over_block_store() {
    // Fixed-width numbers stored as bytes in the persistent block store,
    // converted at the boundary in both directions.
    let inner = BlockFileContainer::new_with_block_size(8);
    let mut adapter = xxl_container::converter::ConverterAdapter::new(
        |x: u64| x.to_le_bytes().to_vec(),
        |y: Vec<u8>| {
            let mut raw = [0u8; 8];
            raw.copy_from_slice(&y);
            u64::from_le_bytes(raw)
        },
        inner,
    );
    let a = adapter.insert(11).unwrap();
    let b = adapter.insert(22).unwrap();
    assert_eq!((a, b), (0, 1));
    assert_eq!(adapter.remove(a).unwrap(), Some(11));
    assert_eq!(adapter.get_clone(b).unwrap(), Some(22));
    let c = adapter.reserve().unwrap();
    assert_eq!(c, a);
}

#[test]
fn store_get_clone_leaves_value() {
    let mut bfc = BlockFileContainer::new_with_block_size(2);
    let id = bfc.insert(vec![3u8, 4]).unwrap();
    assert_eq!(bfc.get_clone(id).unwrap(), Some(vec![3u8, 4]));
    assert_eq!(bfc.get_clone(id).unwrap(), Some(vec![3u8, 4]));
    assert_eq!(bfc.get_clone(7).unwrap(), None);
}
