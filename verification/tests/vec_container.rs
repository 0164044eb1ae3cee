use xxl_container::container::CloneContainer;
use xxl_container::container::Container;
use xxl_container::converter::ConverterAdapter;
use xxl_container::error::ContainerError;
use xxl_container::veccontainer::VecContainer;

#[test]
fn with_capacity() {
    let vec_c: VecContainer<u64> = VecContainer::with_capacity(10);
    assert_eq!(10, vec_c.capacity());
}

#[test]
fn reserve() {
    let mut vec_c: VecContainer<u64> = VecContainer::with_capacity(1);
    let id = vec_c.reserve().unwrap();
    assert_eq!(id, 0);
}

#[test]
fn insert() {
    let mut vec_c = VecContainer::with_capacity(10);
    let id = vec_c.insert(1.1).unwrap();
    assert_eq!(0, id);
    assert_eq!(1, vec_c.ids().len());
    assert_eq!(0, vec_c.free_slots());
}

#[test]
fn remove() {
    let mut vec_c = VecContainer::with_capacity(10);
    let one = vec_c.insert(1.1).unwrap();
    let element = vec_c.remove(one).unwrap();
    assert_eq!(element, Some(1.1));
    assert_eq!(1, vec_c.free_slots());

    // insert two elements, remove one element
    let two = vec_c.insert(2.2).unwrap();
    let _ = vec_c.insert(3.3);
    let two_element = vec_c.remove(two).unwrap();
    assert_eq!(two_element, Some(2.2));
    assert_eq!(1, vec_c.free_slots());
    assert_eq!(1, vec_c.ids().len());
}

#[test]
fn vec_container_lifecycle() {
    let mut vec_c: VecContainer<u64> = VecContainer::new();
    let a = vec_c.insert(10).unwrap();
    let b = vec_c.insert(20).unwrap();
    assert_eq!((a, b), (0, 1));
    assert_eq!(vec_c.get(a), Some(&10));
    assert_eq!(vec_c.get(2), None);
    assert!(vec_c.contains_element(b));

    let old = vec_c.update(b, 21).unwrap();
    assert_eq!(old, Some(20));
    assert_eq!(vec_c.get_clone(b).unwrap(), Some(21));

    let r = vec_c.reserve().unwrap();
    assert_eq!(r, 2);
    assert!(vec_c.contains_element(r));
    assert_eq!(vec_c.get(r), None);
    let old = vec_c.update(r, 30).unwrap();
    assert_eq!(old, None);

    assert_eq!(vec_c.ids(), vec![0, 1, 2]);
    assert_eq!(vec_c.remove(a).unwrap(), Some(10));
    assert_eq!(vec_c.ids(), vec![1, 2]);
    let recycled = vec_c.reserve().unwrap();
    assert_eq!(recycled, a);

    vec_c.clear().unwrap();
    assert!(vec_c.ids().is_empty());
    assert_eq!(vec_c.free_slots(), 0);
}

#[test]
fn vec_container_errors() {
    let mut vec_c: VecContainer<u64> = VecContainer::new();
    assert_eq!(vec_c.update(0, 1), Err(ContainerError::InvalidId));
    assert_eq!(vec_c.remove(0), Err(ContainerError::InvalidId));
    let id = vec_c.insert(5).unwrap();
    vec_c.remove(id).unwrap();
    assert_eq!(vec_c.update(id, 6), Err(ContainerError::InvalidId));
}

#[test]
fn get_mut_updates_in_place() {
    let mut vec_c: VecContainer<u64> = VecContainer::new();
    let id = vec_c.insert(41).unwrap();
    match vec_c.get_mut(id) {
        Some(value) => *value += 1,
        None => panic!("slot should be occupied"),
    }
    assert_eq!(vec_c.get(id), Some(&42));
    let reserved = vec_c.reserve().unwrap();
    assert!(vec_c.get_mut(reserved).is_none());
    assert!(vec_c.get_mut(99).is_none());
}

#[test]
fn converter_round_trip() {
    // Store u64 values inside a byte-vector container, converting at the
    // boundary in both directions.
    let inner: VecContainer<Vec<u8>> = VecContainer::new();
    let mut adapter = ConverterAdapter::new(
        |x: u64| x.to_le_bytes().to_vec(),
        |y: Vec<u8>| {
            let mut raw = [0u8; 8];
            raw.copy_from_slice(&y);
            u64::from_le_bytes(raw)
        },
        inner,
    );
    let a = adapter.insert(11).unwrap();
    let b = adapter.insert(22).unwrap();
    assert_eq!(adapter.update(b, 23).unwrap(), Some(22));
    assert_eq!(adapter.get_clone(a).unwrap(), Some(11));
    assert_eq!(adapter.remove(b).unwrap(), Some(23));
    assert_eq!(adapter.contains(b).unwrap(), false);
    assert_eq!(adapter.ids(), vec![a]);
    adapter.clear().unwrap();
    assert!(adapter.ids().is_empty());
}
