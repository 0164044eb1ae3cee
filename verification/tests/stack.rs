use xxl_container::stackfile::StackFile;

#[test]
fn stack_file_new() {
    let stack_file = StackFile::new();
    assert!(stack_file.is_empty());
    assert_eq!(stack_file.entries(), 0);
    assert_eq!(stack_file.file_len(), 0);
}

#[test]
fn stack_file_add() {
    let mut stack_file = StackFile::new();
    stack_file.add(8).unwrap();
    assert!(!stack_file.is_empty());
    assert_eq!(stack_file.entries(), 1);
    assert_eq!(stack_file.file_len(), 8);
}

#[test]
fn stack_file_next() {
    let mut stack_file = StackFile::new();
    let next = stack_file.next().expect("Could not read next value");
    assert_eq!(next, None);
    stack_file.add(8u64).unwrap();
    assert!(!stack_file.is_empty());
    assert_eq!(stack_file.entries(), 1);
    let next = stack_file.next().expect("Could not read next value");
    assert_eq!(next, Some(8u64));
    assert_eq!(stack_file.entries(), 0);
    assert_eq!(stack_file.file_len(), 0);
}

#[test]
fn stack_lifo_order_and_reopen() {
    let mut stack = StackFile::new();
    stack.add(3).unwrap();
    stack.add(1).unwrap();
    stack.add(4).unwrap();
    assert_eq!(stack.entries(), 3);
    assert_eq!(stack.file_len(), 24);

    let image = stack.as_bytes().clone();
    let mut reopened = StackFile::open(image);
    assert_eq!(reopened.entries(), 3);
    assert_eq!(reopened.next().unwrap(), Some(4));
    assert_eq!(reopened.next().unwrap(), Some(1));
    assert_eq!(reopened.next().unwrap(), Some(3));
    assert_eq!(reopened.next().unwrap(), None);

    stack.clear().unwrap();
    assert_eq!(stack.entries(), 0);
    assert_eq!(stack.file_len(), 0);
}
