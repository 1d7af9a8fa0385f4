use miniball::OVec;

#[test]
fn new_stack_is_empty() {
    let stack: OVec<u8> = OVec::new(3);
    assert!(stack.is_empty());
    assert!(!stack.is_full());
    assert_eq!(stack.len(), 0);
    assert_eq!(stack.capacity(), 3);
    assert_eq!(stack.as_slice(), &[] as &[u8]);
}

#[test]
fn push_fills_up_to_capacity() {
    let mut stack = OVec::new(2);
    stack.push('a');
    assert!(!stack.is_full());
    stack.push('b');
    assert!(stack.is_full());
    assert_eq!(stack.len(), 2);
    assert_eq!(stack.as_slice(), &['a', 'b']);
}

#[test]
fn pop_returns_last_pushed() {
    let mut stack = OVec::new(3);
    stack.push(1);
    stack.push(2);
    assert_eq!(stack.pop(), Some(2));
    assert_eq!(stack.pop(), Some(1));
    assert_eq!(stack.pop(), None);
    assert!(stack.is_empty());
    assert_eq!(stack.capacity(), 3);
}

#[test]
fn zero_capacity_stack_is_full() {
    let stack: OVec<i32> = OVec::new(0);
    assert!(stack.is_full());
    assert!(stack.is_empty());
}
