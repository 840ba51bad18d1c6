use cp_rust::data_structures::min_stack::Stack;

#[test]
fn min_stack_test_min_stack() {
    let mut stack = Stack::new();
    stack.add(1);
    stack.add(2);
    stack.add(3);
    stack.add(4);
    stack.add(5);
    stack.add(6);
    stack.add(7);
    stack.add(8);
    let min = stack.get_min().unwrap();
    assert_eq!(*min, 1);
    stack.pop();
    stack.pop();
    stack.pop();
    let min = stack.get_min().unwrap();
    assert_eq!(*min, 1);
    stack.pop();
    stack.pop();
    stack.pop();
    stack.pop();
    let min = stack.get_min().unwrap();
    assert_eq!(*min, 1);
    stack.pop();
    let min = stack.get_min();
    assert_eq!(min, None);
}

#[test]
fn min_stack_test_min_stack2() {
    let mut stack = Stack::new();
    stack.add(8);
    stack.add(7);
    stack.add(6);
    let min = stack.get_min().unwrap();
    assert_eq!(*min, 6);
    stack.pop();
    let min = stack.get_min().unwrap();
    assert_eq!(*min, 7);
    stack.pop();
    let min = stack.get_min().unwrap();
    assert_eq!(*min, 8);
}

#[test]
fn test_min_stack_test_min_stack() {
    let mut stack = Stack::new();
    stack.add(1);
    stack.add(2);
    stack.add(3);
    stack.add(4);
    stack.add(5);
    stack.add(6);
    stack.add(7);
    stack.add(8);
    let min = stack.get_min().unwrap();
    assert_eq!(*min, 1);
    stack.pop();
    stack.pop();
    stack.pop();
    let min = stack.get_min().unwrap();
    assert_eq!(*min, 1);
    stack.pop();
    stack.pop();
    stack.pop();
    stack.pop();
    let min = stack.get_min().unwrap();
    assert_eq!(*min, 1);
    stack.pop();
    let min = stack.get_min();
    assert_eq!(min, None);
}

#[test]
fn test_min_stack_test_min_stack2() {
    let mut stack = Stack::new();
    stack.add(8);
    stack.add(7);
    stack.add(6);
    let min = stack.get_min().unwrap();
    assert_eq!(*min, 6);
    stack.pop();
    let min = stack.get_min().unwrap();
    assert_eq!(*min, 7);
    stack.pop();
    let min = stack.get_min().unwrap();
    assert_eq!(*min, 8);
}

#[test]
fn pop_on_empty_stack_is_harmless() {
    let mut stack = Stack::new();
    stack.pop();
    assert_eq!(stack.get_min(), None);
    stack.add(-4);
    assert_eq!(stack.get_min(), Some(&-4));
    assert_eq!(stack.stack, vec![-4]);
}

#[test]
fn minimum_follows_pushes_and_pops() {
    let mut stack = Stack::new();
    let values: [i64; 7] = [5, 9, 3, 3, 8, -2, 7];
    let mut kept: Vec<i64> = Vec::new();
    for v in values {
        stack.add(v);
        kept.push(v);
        assert_eq!(stack.get_min().copied(), kept.iter().copied().min());
        assert_eq!(stack.stack, kept);
    }
    while !kept.is_empty() {
        stack.pop();
        kept.pop();
        assert_eq!(stack.get_min().copied(), kept.iter().copied().min());
    }
}
