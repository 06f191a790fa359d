use fixcap::stack::{AdvancedArrayStack, ArrayStack};

#[test]
fn basic_operations() {
    let mut stack: ArrayStack<i32, 3> = ArrayStack::new(0);

    assert!(stack.is_empty());
    assert_eq!(stack.len(), 0);

    assert!(stack.push(1).is_ok());
    assert_eq!(stack.peek(), Ok(&1));
    assert_eq!(stack.len(), 1);

    assert!(stack.push(2).is_ok());
    assert_eq!(stack.pop(), Ok(2));

    assert!(stack.push(3).is_ok());
    assert!(stack.push(4).is_ok());
    assert!(stack.is_full());

    assert_eq!(stack.push(5), Err("Stack full"));

    assert_eq!(stack.pop(), Ok(4));
    assert_eq!(stack.pop(), Ok(3));
    assert_eq!(stack.peek(), Ok(&1));
    assert_eq!(stack.pop(), Ok(1));
    assert_eq!(stack.pop(), Err("Stack empty"));
}

#[test]
fn advanced_stack_lifo_order() {
    let mut stack: AdvancedArrayStack<String, 3> = AdvancedArrayStack::new();

    assert!(stack.is_empty());
    assert!(stack.push(String::from("a")).is_ok());
    assert!(stack.push(String::from("b")).is_ok());
    assert!(stack.push(String::from("c")).is_ok());
    assert!(stack.is_full());
    assert_eq!(stack.push(String::from("d")), Err(String::from("d")));

    assert_eq!(stack.pop(), Ok(String::from("c")));
    assert_eq!(stack.pop(), Ok(String::from("b")));
    assert_eq!(stack.pop(), Ok(String::from("a")));
    assert_eq!(stack.pop(), Err("Stack empty"));
}

#[test]
fn advanced_stack_peek_and_peek_mut() {
    let mut stack: AdvancedArrayStack<i32, 2> = AdvancedArrayStack::new();
    assert_eq!(stack.peek(), Err("Stack empty"));
    assert_eq!(stack.peek_mut(), Err("Stack empty"));

    stack.push(7).unwrap();
    assert_eq!(stack.peek(), Ok(&7));
    if let Ok(top) = stack.peek_mut() {
        *top = 9;
    }
    assert_eq!(stack.pop(), Ok(9));
}

#[test]
fn advanced_stack_drain_yields_pop_order() {
    let mut stack: AdvancedArrayStack<i32, 4> = AdvancedArrayStack::new();
    for v in [1, 2, 3, 4] {
        stack.push(v).unwrap();
    }

    let mut drain = stack.drain();
    assert!(stack.is_empty());
    assert_eq!(drain.len(), 4);
    assert_eq!(drain.next(), Some(4));
    assert_eq!(drain.next(), Some(3));
    assert_eq!(drain.next(), Some(2));
    assert_eq!(drain.next(), Some(1));
    assert_eq!(drain.next(), None);

    // a fresh drain of the now-empty stack yields nothing
    let mut empty_drain = stack.drain();
    assert_eq!(empty_drain.next(), None);
}

#[test]
fn stack_full_empty_full_cycle() {
    let mut stack: ArrayStack<u8, 3> = ArrayStack::new(0);
    for v in [10, 20, 30] {
        assert!(stack.push(v).is_ok());
    }
    assert!(stack.is_full());
    assert_eq!(stack.push(40), Err("Stack full"));

    while stack.pop().is_ok() {}
    assert!(stack.is_empty());

    // after draining to empty, exactly N more pushes succeed, and the new
    // values come back untouched by the previous cycle
    for v in [7, 8, 9] {
        assert!(stack.push(v).is_ok());
    }
    assert_eq!(stack.push(99), Err("Stack full"));
    assert_eq!(stack.pop(), Ok(9));
    assert_eq!(stack.pop(), Ok(8));
    assert_eq!(stack.pop(), Ok(7));
}

#[test]
fn zero_capacity_stack() {
    let mut stack: ArrayStack<i32, 0> = ArrayStack::new(0);
    assert!(stack.is_empty());
    assert!(stack.is_full());
    assert_eq!(stack.push(1), Err("Stack full"));
    assert_eq!(stack.pop(), Err("Stack empty"));
}
