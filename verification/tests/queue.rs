use fixcap::queue::{AdvancedArrayQueue, ArrayQueue};

#[test]
fn test_basic_operations() {
    // Use 0 as the default value
    let mut queue = ArrayQueue::<i32, 3>::new(0);

    assert!(queue.is_empty());
    assert_eq!(queue.len(), 0);

    assert_eq!(queue.enqueue(1), Ok(()));
    assert_eq!(queue.enqueue(2), Ok(()));
    assert_eq!(queue.enqueue(3), Ok(()));

    assert!(queue.is_full());
    assert_eq!(queue.len(), 3);

    assert_eq!(queue.enqueue(4), Err(4)); // Queue is full

    assert_eq!(queue.peek(), Some(&1));
    assert_eq!(queue.dequeue(), Some(1));

    assert_eq!(queue.len(), 2);

    assert_eq!(queue.enqueue(4), Ok(())); // Now there is space

    assert_eq!(queue.dequeue(), Some(2));
    assert_eq!(queue.dequeue(), Some(3));
    assert_eq!(queue.dequeue(), Some(4));

    assert!(queue.is_empty());
    assert_eq!(queue.dequeue(), None);

    let mut queue: AdvancedArrayQueue<i32, 3> = AdvancedArrayQueue::new();

    assert!(queue.is_empty());
    assert_eq!(queue.len(), 0);

    assert_eq!(queue.enqueue(1), Ok(()));
    assert_eq!(queue.enqueue(2), Ok(()));
    assert_eq!(queue.enqueue(3), Ok(()));

    assert!(queue.is_full());
    assert_eq!(queue.len(), 3);

    assert_eq!(queue.enqueue(4), Err(4)); // Queue is full

    assert_eq!(queue.peek(), Some(&1));
    assert_eq!(queue.dequeue(), Some(1));

    assert_eq!(queue.len(), 2);

    assert_eq!(queue.enqueue(4), Ok(())); // Now there is space

    assert_eq!(queue.dequeue(), Some(2));
    assert_eq!(queue.dequeue(), Some(3));
    assert_eq!(queue.dequeue(), Some(4));

    assert!(queue.is_empty());
    assert_eq!(queue.dequeue(), None);
}

#[test]
fn test_wrap_around() {
    let mut queue = ArrayQueue::<i32, 3>::new(0);

    assert_eq!(queue.enqueue(1), Ok(()));
    assert_eq!(queue.enqueue(2), Ok(()));
    assert_eq!(queue.dequeue(), Some(1));
    assert_eq!(queue.enqueue(3), Ok(()));
    assert_eq!(queue.enqueue(4), Ok(())); // Queue: [4, 2, 3]

    assert_eq!(queue.dequeue(), Some(2));
    assert_eq!(queue.dequeue(), Some(3));
    assert_eq!(queue.dequeue(), Some(4));
    assert_eq!(queue.dequeue(), None);

    let mut queue: AdvancedArrayQueue<i32, 3> = AdvancedArrayQueue::new();

    assert_eq!(queue.enqueue(1), Ok(()));
    assert_eq!(queue.enqueue(2), Ok(()));
    assert_eq!(queue.dequeue(), Some(1));
    assert_eq!(queue.enqueue(3), Ok(()));
    assert_eq!(queue.enqueue(4), Ok(())); // Now the queue should be [4, 2, 3]

    assert_eq!(queue.dequeue(), Some(2));
    assert_eq!(queue.dequeue(), Some(3));
    assert_eq!(queue.dequeue(), Some(4));
    assert_eq!(queue.dequeue(), None);
}

#[test]
fn test_clear() {
    let mut queue = ArrayQueue::<i32, 3>::new(0);

    assert_eq!(queue.enqueue(1), Ok(()));
    assert_eq!(queue.enqueue(2), Ok(()));

    queue.clear();

    assert!(queue.is_empty());
    assert_eq!(queue.dequeue(), None);

    let mut queue: AdvancedArrayQueue<i32, 3> = AdvancedArrayQueue::new();

    assert_eq!(queue.enqueue(1), Ok(()));
    assert_eq!(queue.enqueue(2), Ok(()));

    queue.clear();

    assert!(queue.is_empty());
    assert_eq!(queue.dequeue(), None);
}

#[test]
fn test_peek_mut() {
    let mut queue = ArrayQueue::<i32, 3>::new(0);
    queue.enqueue(1).unwrap();
    queue.enqueue(2).unwrap();

    if let Some(value) = queue.peek_mut() {
        *value = 10;
    }

    assert_eq!(queue.peek(), Some(&10));
    assert_eq!(queue.dequeue(), Some(10));
    assert_eq!(queue.dequeue(), Some(2));
}

// Test behavior of Copy types
#[derive(Debug, PartialEq, Copy, Clone)]
struct Point {
    x: i32,
    y: i32,
}

#[test]
fn test_copy_type() {
    let default_point = Point { x: 0, y: 0 };
    let mut queue = ArrayQueue::<Point, 2>::new(default_point);

    let p1 = Point { x: 1, y: 2 };
    let p2 = Point { x: 3, y: 4 };

    queue.enqueue(p1).unwrap();
    queue.enqueue(p2).unwrap();

    assert_eq!(queue.dequeue(), Some(p1));

    // The original value is still available (Copy trait)
    assert_eq!(p1.x, 1);
    assert_eq!(p1.y, 2);

    if let Some(p) = queue.peek_mut() {
        p.x = 10;
    }

    assert_eq!(queue.dequeue(), Some(Point { x: 10, y: 4 }));
}

#[test]
fn test_initialization() {
    let mut queue = ArrayQueue::<i32, 3>::new(-1);

    // All elements are default values at the beginning
    assert_eq!(queue.storage().as_slice(), &[-1, -1, -1]);

    queue.enqueue(1).unwrap();
    assert_eq!(queue.storage().as_slice(), &[1, -1, -1]);

    queue.enqueue(2).unwrap();
    assert_eq!(queue.storage().as_slice(), &[1, 2, -1]);

    queue.dequeue();
    queue.enqueue(3).unwrap();
    assert_eq!(queue.storage().as_slice(), &[1, 2, 3]);

    queue.enqueue(4).unwrap();
    queue.enqueue(5).unwrap_err(); // Queue is full

    queue.dequeue();
    queue.enqueue(5).unwrap();
    assert_eq!(queue.storage().as_slice(), &[4, 5, 3]);
}

#[test]
fn advanced_queue_peek_mut_non_copy() {
    let mut queue: AdvancedArrayQueue<String, 2> = AdvancedArrayQueue::new();
    assert!(queue.peek_mut().is_none());

    queue.enqueue(String::from("front")).unwrap();
    queue.enqueue(String::from("back")).unwrap();
    if let Some(front) = queue.peek_mut() {
        front.push_str(" row");
    }
    assert_eq!(queue.dequeue(), Some(String::from("front row")));
    assert_eq!(queue.dequeue(), Some(String::from("back")));
}

#[test]
fn queue_full_empty_full_cycle() {
    let mut queue: AdvancedArrayQueue<i32, 3> = AdvancedArrayQueue::new();
    for v in [1, 2, 3] {
        assert!(queue.enqueue(v).is_ok());
    }
    assert_eq!(queue.enqueue(4), Err(4));

    while queue.dequeue().is_some() {}
    assert!(queue.is_empty());

    // after draining to empty, exactly N more insertions succeed, and the
    // values come out in their own arrival order
    for v in [7, 8, 9] {
        assert!(queue.enqueue(v).is_ok());
    }
    assert_eq!(queue.enqueue(10), Err(10));
    assert_eq!(queue.dequeue(), Some(7));
    assert_eq!(queue.dequeue(), Some(8));
    assert_eq!(queue.dequeue(), Some(9));
    assert_eq!(queue.dequeue(), None);
}
