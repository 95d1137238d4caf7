use priority_heap::stack::{MyStack, Queue};

#[test]
fn test_queue() {
    let mut s = MyStack::<i32>::new();
    assert_eq!(s.pop(), Err("Stack is empty"));
    s.push(1);
    s.push(2);
    s.push(3);
    assert_eq!(s.pop(), Ok(3));
    assert_eq!(s.pop(), Ok(2));
    s.push(4);
    s.push(5);
    assert_eq!(s.is_empty(), false);
    assert_eq!(s.pop(), Ok(5));
    assert_eq!(s.pop(), Ok(4));
    assert_eq!(s.pop(), Ok(1));
    assert_eq!(s.pop(), Err("Stack is empty"));
    assert_eq!(s.is_empty(), true);
}

#[test]
fn test_queue_fifo_order() {
    let mut q = Queue::new();
    assert!(q.is_empty());
    q.enqueue(10);
    q.enqueue(20);
    q.enqueue(30);
    assert_eq!(q.size(), 3);
    assert_eq!(q.peek(), Ok(&10));
    assert_eq!(q.dequeue(), Ok(10));
    assert_eq!(q.dequeue(), Ok(20));
    assert_eq!(q.size(), 1);
    assert_eq!(q.dequeue(), Ok(30));
    assert!(q.is_empty());
}

#[test]
fn test_queue_empty_signals() {
    let mut q = Queue::<i32>::default();
    assert_eq!(q.dequeue(), Err("Queue is empty"));
    assert_eq!(q.peek(), Err("Queue is empty"));
    assert_eq!(q.size(), 0);
}
