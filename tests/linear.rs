use dsav_core::{DsavError, VisualizableArray, VisualizableLinkedList, VisualizableQueue, VisualizableStack};

#[test]
fn test_array_insert() {
    let mut arr = VisualizableArray::new(10);
    assert!(arr.insert(0, 42).is_ok());
    assert_eq!(arr.get(0).unwrap(), 42);
    assert_eq!(arr.len(), 1);
}

#[test]
fn test_array_insert_out_of_bounds() {
    let mut arr = VisualizableArray::new(10);
    let result = arr.insert(5, 42);
    assert!(result.is_err());
}

#[test]
fn test_array_delete() {
    let mut arr = VisualizableArray::new(10);
    arr.insert(0, 42).unwrap();
    arr.insert(1, 17).unwrap();

    let deleted = arr.delete(0).unwrap();
    assert_eq!(deleted, 42);
    assert_eq!(arr.len(), 1);
    assert_eq!(arr.get(0).unwrap(), 17);
}

#[test]
fn test_array_search() {
    let mut arr = VisualizableArray::new(10);
    arr.insert(0, 10).unwrap();
    arr.insert(1, 20).unwrap();
    arr.insert(2, 30).unwrap();

    assert_eq!(arr.search(20), Some(1));
    assert_eq!(arr.search(99), None);
}

#[test]
fn array_errors_and_update() {
    let mut arr = VisualizableArray::new(1);
    arr.insert(0, 5).unwrap();
    assert!(matches!(arr.insert(0, 6), Err(DsavError::Full { capacity: 1 })));
    assert!(matches!(arr.delete(3), Err(DsavError::IndexOutOfBounds { index: 3, size: 1 })));
    assert_eq!(arr.update(0, 9).unwrap(), 5);
    assert_eq!(arr.get(0).unwrap(), 9);
    assert!(matches!(arr.get(1), Err(DsavError::IndexOutOfBounds { index: 1, size: 1 })));
    assert_eq!(arr.capacity(), 1);
    assert!(!arr.is_empty());
}

#[test]
fn test_stack_push_pop() {
    let mut stack = VisualizableStack::new();
    assert!(stack.is_empty());

    stack.push(10).unwrap();
    stack.push(20).unwrap();
    stack.push(30).unwrap();

    assert_eq!(stack.size(), 3);
    assert_eq!(stack.pop().unwrap(), 30);
    assert_eq!(stack.pop().unwrap(), 20);
    assert_eq!(stack.pop().unwrap(), 10);
    assert!(stack.is_empty());
}

#[test]
fn test_stack_peek() {
    let mut stack = VisualizableStack::new();
    stack.push(42).unwrap();
    assert_eq!(stack.peek().unwrap(), 42);
    assert_eq!(stack.size(), 1);
}

#[test]
fn test_stack_overflow() {
    let mut stack = VisualizableStack::with_capacity(2);
    stack.push(1).unwrap();
    stack.push(2).unwrap();
    assert!(stack.push(3).is_err());
}

#[test]
fn test_stack_underflow() {
    let mut stack = VisualizableStack::new();
    assert!(stack.pop().is_err());
}

#[test]
fn stack_capacity_and_clear() {
    let mut stack = VisualizableStack::new();
    assert_eq!(stack.capacity(), 16);
    stack.push(1).unwrap();
    assert!(!stack.is_full());
    stack.clear();
    assert_eq!(stack.len(), 0);
    assert!(matches!(stack.peek(), Err(DsavError::EmptyStructure)));
}

#[test]
fn test_queue_enqueue_dequeue() {
    let mut queue = VisualizableQueue::new();
    assert!(queue.is_empty());

    queue.enqueue(10).unwrap();
    queue.enqueue(20).unwrap();
    queue.enqueue(30).unwrap();

    assert_eq!(queue.size(), 3);
    assert_eq!(queue.dequeue().unwrap(), 10);
    assert_eq!(queue.dequeue().unwrap(), 20);
    assert_eq!(queue.dequeue().unwrap(), 30);
    assert!(queue.is_empty());
}

#[test]
fn test_queue_peek() {
    let mut queue = VisualizableQueue::new();
    queue.enqueue(42).unwrap();
    queue.enqueue(17).unwrap();

    assert_eq!(queue.peek().unwrap(), 42);
    assert_eq!(queue.size(), 2);
}

#[test]
fn test_queue_overflow() {
    let mut queue = VisualizableQueue::with_capacity(2);
    queue.enqueue(1).unwrap();
    queue.enqueue(2).unwrap();
    assert!(queue.enqueue(3).is_err());
}

#[test]
fn test_queue_underflow() {
    let mut queue = VisualizableQueue::new();
    assert!(queue.dequeue().is_err());
}

#[test]
fn test_queue_fifo_order() {
    let mut queue = VisualizableQueue::new();

    for i in 1..=5 {
        queue.enqueue(i * 10).unwrap();
    }

    for i in 1..=5 {
        assert_eq!(queue.dequeue().unwrap(), i * 10);
    }
}

#[test]
fn queue_full_error_names_capacity() {
    let mut queue = VisualizableQueue::with_capacity(1);
    queue.enqueue(7).unwrap();
    assert!(queue.is_full());
    assert!(matches!(queue.enqueue(8), Err(DsavError::Full { capacity: 1 })));
    queue.clear();
    assert_eq!(queue.capacity(), 1);
    assert_eq!(queue.len(), 0);
}

#[test]
fn test_linked_list_insert_front() {
    let mut list = VisualizableLinkedList::new();
    list.insert_front(10);
    list.insert_front(20);
    list.insert_front(30);

    assert_eq!(list.len(), 3);
    assert_eq!(list.get(0).unwrap(), 30);
    assert_eq!(list.get(1).unwrap(), 20);
    assert_eq!(list.get(2).unwrap(), 10);
}

#[test]
fn test_linked_list_insert_back() {
    let mut list = VisualizableLinkedList::new();
    list.insert_back(10);
    list.insert_back(20);
    list.insert_back(30);

    assert_eq!(list.len(), 3);
    assert_eq!(list.get(0).unwrap(), 10);
    assert_eq!(list.get(1).unwrap(), 20);
    assert_eq!(list.get(2).unwrap(), 30);
}

#[test]
fn test_linked_list_insert_at() {
    let mut list = VisualizableLinkedList::new();
    list.insert_back(10);
    list.insert_back(30);

    assert!(list.insert_at(1, 20).is_ok());

    assert_eq!(list.len(), 3);
    assert_eq!(list.get(0).unwrap(), 10);
    assert_eq!(list.get(1).unwrap(), 20);
    assert_eq!(list.get(2).unwrap(), 30);
}

#[test]
fn test_linked_list_delete_front() {
    let mut list = VisualizableLinkedList::new();
    list.insert_back(10);
    list.insert_back(20);
    list.insert_back(30);

    assert_eq!(list.delete_front().unwrap(), 10);
    assert_eq!(list.len(), 2);
    assert_eq!(list.get(0).unwrap(), 20);
}

#[test]
fn test_linked_list_delete_back() {
    let mut list = VisualizableLinkedList::new();
    list.insert_back(10);
    list.insert_back(20);
    list.insert_back(30);

    assert_eq!(list.delete_back().unwrap(), 30);
    assert_eq!(list.len(), 2);
    assert_eq!(list.get(1).unwrap(), 20);
}

#[test]
fn test_linked_list_search() {
    let mut list = VisualizableLinkedList::new();
    list.insert_back(10);
    list.insert_back(20);
    list.insert_back(30);

    assert_eq!(list.search(20), Some(1));
    assert_eq!(list.search(40), None);
}

#[test]
fn test_linked_list_empty() {
    let list = VisualizableLinkedList::new();
    assert!(list.is_empty());
    assert_eq!(list.len(), 0);
}

#[test]
fn test_linked_list_delete_empty() {
    let mut list = VisualizableLinkedList::new();
    assert!(list.delete_front().is_err());
    assert!(list.delete_back().is_err());
}

#[test]
fn linked_list_bounds_and_clear() {
    let mut list = VisualizableLinkedList::new();
    assert!(matches!(list.insert_at(1, 5), Err(DsavError::IndexOutOfBounds { index: 1, size: 0 })));
    list.insert_at(0, 5).unwrap();
    list.insert_at(1, 6).unwrap();
    assert_eq!(list.to_vec(), vec![5, 6]);
    assert!(matches!(list.get(2), Err(DsavError::IndexOutOfBounds { index: 2, size: 2 })));
    list.clear();
    assert!(list.is_empty());
}
