use dsav_core::{
    DsavError, ElementState, MetaValue, Operation, Step, Visualizable, VisualizableArray, VisualizableBST,
    VisualizableLinkedList, VisualizableQueue, VisualizableStack,
};

fn flag(step: &Step, key: &str) -> Option<bool> {
    step.metadata.iter().find(|e| e.key == key).and_then(|e| match e.value {
        MetaValue::Flag(b) => Some(b),
        _ => None,
    })
}

fn visits(steps: &[Step]) -> Vec<i64> {
    steps[1..steps.len() - 1]
        .iter()
        .map(|s| match s.metadata[0].value {
            MetaValue::Int(v) => v,
            _ => panic!("not a visit"),
        })
        .collect()
}

#[test]
fn bst_steps_traversals() {
    let mut bst = VisualizableBST::new();
    for v in [50, 30, 70, 20, 40, 60] {
        bst.execute_with_steps(Operation::Insert(0, v)).unwrap();
    }
    assert_eq!(bst.size(), 6);
    let s = bst.execute_with_steps(Operation::Traverse).unwrap();
    assert_eq!(visits(&s), vec![20, 30, 40, 50, 60, 70]);
    let s = bst.execute_with_steps(Operation::PreOrderTraverse).unwrap();
    assert_eq!(visits(&s), vec![50, 30, 20, 40, 70, 60]);
    let s = bst.execute_with_steps(Operation::PostOrderTraverse).unwrap();
    assert_eq!(visits(&s), vec![20, 40, 30, 60, 70, 50]);
    let s = bst.execute_with_steps(Operation::LevelOrderTraverse).unwrap();
    assert_eq!(visits(&s), vec![50, 30, 70, 20, 40, 60]);
    assert_eq!(s[1].description, "Visiting node 50");
}

#[test]
fn bst_steps_insert_duplicate_and_search() {
    let mut bst = VisualizableBST::new();
    let s = bst.execute_with_steps(Operation::Insert(0, 8)).unwrap();
    assert_eq!(s[1].description, "Tree is empty, 8 becomes root");
    let s = bst.execute_with_steps(Operation::Insert(0, 3)).unwrap();
    assert_eq!(s.last().unwrap().description, "Inserted 3 successfully");
    assert_eq!(s.last().unwrap().active_indices, vec![1]);
    let s = bst.execute_with_steps(Operation::Insert(0, 3)).unwrap();
    assert_eq!(flag(s.last().unwrap(), "duplicate"), Some(true));
    assert_eq!(bst.size(), 2);
    let s = bst.execute_with_steps(Operation::Search(3)).unwrap();
    assert_eq!(flag(s.last().unwrap(), "found"), Some(true));
    let s = bst.execute_with_steps(Operation::Search(4)).unwrap();
    assert_eq!(flag(s.last().unwrap(), "found"), Some(false));
    assert!(bst.execute_with_steps(Operation::Pop).is_err());
    let render = bst.render_state();
    assert_eq!(render.elements[0].value, 8);
    assert_eq!(render.elements[1].sublabel, "Node 1");
    assert_eq!(render.connections, vec![(0, 1)]);
}

#[test]
fn array_steps() {
    let mut arr = VisualizableArray::new(4);
    arr.execute_with_steps(Operation::Insert(0, 10)).unwrap();
    arr.execute_with_steps(Operation::Insert(1, 30)).unwrap();
    let s = arr.execute_with_steps(Operation::Insert(1, 20)).unwrap();
    assert_eq!(s[0].description, "Inserting 20 at index 1");
    assert_eq!(s[1].highlight_indices, vec![1]);
    assert!(matches!(arr.execute_with_steps(Operation::Insert(9, 1)), Err(DsavError::IndexOutOfBounds { .. })));
    let s = arr.execute_with_steps(Operation::Search(30)).unwrap();
    assert_eq!(s.last().unwrap().description, "Found 30 at index 2");
    let s = arr.execute_with_steps(Operation::Search(31)).unwrap();
    assert_eq!(flag(s.last().unwrap(), "found"), Some(false));
    arr.execute_with_steps(Operation::Delete(0)).unwrap();
    assert_eq!(arr.get(0).unwrap(), 20);
    let render = arr.render_state();
    assert_eq!(render.elements.len(), 2);
    assert_eq!(render.elements[1].sublabel, "[1]");
    assert!(arr.execute_with_steps(Operation::Pop).is_err());
}

#[test]
fn stack_and_queue_steps() {
    let mut stack = VisualizableStack::with_capacity(2);
    stack.execute_with_steps(Operation::Push(1)).unwrap();
    let s = stack.execute_with_steps(Operation::Push(2)).unwrap();
    assert_eq!(s.last().unwrap().description, "2 is now on top of stack");
    assert!(matches!(stack.execute_with_steps(Operation::Push(3)), Err(DsavError::Full { capacity: 2 })));
    let render = stack.render_state();
    assert_eq!(render.elements[1].sublabel, "TOP");
    assert_eq!(render.elements[1].state, ElementState::Highlighted);
    let s = stack.execute_with_steps(Operation::Pop).unwrap();
    assert_eq!(s.last().unwrap().description, "Removed 2, stack size now 1");

    let mut queue = VisualizableQueue::new();
    for v in [5, 6, 7] {
        queue.execute_with_steps(Operation::Enqueue(v)).unwrap();
    }
    let render = queue.render_state();
    assert_eq!(render.elements[0].sublabel, "FRONT");
    assert_eq!(render.elements[2].state, ElementState::Active);
    let s = queue.execute_with_steps(Operation::Dequeue).unwrap();
    assert_eq!(s[1].highlight_indices, vec![0, 1]);
    assert_eq!(queue.peek().unwrap(), 6);
    let mut empty = VisualizableQueue::new();
    assert!(matches!(empty.execute_with_steps(Operation::Dequeue), Err(DsavError::EmptyStructure)));
}

#[test]
fn linked_list_steps() {
    let mut list = VisualizableLinkedList::new();
    list.execute_with_steps(Operation::Insert(0, 10)).unwrap();
    list.execute_with_steps(Operation::Insert(1, 30)).unwrap();
    let s = list.execute_with_steps(Operation::Insert(1, 20)).unwrap();
    assert_eq!(s[1].description, "Traversing to position 0");
    assert_eq!(list.to_vec(), vec![10, 20, 30]);
    let s = list.execute_with_steps(Operation::Traverse).unwrap();
    assert_eq!(s.len(), 5);
    list.execute_with_steps(Operation::Delete(1)).unwrap();
    assert_eq!(list.to_vec(), vec![10, 30]);
    assert!(matches!(list.execute_with_steps(Operation::Delete(5)), Err(DsavError::IndexOutOfBounds { index: 5, size: 2 })));
    let s = list.execute_with_steps(Operation::Search(99)).unwrap();
    assert_eq!(s.last().unwrap().description, "Value 99 not found in list");
    let render = list.render_state();
    assert_eq!(render.connections, vec![(0, 1)]);
    assert_eq!(render.elements[1].sublabel, "Node 1");
}
