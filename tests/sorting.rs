use dsav_core::{
    binary_search_with_steps, bubble_sort_with_steps, insertion_sort_with_steps, merge_sort_with_steps,
    quick_sort_with_steps, selection_sort_with_steps, MetaValue, Operation, Step, Visualizable, VisualizableArray,
};

fn found(steps: &[Step]) -> Option<bool> {
    steps.last().unwrap().metadata.iter().find(|e| e.key == "found").and_then(|e| match e.value {
        MetaValue::Flag(b) => Some(b),
        _ => None,
    })
}

#[test]
fn test_bubble_sort_correctness() {
    let mut arr = vec![5, 2, 8, 1, 9];
    let _ = bubble_sort_with_steps(&mut arr).unwrap();
    assert_eq!(arr, vec![1, 2, 5, 8, 9]);
}

#[test]
fn test_bubble_sort_already_sorted() {
    let mut arr = vec![1, 2, 3, 4, 5];
    let steps = bubble_sort_with_steps(&mut arr).unwrap();
    assert!(!steps.is_empty());
    assert_eq!(arr, vec![1, 2, 3, 4, 5]);
}

#[test]
fn test_bubble_sort_single_element() {
    let mut arr = vec![42];
    let steps = bubble_sort_with_steps(&mut arr).unwrap();
    assert_eq!(steps.len(), 0);
    assert_eq!(arr, vec![42]);
}

#[test]
fn test_insertion_sort_correctness() {
    let mut arr = vec![5, 2, 8, 1, 9];
    let _ = insertion_sort_with_steps(&mut arr).unwrap();
    assert_eq!(arr, vec![1, 2, 5, 8, 9]);
}

#[test]
fn test_insertion_sort_already_sorted() {
    let mut arr = vec![1, 2, 3, 4, 5];
    let steps = insertion_sort_with_steps(&mut arr).unwrap();
    assert!(!steps.is_empty());
    assert_eq!(arr, vec![1, 2, 3, 4, 5]);
}

#[test]
fn test_quick_sort_correctness() {
    let mut arr = vec![5, 2, 8, 1, 9, 3, 7];
    let _ = quick_sort_with_steps(&mut arr).unwrap();
    assert_eq!(arr, vec![1, 2, 3, 5, 7, 8, 9]);
}

#[test]
fn test_quick_sort_with_duplicates() {
    let mut arr = vec![5, 2, 5, 1, 2];
    let _ = quick_sort_with_steps(&mut arr).unwrap();
    assert_eq!(arr, vec![1, 2, 2, 5, 5]);
}

#[test]
fn selection_and_merge_sort() {
    let mut a = vec![3, -1, 3, 0, 7, -5];
    selection_sort_with_steps(&mut a).unwrap();
    assert_eq!(a, vec![-5, -1, 0, 3, 3, 7]);
    let mut b = vec![9, 8, 7, 6, 5, 4, 3, 2, 1, 0, 9];
    let steps = merge_sort_with_steps(&mut b).unwrap();
    assert_eq!(b, vec![0, 1, 2, 3, 4, 5, 6, 7, 8, 9, 9]);
    assert_eq!(steps[0].description, "Starting Merge Sort");
    assert_eq!(steps.last().unwrap().description, "Merge sort complete");
}

#[test]
fn sort_steps_record_first_comparison() {
    let mut a = vec![2, 1];
    let steps = bubble_sort_with_steps(&mut a).unwrap();
    assert_eq!(steps[1].description, "Comparing 2 and 1");
    assert_eq!(steps[2].description, "Swapping 2 and 1");
    assert!(matches!(&steps[2].metadata[2].value, MetaValue::Ints(v) if v == &vec![1i64, 2]));
}

#[test]
fn binary_search_outcomes() {
    let arr = vec![1, 3, 5, 7, 9, 11];
    let steps = binary_search_with_steps(&arr, 9).unwrap();
    assert_eq!(found(&steps), Some(true));
    assert_eq!(steps.last().unwrap().description, "Found 9 at index 4");
    let steps = binary_search_with_steps(&arr, 0).unwrap();
    assert_eq!(found(&steps), Some(false));
    let steps = binary_search_with_steps(&arr, 12).unwrap();
    assert_eq!(found(&steps), Some(false));
    let steps = binary_search_with_steps(&vec![], 1).unwrap();
    assert_eq!(steps.len(), 1);
    assert_eq!(found(&steps), Some(false));
}

#[test]
fn array_sort_operations() {
    let mut arr = VisualizableArray::new(8);
    for (i, v) in [4, 1, 3, 2].iter().enumerate() {
        arr.insert(i, *v).unwrap();
    }
    arr.execute_with_steps(Operation::QuickSort).unwrap();
    assert_eq!((0..4).map(|i| arr.get(i).unwrap()).collect::<Vec<_>>(), vec![1, 2, 3, 4]);
    let steps = arr.execute_with_steps(Operation::BinarySearch(3)).unwrap();
    assert_eq!(found(&steps), Some(true));
    arr.execute_with_steps(Operation::Update(0, 9)).unwrap();
    arr.execute_with_steps(Operation::MergeSort).unwrap();
    assert_eq!((0..4).map(|i| arr.get(i).unwrap()).collect::<Vec<_>>(), vec![2, 3, 4, 9]);
    assert!(arr.execute_with_steps(Operation::Update(7, 1)).is_err());
}
