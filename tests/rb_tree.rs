use rand::Rng;
use dsav_core::{DsavError, Color, MetaValue, Operation, Step, VisualizableRBTree, Visualizable};

fn has_flag(step: &Step, key: &str, b: bool) -> bool {
    step.metadata.iter().any(|e| e.key == key && matches!(e.value, MetaValue::Flag(x) if x == b))
}

fn has_text(steps: &[Step], key: &str, value: &str) -> bool {
    steps.iter().any(|s| {
        s.metadata.iter().any(|e| e.key == key && matches!(&e.value, MetaValue::Text(t) if t == value))
    })
}

fn tree_of(values: &[i32]) -> VisualizableRBTree {
    let mut tree = VisualizableRBTree::new();
    for &v in values {
        tree.insert(v);
    }
    tree
}

#[test]
fn test_rb_tree_insert() {
    let mut tree = VisualizableRBTree::new();
    tree.insert(50);
    tree.insert(30);
    tree.insert(70);

    assert_eq!(tree.size(), 3);
    assert!(tree.search(50));
    assert!(tree.search(30));
    assert!(tree.search(70));
}

#[test]
fn test_rb_tree_root_is_black() {
    let mut tree = VisualizableRBTree::new();
    tree.insert(50);

    assert_eq!(tree.root_color(), Some(Color::Black));
}

#[test]
fn test_rb_tree_no_duplicates() {
    let mut tree = VisualizableRBTree::new();
    tree.insert(50);
    tree.insert(50);

    assert_eq!(tree.size(), 1);
}

#[test]
fn test_rb_tree_empty() {
    let tree = VisualizableRBTree::new();
    assert!(tree.is_empty());
    assert_eq!(tree.size(), 0);
}

#[test]
fn test_rb_tree_clear() {
    let mut tree = VisualizableRBTree::new();
    tree.insert(50);
    tree.insert(30);

    tree.clear();
    assert!(tree.is_empty());
    assert_eq!(tree.size(), 0);
}

#[test]
fn test_rb_invariants_simple() {
    let mut tree = VisualizableRBTree::new();

    for val in [50, 25, 75, 10, 30, 60, 80, 5, 15] {
        tree.insert(val);
        assert!(tree.verify_rb_properties(), "RB properties violated after inserting {}", val);
    }
}

#[test]
fn test_rb_fixup_case_uncle_red() {
    let mut tree = VisualizableRBTree::new();

    tree.insert(50);
    tree.insert(25);
    tree.insert(75);
    tree.insert(10);

    assert!(tree.verify_rb_properties());
    assert_eq!(tree.size(), 4);
}

#[test]
fn test_rb_fixup_case_triangle() {
    let mut tree = VisualizableRBTree::new();

    tree.insert(50);
    tree.insert(25);
    tree.insert(30);

    assert!(tree.verify_rb_properties());
}

#[test]
fn test_rb_fixup_case_line() {
    let mut tree = VisualizableRBTree::new();

    tree.insert(50);
    tree.insert(25);
    tree.insert(10);

    assert!(tree.verify_rb_properties());
}

#[test]
fn test_rb_random_insertions() {
    let mut rng = rand::thread_rng();
    let mut tree = VisualizableRBTree::new();

    for _ in 0..100 {
        let val = rng.gen_range(1..1000);
        tree.insert(val);
        assert!(tree.verify_rb_properties(), "RB properties violated");
    }

    let nodes = tree.collect_nodes();
    for i in 1..nodes.len() {
        assert!(nodes[i] >= nodes[i - 1], "Tree not sorted");
    }
}

#[test]
fn uncle_red_scenario_steps_and_shape() {
    let mut tree = tree_of(&[50, 25, 75]);
    let steps = tree.execute_with_steps(Operation::Insert(0, 10)).unwrap();
    assert!(has_text(&steps, "case", "uncle_red"));
    assert_eq!(tree.root_color(), Some(Color::Black));
    assert_eq!(tree.size(), 4);
    assert!(tree.verify_rb_properties());
    let render = tree.render_state();
    assert_eq!(render.elements[0].value, 50);
    assert_eq!(render.elements[0].sublabel, "B");
}

#[test]
fn triangle_scenario_in_order() {
    let mut tree = tree_of(&[50, 25]);
    let steps = tree.execute_with_steps(Operation::Insert(0, 30)).unwrap();
    assert!(has_text(&steps, "case", "triangle"));
    assert!(has_text(&steps, "case", "line"));
    assert_eq!(tree.collect_nodes(), vec![25, 30, 50]);
    assert!(tree.verify_rb_properties());
}

#[test]
fn line_scenario_in_order() {
    let mut tree = tree_of(&[50, 25]);
    let steps = tree.execute_with_steps(Operation::Insert(0, 10)).unwrap();
    assert!(has_text(&steps, "case", "line"));
    assert!(!has_text(&steps, "case", "triangle"));
    assert_eq!(tree.collect_nodes(), vec![10, 25, 50]);
    assert!(tree.verify_rb_properties());
}

#[test]
fn delete_with_two_children() {
    let mut tree = tree_of(&[50, 30, 70, 20, 40, 60, 80]);
    let steps = tree.execute_with_steps(Operation::Delete(30)).unwrap();
    assert!(has_text(&steps, "case", "two_children"));
    assert_eq!(tree.collect_nodes(), vec![20, 40, 50, 60, 70, 80]);
    assert_eq!(tree.size(), 6);
    assert!(tree.verify_rb_properties());
}

#[test]
fn delete_missing_value_leaves_tree() {
    let mut tree = tree_of(&[50, 30, 70]);
    let before = tree.collect_nodes();
    let steps = tree.execute_with_steps(Operation::Delete(99)).unwrap();
    assert!(has_flag(steps.last().unwrap(), "found", false));
    assert_eq!(steps.last().unwrap().description, "Value 99 not found in tree");
    assert_eq!(tree.size(), 3);
    assert_eq!(tree.collect_nodes(), before);
    assert!(!tree.delete(99));
}

#[test]
fn delete_from_empty_tree() {
    let mut tree = VisualizableRBTree::new();
    assert!(!tree.delete(5));
    assert!(tree.is_empty());
}

#[test]
fn random_inserts_and_deletes_keep_invariants() {
    let mut rng = rand::thread_rng();
    let mut tree = VisualizableRBTree::new();
    let mut model = std::collections::BTreeSet::new();
    for _ in 0..400 {
        let v = rng.gen_range(1..200);
        if rng.gen_bool(0.6) {
            tree.insert(v);
            model.insert(v);
        } else {
            assert_eq!(tree.delete(v), model.remove(&v));
        }
        assert!(tree.verify_rb_properties());
        assert_eq!(tree.size(), model.len());
        assert_eq!(tree.collect_nodes(), model.iter().copied().collect::<Vec<_>>());
    }
}

#[test]
fn delete_every_value_in_turn() {
    let values: Vec<i32> = (1..=64).collect();
    for &gone in &values {
        let mut tree = tree_of(&values);
        assert!(tree.delete(gone));
        assert!(tree.verify_rb_properties());
        let expect: Vec<i32> = values.iter().copied().filter(|&v| v != gone).collect();
        assert_eq!(tree.collect_nodes(), expect);
    }
}

#[test]
fn duplicate_insert_records_marker() {
    let mut tree = tree_of(&[50]);
    let steps = tree.execute_with_steps(Operation::Insert(0, 50)).unwrap();
    assert!(has_flag(steps.last().unwrap(), "duplicate", true));
    assert_eq!(steps.last().unwrap().description, "50 already exists in tree (no duplicates allowed)");
    assert_eq!(tree.size(), 1);
}

#[test]
fn insert_then_delete_round_trip() {
    let mut tree = tree_of(&[40, 20, 60, 10, 30]);
    let before = tree.collect_nodes();
    tree.insert(35);
    assert!(tree.delete(35));
    assert_eq!(tree.collect_nodes(), before);
    assert_eq!(tree.size(), 5);
}

#[test]
fn search_steps_found_and_missing() {
    let mut tree = tree_of(&[50, 30, 70]);
    let steps = tree.execute_with_steps(Operation::Search(30)).unwrap();
    assert!(has_flag(steps.last().unwrap(), "found", true));
    assert_eq!(steps.last().unwrap().active_indices, vec![1]);
    let steps = tree.execute_with_steps(Operation::Search(-7)).unwrap();
    assert!(has_flag(steps.last().unwrap(), "found", false));
    assert_eq!(steps.last().unwrap().description, "Value -7 not found in tree");
}

fn visited(steps: &[Step]) -> Vec<i64> {
    steps[1..steps.len() - 1]
        .iter()
        .map(|s| match s.metadata[0].value {
            MetaValue::Int(v) => v,
            _ => panic!("not a visit"),
        })
        .collect()
}

#[test]
fn traversal_orders() {
    let mut tree = tree_of(&[50, 30, 70, 20, 40]);
    let steps = tree.execute_with_steps(Operation::Traverse).unwrap();
    assert_eq!(visited(&steps), vec![20, 30, 40, 50, 70]);
    assert_eq!(steps.len(), tree.size() + 2);
    let steps = tree.execute_with_steps(Operation::PreOrderTraverse).unwrap();
    assert_eq!(visited(&steps), vec![50, 30, 20, 40, 70]);
    let steps = tree.execute_with_steps(Operation::PostOrderTraverse).unwrap();
    assert_eq!(visited(&steps), vec![20, 40, 30, 70, 50]);
    assert_eq!(steps[1].description, "Visiting RED node with value 20");
}

#[test]
fn unsupported_operation_is_refused() {
    let mut tree = tree_of(&[1]);
    assert!(matches!(tree.execute_with_steps(Operation::Push(3)), Err(DsavError::Visualization(_))));
    assert_eq!(tree.size(), 1);
}

#[test]
fn render_projection_positions_and_edges() {
    let tree = tree_of(&[50, 30, 70, 20]);
    let render = tree.render_state();
    assert_eq!(render.elements.len(), 4);
    assert_eq!(render.elements[0].label, "50");
    assert_eq!(render.elements[3].value, 20);
    assert_eq!(render.elements[3].sublabel, "R");
    let mut edges = render.connections.clone();
    edges.sort();
    assert_eq!(edges, vec![(0, 1), (0, 2), (1, 3)]);
}

#[test]
fn render_projection_with_nil_leaves() {
    let tree = tree_of(&[50, 30]);
    let render = tree.render_state_with_nil_nodes();
    assert_eq!(render.elements[0].value, 50);
    assert_eq!(render.elements[1].value, 30);
    assert_eq!(render.elements[2].label, "NIL");
    assert_eq!(render.elements[3].label, "NIL");
    assert_eq!(render.elements[4].label, "NIL");
    let mut edges = render.connections.clone();
    edges.sort();
    assert_eq!(edges, vec![(0, 1), (0, 2), (1, 3), (1, 4)]);
}

#[test]
fn first_step_describes_insert() {
    let mut tree = VisualizableRBTree::new();
    let steps = tree.execute_with_steps(Operation::Insert(0, -12)).unwrap();
    assert_eq!(steps[0].description, "Inserting -12 into Red-Black Tree");
    assert_eq!(steps[1].description, "Tree is empty, -12 becomes BLACK root");
}

#[test]
fn level_order_traversal() {
    let mut tree = tree_of(&[50, 30, 70, 20, 40, 60]);
    let steps = tree.execute_with_steps(Operation::LevelOrderTraverse).unwrap();
    assert_eq!(visited(&steps), vec![50, 30, 70, 20, 40, 60]);
    assert_eq!(steps.len(), tree.size() + 2);
}

#[test]
fn insert_traces_name_cases_and_pivots() {
    let mut tree = tree_of(&[50, 25]);
    let steps = tree.execute_with_steps(Operation::Insert(0, 30)).unwrap();
    let cases: Vec<String> = steps
        .iter()
        .filter_map(|s| match (&s.metadata[0].key[..], &s.metadata[0].value) {
            ("case", MetaValue::Text(t)) => Some(t.clone()),
            _ => None,
        })
        .collect();
    assert_eq!(cases, vec!["triangle".to_string(), "line".to_string()]);
    assert!(matches!(steps.iter().find(|s| s.description.starts_with("Case 2")).unwrap().metadata[2].value, MetaValue::Int(25)));
    assert!(matches!(steps.iter().find(|s| s.description.starts_with("Case 3")).unwrap().metadata[2].value, MetaValue::Int(50)));
    let render = tree.render_state();
    assert_eq!(render.elements[0].value, 30);
    assert_eq!(render.elements[1].sublabel, "R");
    assert_eq!(render.elements[2].sublabel, "R");
}

#[test]
fn delete_trace_names_cases() {
    let mut tree = tree_of(&[50, 30, 70, 20]);
    let steps = tree.execute_with_steps(Operation::Delete(70)).unwrap();
    let keys: Vec<String> = steps.iter().map(|s| s.metadata[0].key.clone()).collect();
    assert_eq!(keys[0], "operation");
    assert_eq!(keys[1], "found");
    assert!(keys.contains(&"fixup_needed".to_string()));
    assert_eq!(keys.last().unwrap(), "complete");
    assert!(tree.verify_rb_properties());
    assert_eq!(tree.collect_nodes(), vec![20, 30, 50]);
}

#[test]
fn two_children_delete_names_successor() {
    let mut tree = tree_of(&[50, 30, 70, 20, 40, 60, 80]);
    let steps = tree.execute_with_steps(Operation::Delete(30)).unwrap();
    let two = steps.iter().find(|s| matches!(&s.metadata[0].value, MetaValue::Text(t) if t == "two_children")).unwrap();
    assert_eq!(two.metadata[2].key, "successor");
    assert!(matches!(two.metadata[2].value, MetaValue::Int(40)));
    let replaced = steps.iter().find(|s| s.metadata[0].key == "replaced").unwrap();
    assert!(matches!(replaced.metadata[0].value, MetaValue::Int(30)));
    assert!(matches!(replaced.metadata[1].value, MetaValue::Int(40)));
}

#[test]
fn rotation_directions_recorded() {
    let mut tree = tree_of(&[50, 25]);
    let steps = tree.execute_with_steps(Operation::Insert(0, 30)).unwrap();
    let rotations: Vec<String> = steps
        .iter()
        .filter(|s| s.metadata.len() > 1 && s.metadata[1].key == "rotation")
        .map(|s| match &s.metadata[1].value {
            MetaValue::Text(t) => t.clone(),
            _ => String::new(),
        })
        .collect();
    assert_eq!(rotations, vec!["left".to_string(), "right".to_string()]);
    let mut tree = tree_of(&[50, 75]);
    let steps = tree.execute_with_steps(Operation::Insert(0, 90)).unwrap();
    let line = steps.iter().find(|s| matches!(&s.metadata[0].value, MetaValue::Text(t) if t == "line_mirror")).unwrap();
    assert!(matches!(&line.metadata[1].value, MetaValue::Text(t) if t == "left"));
}

#[test]
fn full_projection_covers_every_node() {
    let values: Vec<i32> = (1..=300).collect();
    let tree = tree_of(&values);
    let (nodes, edges) = tree.render_projection();
    assert_eq!(nodes.len(), 300);
    assert_eq!(edges.len(), 299);
    assert_eq!(nodes[0].0, 0);
    let mut seen: Vec<i32> = nodes.iter().map(|n| n.1).collect();
    seen.sort();
    assert_eq!(seen, values);
    for (p, c) in &edges {
        assert!(*c == 2 * p + 1 || *c == 2 * p + 2);
    }
}

#[test]
fn search_and_insert_positions() {
    let mut tree = tree_of(&[50, 30, 70, 20]);
    let steps = tree.execute_with_steps(Operation::Search(20)).unwrap();
    assert_eq!(steps[1].highlight_indices, vec![0]);
    assert_eq!(steps[2].highlight_indices, vec![1]);
    assert_eq!(steps[3].highlight_indices, vec![3]);
    let steps = tree.execute_with_steps(Operation::Insert(0, 80)).unwrap();
    let placed = steps.iter().find(|s| s.metadata[0].key == "inserted").unwrap();
    assert_eq!(placed.active_indices, vec![6]);
    let steps = tree.execute_with_steps(Operation::Traverse).unwrap();
    assert_eq!(steps[1].highlight_indices, vec![3]);
    assert_eq!(steps[1].metadata[1].key, "color");
}
