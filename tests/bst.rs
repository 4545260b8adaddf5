use dsav_core::{ElementState, RenderElement, Theme, VisualizableBST};

#[test]
fn test_bst_insert() {
    let mut bst = VisualizableBST::new();
    bst.insert(50);
    bst.insert(30);
    bst.insert(70);

    assert_eq!(bst.size(), 3);
    assert!(bst.search(50));
    assert!(bst.search(30));
    assert!(bst.search(70));
}

#[test]
fn test_bst_search() {
    let mut bst = VisualizableBST::new();
    bst.insert(50);
    bst.insert(30);
    bst.insert(70);

    assert!(bst.search(50));
    assert!(bst.search(30));
    assert!(!bst.search(100));
}

#[test]
fn test_bst_empty() {
    let bst = VisualizableBST::new();
    assert!(bst.is_empty());
    assert_eq!(bst.size(), 0);
}

#[test]
fn test_bst_clear() {
    let mut bst = VisualizableBST::new();
    bst.insert(50);
    bst.insert(30);

    bst.clear();
    assert!(bst.is_empty());
    assert_eq!(bst.size(), 0);
}

#[test]
fn test_bst_no_duplicates() {
    let mut bst = VisualizableBST::new();
    bst.insert(50);
    bst.insert(50);

    assert_eq!(bst.size(), 1);
}

#[test]
fn bst_in_order_is_sorted() {
    let mut bst = VisualizableBST::new();
    for v in [8, 3, 10, 1, 6, 14, 4, 7, 13] {
        bst.insert(v);
    }
    assert_eq!(bst.collect_nodes(), vec![1, 3, 4, 6, 7, 8, 10, 13, 14]);
}

#[test]
fn render_element_builders() {
    let e = RenderElement::new(-42);
    assert_eq!(e.label, "-42");
    assert_eq!(e.sublabel, "");
    assert_eq!(e.state, ElementState::Normal);
    let e = e.with_label("x".to_string()).with_sublabel("y".to_string()).with_state(ElementState::Active);
    assert_eq!((e.value, e.label.as_str(), e.sublabel.as_str(), e.state), (-42, "x", "y", ElementState::Active));
}

#[test]
fn themes_and_names() {
    let all = Theme::all();
    assert_eq!(all.len(), 10);
    assert_eq!(all[0], Theme::Vibrant);
    assert_eq!(Theme::Nord.name(), "❄️ Nord (Cool)");
}
