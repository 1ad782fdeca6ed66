use tree::{Forest, TreeNode};

/// Nine nodes with the values 1 to 9; the node with value `v` has handle `v - 1`.
fn nine_nodes() -> (Forest<i32>, Vec<usize>) {
    let mut forest = Forest::new();
    let mut handles = Vec::new();
    for value in 1..=9 {
        handles.push(forest.insert(value));
    }
    (forest, handles)
}

fn build_example() -> (Forest<i32>, Vec<usize>) {
    let (mut forest, n) = nine_nodes();
    TreeNode::set_multiple_relationships(&mut forest, n[0], &[n[1], n[2]]).unwrap();
    TreeNode::set_relationship(&mut forest, n[2], n[3]).unwrap();
    TreeNode::set_multiple_relationships(&mut forest, n[3], &[n[4], n[5], n[6]]).unwrap();
    TreeNode::set_multiple_relationships(&mut forest, n[1], &[n[7], n[8]]).unwrap();
    (forest, n)
}

#[test]
fn end_to_end_scenario() {
    let (forest, n) = build_example();

    let second_of_root = forest.node(n[0]).get_children()[1];
    assert_eq!(second_of_root, n[2]);
    let first_below = forest.node(second_of_root).get_children()[0];
    assert_eq!(first_below, n[3]);
    let third_below = forest.node(first_below).get_children()[2];
    assert_eq!(third_below, n[6]);
    assert_eq!(forest.node(third_below).get_printable_value(), "7");

    let depths: Vec<usize> = n.iter().map(|&id| forest.node(id).get_depth()).collect();
    assert_eq!(depths, vec![0, 1, 1, 2, 3, 3, 3, 2, 2]);
}

#[test]
fn end_to_end_scenario_links() {
    let (forest, n) = build_example();
    assert_eq!(forest.node(n[0]).get_children(), &vec![n[1], n[2]]);
    assert_eq!(forest.node(n[1]).get_children(), &vec![n[7], n[8]]);
    assert_eq!(forest.node(n[2]).get_children(), &vec![n[3]]);
    assert_eq!(forest.node(n[3]).get_children(), &vec![n[4], n[5], n[6]]);
    for leaf in [n[4], n[5], n[6], n[7], n[8]] {
        assert!(forest.node(leaf).get_children().is_empty());
    }
    let parents: Vec<Option<usize>> = n.iter().map(|&id| forest.node(id).get_parent()).collect();
    assert_eq!(
        parents,
        vec![
            None,
            Some(n[0]),
            Some(n[0]),
            Some(n[2]),
            Some(n[3]),
            Some(n[3]),
            Some(n[3]),
            Some(n[1]),
            Some(n[1]),
        ]
    );
}

#[test]
fn new_node_is_isolated() {
    let node = TreeNode::new(5);
    assert_eq!(node.get_parent(), None);
    assert!(node.get_children().is_empty());
    assert_eq!(node.get_depth(), 0);
    assert_eq!(node.get_printable_value(), "5");
}

#[test]
fn empty_forest_has_no_nodes() {
    let forest: Forest<i32> = Forest::new();
    assert_eq!(forest.len(), 0);
}

#[test]
fn insert_returns_consecutive_handles() {
    let (forest, n) = nine_nodes();
    assert_eq!(n, vec![0, 1, 2, 3, 4, 5, 6, 7, 8]);
    assert_eq!(forest.len(), 9);
    for &id in &n {
        let node = forest.node(id);
        assert_eq!(node.get_parent(), None);
        assert!(node.get_children().is_empty());
        assert_eq!(node.get_depth(), 0);
        assert_eq!(node.get_printable_value(), (id + 1).to_string());
    }
}

#[test]
fn printable_value_is_the_rendering_of_the_value() {
    let mut forest = Forest::new();
    let word = forest.insert(String::from("oak"));
    let mut numbers = Forest::new();
    let negative = numbers.insert(-12);
    assert_eq!(forest.node(word).get_printable_value(), "oak");
    assert_eq!(numbers.node(negative).get_printable_value(), "-12");
}

#[test]
fn root_of_follows_the_parents() {
    let (forest, n) = build_example();
    for &id in &n {
        assert_eq!(forest.root_of(id), n[0]);
    }
    let (loose, m) = nine_nodes();
    for &id in &m {
        assert_eq!(loose.root_of(id), id);
    }
}
