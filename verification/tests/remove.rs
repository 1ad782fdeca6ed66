use tree::{Forest, TreeNode};

fn nodes(count: i32) -> (Forest<i32>, Vec<usize>) {
    let mut forest = Forest::new();
    let mut handles = Vec::new();
    for value in 0..count {
        handles.push(forest.insert(value));
    }
    (forest, handles)
}

fn depths(forest: &Forest<i32>) -> Vec<usize> {
    (0..forest.len()).map(|id| forest.node(id).get_depth()).collect()
}

fn parents(forest: &Forest<i32>) -> Vec<Option<usize>> {
    (0..forest.len()).map(|id| forest.node(id).get_parent()).collect()
}

fn children(forest: &Forest<i32>) -> Vec<Vec<usize>> {
    (0..forest.len()).map(|id| forest.node(id).get_children().clone()).collect()
}

/// 0 - {1, 2 - {3 - 5, 4}, 6}
fn sample() -> (Forest<i32>, Vec<usize>) {
    let (mut forest, n) = nodes(7);
    TreeNode::set_multiple_relationships(&mut forest, n[0], &[n[1], n[2], n[6]]).unwrap();
    TreeNode::set_multiple_relationships(&mut forest, n[2], &[n[3], n[4]]).unwrap();
    TreeNode::set_relationship(&mut forest, n[3], n[5]).unwrap();
    (forest, n)
}

#[test]
fn sample_has_the_expected_shape() {
    let (forest, _) = sample();
    assert_eq!(depths(&forest), vec![0, 1, 1, 2, 2, 3, 1]);
    assert_eq!(
        parents(&forest),
        vec![None, Some(0), Some(0), Some(2), Some(2), Some(3), Some(0)]
    );
}

#[test]
fn remove_node_promotes_children() {
    let (mut forest, n) = sample();
    TreeNode::remove_node(&mut forest, n[2]);

    // The parent keeps 1 and 6 and then takes 3 and 4, in their order.
    assert_eq!(forest.node(n[0]).get_children(), &vec![n[1], n[6], n[3], n[4]]);
    assert!(!forest.node(n[0]).get_children().contains(&n[2]));
    for promoted in [n[3], n[4]] {
        assert_eq!(forest.node(promoted).get_parent(), Some(n[0]));
        assert_eq!(forest.node(promoted).get_depth(), forest.node(n[0]).get_depth() + 1);
    }
    // The node itself is left isolated.
    assert_eq!(forest.node(n[2]).get_parent(), None);
    assert!(forest.node(n[2]).get_children().is_empty());
    assert_eq!(forest.node(n[2]).get_depth(), 0);
    assert_eq!(forest.node(n[2]).get_printable_value(), "2");
    // Whatever lay below rises by one level.
    assert_eq!(depths(&forest), vec![0, 1, 0, 1, 1, 2, 1]);
    assert_eq!(
        parents(&forest),
        vec![None, Some(0), None, Some(0), Some(0), Some(3), Some(0)]
    );
}

#[test]
fn remove_node_below_a_deep_parent() {
    let (mut forest, n) = sample();
    TreeNode::remove_node(&mut forest, n[3]);
    assert_eq!(forest.node(n[2]).get_children(), &vec![n[4], n[5]]);
    assert_eq!(forest.node(n[5]).get_parent(), Some(n[2]));
    assert_eq!(depths(&forest), vec![0, 1, 1, 0, 2, 2, 1]);
}

#[test]
fn remove_node_of_a_leaf() {
    let (mut forest, n) = sample();
    TreeNode::remove_node(&mut forest, n[5]);
    assert!(forest.node(n[3]).get_children().is_empty());
    assert_eq!(forest.node(n[5]).get_parent(), None);
    assert_eq!(depths(&forest), vec![0, 1, 1, 2, 2, 0, 1]);
}

#[test]
fn remove_node_at_a_root_orphans_children() {
    let (mut forest, n) = sample();
    TreeNode::remove_node(&mut forest, n[0]);

    assert!(forest.node(n[0]).get_children().is_empty());
    assert_eq!(forest.node(n[0]).get_parent(), None);
    for orphan in [n[1], n[2], n[6]] {
        assert_eq!(forest.node(orphan).get_parent(), None);
        assert_eq!(forest.node(orphan).get_depth(), 0);
        assert_eq!(forest.root_of(orphan), orphan);
    }
    // The orphans keep their own subtrees, one level higher than before.
    assert_eq!(forest.node(n[2]).get_children(), &vec![n[3], n[4]]);
    assert_eq!(depths(&forest), vec![0, 0, 0, 1, 1, 2, 0]);
    assert_eq!(
        parents(&forest),
        vec![None, None, None, Some(2), Some(2), Some(3), None]
    );
}

#[test]
fn remove_node_of_an_isolated_node_changes_nothing() {
    let (mut forest, n) = nodes(2);
    TreeNode::remove_node(&mut forest, n[1]);
    assert_eq!(depths(&forest), vec![0, 0]);
    assert_eq!(parents(&forest), vec![None, None]);
    assert_eq!(children(&forest), vec![Vec::<usize>::new(), Vec::new()]);
}

#[test]
fn remove_subtree_preserves_internal_structure() {
    let (mut forest, n) = sample();
    let below_before: Vec<usize> = [n[2], n[3], n[4], n[5]]
        .iter()
        .map(|&id| forest.node(id).get_depth() - forest.node(n[2]).get_depth())
        .collect();

    TreeNode::remove_subtree(&mut forest, n[2]);

    assert_eq!(forest.node(n[2]).get_parent(), None);
    assert_eq!(forest.node(n[2]).get_depth(), 0);
    assert_eq!(forest.node(n[0]).get_children(), &vec![n[1], n[6]]);
    let below_after: Vec<usize> = [n[2], n[3], n[4], n[5]]
        .iter()
        .map(|&id| forest.node(id).get_depth() - forest.node(n[2]).get_depth())
        .collect();
    assert_eq!(below_after, below_before);
    assert_eq!(below_after, vec![0, 1, 1, 2]);
    assert_eq!(forest.node(n[2]).get_children(), &vec![n[3], n[4]]);
    assert_eq!(forest.node(n[3]).get_children(), &vec![n[5]]);
    assert_eq!(depths(&forest), vec![0, 1, 0, 1, 1, 2, 1]);
    assert_eq!(
        parents(&forest),
        vec![None, Some(0), None, Some(2), Some(2), Some(3), Some(0)]
    );
    for id in [n[2], n[3], n[4], n[5]] {
        assert_eq!(forest.root_of(id), n[2]);
    }
}

#[test]
fn remove_subtree_of_a_root_is_a_no_op() {
    let (mut forest, n) = sample();
    let before = (depths(&forest), parents(&forest), children(&forest));
    TreeNode::remove_subtree(&mut forest, n[0]);
    assert_eq!((depths(&forest), parents(&forest), children(&forest)), before);
}

#[test]
fn remove_subtree_twice_is_a_no_op_the_second_time() {
    let (mut forest, n) = sample();
    TreeNode::remove_subtree(&mut forest, n[3]);
    let before = (depths(&forest), parents(&forest), children(&forest));
    assert_eq!(before.0, vec![0, 1, 1, 0, 2, 1, 1]);
    TreeNode::remove_subtree(&mut forest, n[3]);
    assert_eq!((depths(&forest), parents(&forest), children(&forest)), before);
}

#[test]
fn detached_subtree_can_be_attached_elsewhere() {
    let (mut forest, n) = sample();
    TreeNode::remove_subtree(&mut forest, n[2]);
    assert!(TreeNode::set_relationship(&mut forest, n[6], n[2]).is_ok());
    assert_eq!(forest.node(n[6]).get_children(), &vec![n[2]]);
    assert_eq!(depths(&forest), vec![0, 1, 2, 3, 3, 4, 1]);
}

#[test]
fn removed_node_can_be_attached_again() {
    let (mut forest, n) = sample();
    TreeNode::remove_node(&mut forest, n[2]);
    assert!(TreeNode::set_relationship(&mut forest, n[5], n[2]).is_ok());
    assert_eq!(forest.node(n[2]).get_parent(), Some(n[5]));
    assert_eq!(forest.node(n[2]).get_depth(), 3);
}
