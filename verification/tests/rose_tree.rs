use std::collections::HashMap;
use std::collections::HashSet;

use lezeh::rose_tree::RoseTreeNode;

fn level(values: Vec<&'static str>) -> HashSet<&'static str> {
    values.into_iter().collect()
}

#[test]
fn it_should_load_parents() {
    let mut node = RoseTreeNode::new("level_0");
    let mut parent_a = RoseTreeNode::new("level_1_parent_a");
    let mut parent_b = RoseTreeNode::new("level_1_parent_b");

    parent_a.set_parents(vec![RoseTreeNode::new("level_2_parent_a")]);
    parent_b.set_children(vec![RoseTreeNode::new("level_1_child_b")]);

    node.set_parents(vec![parent_a, parent_b.clone()]);

    let parents_by_level = RoseTreeNode::parents_by_level(node);

    let mut expected_structure: HashMap<i32, HashSet<&str>> = HashMap::new();
    expected_structure.insert(-1, level(vec!["level_1_parent_b", "level_1_parent_a"]));
    expected_structure.insert(-2, level(vec!["level_2_parent_a"]));

    assert_eq!(parents_by_level, expected_structure);
}

#[test]
fn it_should_load_children() {
    let mut node = RoseTreeNode::new("level_0");
    let mut child_a = RoseTreeNode::new("level_1_child_a");
    let mut child_b = RoseTreeNode::new("level_1_child_b");
    let mut level_2_child_a = RoseTreeNode::new("level_2_child_a");
    let level_2_child_b = RoseTreeNode::new("level_2_child_b");

    level_2_child_a.set_parents(vec![RoseTreeNode::new("level_1_parent_x")]);

    child_a.set_children(vec![level_2_child_a.clone()]);
    child_b.set_children(vec![level_2_child_b.clone()]);
    child_b.set_parents(vec![RoseTreeNode::new("level_0_parent_b")]);

    node.set_children(vec![child_a, child_b.clone()]);

    let mut parents_by_level: HashMap<i32, HashSet<&str>> = Default::default();
    let children_vec = RoseTreeNode::children_by_level(node, &mut parents_by_level);

    let mut expected_children_structure: HashMap<i32, HashSet<&str>> = HashMap::new();
    expected_children_structure.insert(1, level(vec!["level_1_child_a", "level_1_child_b"]));
    expected_children_structure.insert(2, level(vec!["level_2_child_a", "level_2_child_b"]));

    let mut expected_parents_structure: HashMap<i32, HashSet<&str>> = HashMap::new();
    expected_parents_structure.insert(0, level(vec!["level_0_parent_b"]));
    expected_parents_structure.insert(1, level(vec!["level_1_parent_x"]));

    assert_eq!(children_vec, expected_children_structure);
    assert_eq!(parents_by_level, expected_parents_structure);
}

#[test]
fn it_should_load_parents_into_existing_levels() {
    let mut node = RoseTreeNode::new("level_0");
    let mut child_a = RoseTreeNode::new("level_1_child_a");
    let mut child_b = RoseTreeNode::new("level_1_child_b");

    let mut parent_a = RoseTreeNode::new("level_0_parent_a");
    parent_a.set_parents(vec![RoseTreeNode::new("level_1_parent_a")]);

    child_a.set_parents(vec![parent_a.clone()]);

    child_a.set_children(vec![RoseTreeNode::new("level_2_child_a")]);
    child_b.set_parents(vec![RoseTreeNode::new("level_0_parent_b")]);

    node.set_children(vec![child_a, child_b]);

    let mut parents_by_level: HashMap<i32, HashSet<&str>> = HashMap::new();
    parents_by_level.insert(-1, level(vec!["level_1_parent_a"]));
    parents_by_level.insert(-2, level(vec!["level_2_parent_a", "level_2_parent_b"]));

    let children_vec = RoseTreeNode::children_by_level(node, &mut parents_by_level);

    let mut expected_children_structure: HashMap<i32, HashSet<&str>> = HashMap::new();
    expected_children_structure.insert(1, level(vec!["level_1_child_a", "level_1_child_b"]));
    expected_children_structure.insert(2, level(vec!["level_2_child_a"]));

    let mut expected_parents_structure: HashMap<i32, HashSet<&str>> = HashMap::new();
    expected_parents_structure.insert(0, level(vec!["level_0_parent_a", "level_0_parent_b"]));
    expected_parents_structure.insert(-1, level(vec!["level_1_parent_a"]));
    expected_parents_structure.insert(-2, level(vec!["level_2_parent_a", "level_2_parent_b"]));

    assert_eq!(
        children_vec, expected_children_structure,
        "not equal left {:#?} and {:#?}",
        children_vec, expected_children_structure
    );
    assert_eq!(parents_by_level, expected_parents_structure);
}

#[test]
fn nodes_by_level_puts_the_node_at_level_zero() {
    let mut node = RoseTreeNode::new("order");
    let mut item = RoseTreeNode::new("order_item");
    item.set_parents(vec![RoseTreeNode::new("product")]);
    node.set_parents(vec![RoseTreeNode::new("store")]);
    node.set_children(vec![item]);

    let levels = RoseTreeNode::nodes_by_level(node);

    let mut expected: HashMap<i32, HashSet<&str>> = HashMap::new();
    expected.insert(-1, level(vec!["store"]));
    expected.insert(0, level(vec!["order", "product"]));
    expected.insert(1, level(vec!["order_item"]));
    assert_eq!(levels, expected);
}

#[test]
fn a_node_without_parents_has_no_parent_levels() {
    let mut node = RoseTreeNode::new("root");
    node.set_children(vec![RoseTreeNode::new("child")]);
    assert!(RoseTreeNode::parents_by_level(node).is_empty());
}

#[test]
fn a_node_without_children_leaves_the_parent_levels_as_they_are() {
    let mut node = RoseTreeNode::new("leaf");
    node.set_parents(vec![RoseTreeNode::new("parent")]);
    let mut parents_by_level: HashMap<i32, HashSet<&str>> = HashMap::new();
    parents_by_level.insert(-1, level(vec!["x"]));
    let children = RoseTreeNode::children_by_level(node, &mut parents_by_level);
    assert!(children.is_empty());
    let mut expected: HashMap<i32, HashSet<&str>> = HashMap::new();
    expected.insert(-1, level(vec!["x"]));
    assert_eq!(parents_by_level, expected);
}

#[test]
fn getters_and_setters_keep_the_value() {
    let mut node = RoseTreeNode::new(7);
    node.set_children(vec![RoseTreeNode::new(8)]);
    node.set_parents(vec![RoseTreeNode::new(6)]);
    assert_eq!(node.children.len(), 1);
    assert_eq!(node.parents.len(), 1);
    assert_eq!(node.get_value(), 7);
}

#[test]
fn nodes_by_level_keeps_the_co_parents_of_descendants() {
    let mut grand_child = RoseTreeNode::new("level_2_child_a");
    grand_child.set_parents(vec![RoseTreeNode::new("level_1_parent_x")]);
    let mut child = RoseTreeNode::new("level_1_child_a");
    child.set_children(vec![grand_child]);
    let mut node = RoseTreeNode::new("level_0");
    node.set_children(vec![child]);

    let mut expected: HashMap<i32, HashSet<&str>> = HashMap::new();
    expected.insert(0, level(vec!["level_0"]));
    expected.insert(1, level(vec!["level_1_child_a", "level_1_parent_x"]));
    expected.insert(2, level(vec!["level_2_child_a"]));

    assert_eq!(RoseTreeNode::nodes_by_level(node), expected);
}
