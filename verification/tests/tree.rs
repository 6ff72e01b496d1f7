use indenty::tree::RoseTree;

#[test]
fn node_has_value_and_no_children() {
    let tree = RoseTree::node(7);
    assert_eq!(tree.value, 7);
    assert!(tree.children.is_empty());
}

#[test]
fn new_keeps_value_and_children_in_order() {
    let tree = RoseTree::new("a", vec![RoseTree::node("b"), RoseTree::node("c")]);
    assert_eq!(tree.value, "a");
    assert_eq!(tree.children.len(), 2);
    assert_eq!(tree.children[0].value, "b");
    assert_eq!(tree.children[1].value, "c");
}

#[test]
fn new_without_children_equals_node() {
    assert_eq!(RoseTree::new(1, vec![]), RoseTree::node(1));
}

#[test]
fn equal_trees_are_equal() {
    let left = RoseTree::new(1, vec![RoseTree::node(2), RoseTree::new(3, vec![RoseTree::node(4)])]);
    let right = RoseTree::new(1, vec![RoseTree::node(2), RoseTree::new(3, vec![RoseTree::node(4)])]);
    assert!(left == right);
}

#[test]
fn trees_with_other_root_value_differ() {
    assert!(RoseTree::node(1) != RoseTree::node(2));
}

#[test]
fn trees_with_other_child_count_differ() {
    let one = RoseTree::new(1, vec![RoseTree::node(2)]);
    let two = RoseTree::new(1, vec![RoseTree::node(2), RoseTree::node(3)]);
    assert!(one != two);
    assert!(two != one);
    assert!(one != RoseTree::node(1));
}

#[test]
fn trees_with_children_in_other_order_differ() {
    let left = RoseTree::new(1, vec![RoseTree::node(2), RoseTree::node(3)]);
    let right = RoseTree::new(1, vec![RoseTree::node(3), RoseTree::node(2)]);
    assert!(left != right);
}

#[test]
fn trees_that_differ_deep_down_differ() {
    let left = RoseTree::new(1, vec![RoseTree::new(2, vec![RoseTree::node(3)])]);
    let right = RoseTree::new(1, vec![RoseTree::new(2, vec![RoseTree::node(4)])]);
    assert!(left != right);
}
