use std::cmp::Ordering;

use indenty::error::IndentationError;
use indenty::prefix::Prefixable;
use indenty::tree::RoseTree;

fn preorder<T: Clone>(forest: &[RoseTree<T>], out: &mut Vec<T>) {
    for tree in forest {
        out.push(tree.value.clone());
        preorder(&tree.children, out);
    }
}

fn depths<T>(forest: &[RoseTree<T>], depth: usize, out: &mut Vec<usize>) {
    for tree in forest {
        out.push(depth);
        depths(&tree.children, depth + 1, out);
    }
}

fn nested_by_key<T>(tree: &RoseTree<(&str, T)>) -> bool {
    tree.children.iter().all(|child| {
        tree.value.0.prefix_ord(&child.value.0) == Some(Ordering::Less)
            && child.value.0.prefix_ord(&tree.children[0].value.0) == Some(Ordering::Equal)
            && nested_by_key(child)
    })
}

fn relabel(tree: &RoseTree<i32>) -> RoseTree<String> {
    RoseTree::new(
        format!("v{}", tree.value),
        tree.children.iter().map(relabel).collect(),
    )
}

fn sample() -> Vec<(&'static str, i32)> {
    vec![
        ("", 1),
        ("  ", 2),
        ("    ", 3),
        ("    ", 4),
        ("  ", 5),
        ("      ", 6),
        ("", 7),
        (" ", 8),
    ]
}

#[test]
fn empty_input_gives_empty_forest() {
    let none: Vec<(&str, i32)> = vec![];
    assert_eq!(RoseTree::from_prefixables(none.into_iter()), Ok(vec![]));
}

#[test]
fn single_item_gives_single_leaf() {
    let one: Vec<(&str, char)> = vec![("\t\t", 'x')];
    assert_eq!(
        RoseTree::from_prefixables(one.into_iter()),
        Ok(vec![RoseTree::node('x')])
    );
}

#[test]
fn flat_input_off_base_gives_leaves_in_order() {
    let lines: Vec<(&str, i32)> = vec![("  ", 3), ("  ", 1), ("  ", 2)];
    assert_eq!(
        RoseTree::from_prefixables(lines.into_iter()),
        Ok(vec![RoseTree::node(3), RoseTree::node(1), RoseTree::node(2)])
    );
}

#[test]
fn dedent_crosses_several_levels_at_once() {
    let lines: Vec<(&str, i32)> = vec![("", 1), (" ", 2), ("  ", 3), ("   ", 4), ("", 5)];
    assert_eq!(
        RoseTree::from_prefixables(lines.into_iter()),
        Ok(vec![
            RoseTree::new(
                1,
                vec![RoseTree::new(2, vec![RoseTree::new(3, vec![RoseTree::node(4)])])]
            ),
            RoseTree::node(5),
        ])
    );
}

#[test]
fn dedent_to_a_middle_level_adds_a_sibling_there() {
    let lines: Vec<(&str, i32)> = vec![("", 1), (" ", 2), ("  ", 3), (" ", 4), ("  ", 5)];
    assert_eq!(
        RoseTree::from_prefixables(lines.into_iter()),
        Ok(vec![RoseTree::new(
            1,
            vec![
                RoseTree::new(2, vec![RoseTree::node(3)]),
                RoseTree::new(4, vec![RoseTree::node(5)]),
            ]
        )])
    );
}

#[test]
fn deeper_key_may_skip_columns() {
    let lines: Vec<(&str, i32)> = vec![("", 1), ("    ", 2), ("    ", 3), ("", 4)];
    assert_eq!(
        RoseTree::from_prefixables(lines.into_iter()),
        Ok(vec![
            RoseTree::new(1, vec![RoseTree::node(2), RoseTree::node(3)]),
            RoseTree::node(4),
        ])
    );
}

#[test]
fn later_children_follow_earlier_ones_under_one_parent() {
    let lines: Vec<(&str, i32)> = vec![("", 1), (" ", 2), ("  ", 3), (" ", 4), (" ", 5)];
    assert_eq!(
        RoseTree::from_prefixables(lines.into_iter()),
        Ok(vec![RoseTree::new(
            1,
            vec![
                RoseTree::new(2, vec![RoseTree::node(3)]),
                RoseTree::node(4),
                RoseTree::node(5),
            ]
        )])
    );
}

#[test]
fn dedent_between_open_levels_is_invalid() {
    let lines: Vec<(&str, i32)> = vec![("", 1), ("    ", 2), ("  ", 3)];
    assert_eq!(
        RoseTree::from_prefixables(lines.into_iter()),
        Err(IndentationError::InvalidIndent)
    );
}

#[test]
fn dedent_to_a_level_that_was_folded_away_is_invalid() {
    let lines: Vec<(&str, i32)> = vec![("", 1), ("  ", 2), ("", 3), ("    ", 4), ("  ", 5)];
    assert_eq!(
        RoseTree::from_prefixables(lines.into_iter()),
        Err(IndentationError::InvalidIndent)
    );
}

#[test]
fn dedent_below_the_base_level_is_invalid() {
    let lines: Vec<(&str, i32)> = vec![("  ", 1), ("   ", 2), (" ", 3)];
    assert_eq!(
        RoseTree::from_prefixables(lines.into_iter()),
        Err(IndentationError::InvalidIndent)
    );
}

#[test]
fn unrelated_second_key_is_incoherent() {
    let lines: Vec<(&str, i32)> = vec![(" ", 1), ("\t", 2)];
    assert_eq!(
        RoseTree::from_prefixables(lines.into_iter()),
        Err(IndentationError::IncoherentIndent)
    );
}

#[test]
fn first_error_wins_over_later_items() {
    let lines: Vec<(&str, i32)> = vec![("", 1), (" ", 2), ("\t", 3), ("", 4), (" ", 5)];
    assert_eq!(
        RoseTree::from_prefixables(lines.into_iter()),
        Err(IndentationError::IncoherentIndent)
    );
    let lines: Vec<(&str, i32)> = vec![(" ", 1), ("", 2), ("\t", 3)];
    assert_eq!(
        RoseTree::from_prefixables(lines.into_iter()),
        Err(IndentationError::InvalidIndent)
    );
}

#[test]
fn key_is_compared_with_the_innermost_level_only() {
    let lines: Vec<(&str, i32)> = vec![("", 1), (" a", 2), (" b", 3)];
    assert_eq!(
        RoseTree::from_prefixables(lines.into_iter()),
        Err(IndentationError::IncoherentIndent)
    );
}

#[test]
fn items_may_come_from_any_iterator() {
    let keys = ["", " ", " "];
    let built = RoseTree::from_prefixables((0..3usize).map(|i| (keys[i], i * 10)));
    assert_eq!(
        built,
        Ok(vec![RoseTree::new(0, vec![RoseTree::node(10), RoseTree::node(20)])])
    );
}

#[test]
fn owned_values_are_moved_into_the_forest() {
    let lines: Vec<(&str, String)> = vec![("", String::from("a")), (" ", String::from("b"))];
    assert_eq!(
        RoseTree::from_prefixables(lines.into_iter()),
        Ok(vec![RoseTree::new(
            String::from("a"),
            vec![RoseTree::node(String::from("b"))]
        )])
    );
}

#[test]
fn reference_keys_build_the_same_forest() {
    let keys: Vec<&str> = vec!["", " ", "  ", " "];
    let by_reference: Vec<(&&str, i32)> = vec![(&keys[0], 1), (&keys[1], 2), (&keys[2], 3), (&keys[3], 4)];
    let by_value: Vec<(&str, i32)> = vec![(keys[0], 1), (keys[1], 2), (keys[2], 3), (keys[3], 4)];
    let expected = vec![RoseTree::new(
        1,
        vec![RoseTree::new(2, vec![RoseTree::node(3)]), RoseTree::node(4)],
    )];
    assert_eq!(RoseTree::from_prefixables(by_value.into_iter()), Ok(expected));
    let expected = vec![RoseTree::new(
        1,
        vec![RoseTree::new(2, vec![RoseTree::node(3)]), RoseTree::node(4)],
    )];
    assert_eq!(RoseTree::from_prefixables(by_reference.into_iter()), Ok(expected));
}

#[test]
fn rising_keys_give_one_chain() {
    let keys = ["a", "ab", "abc", "abcd", "abcde"];
    let built = RoseTree::from_prefixables(keys.iter().map(|key| (*key, key.len())));
    let mut expected = RoseTree::node(5);
    for value in (1..5).rev() {
        expected = RoseTree::new(value, vec![expected]);
    }
    assert_eq!(built, Ok(vec![expected]));
}

#[test]
fn preorder_of_the_forest_is_the_input_order() {
    let forest = RoseTree::from_prefixables(sample().into_iter()).unwrap();
    let mut walked = Vec::new();
    preorder(&forest, &mut walked);
    assert_eq!(walked, vec![1, 2, 3, 4, 5, 6, 7, 8]);
}

#[test]
fn depths_follow_the_keys() {
    let items = sample();
    let forest = RoseTree::from_prefixables(items.clone().into_iter()).unwrap();
    let mut found = Vec::new();
    depths(&forest, 0, &mut found);
    assert_eq!(found, vec![0, 1, 2, 2, 1, 2, 0, 1]);
    for i in 1..items.len() {
        match items[i].0.prefix_ord(&items[i - 1].0) {
            Some(Ordering::Equal) => assert_eq!(found[i], found[i - 1]),
            Some(Ordering::Greater) => assert_eq!(found[i], found[i - 1] + 1),
            Some(Ordering::Less) => assert!(found[i] < found[i - 1]),
            None => panic!("keys {} and {} are unrelated", i - 1, i),
        }
    }
}

#[test]
fn nesting_follows_the_keys() {
    let items = sample();
    let with_keys: Vec<(&str, (&str, i32))> = items.iter().map(|item| (item.0, *item)).collect();
    let forest = RoseTree::from_prefixables(with_keys.into_iter()).unwrap();
    assert_eq!(forest.len(), 2);
    for root in &forest {
        assert_eq!(root.value.0.prefix_ord(&items[0].0), Some(Ordering::Equal));
        assert!(nested_by_key(root));
    }
    let mut walked = Vec::new();
    preorder(&forest, &mut walked);
    assert_eq!(walked, items);
}

#[test]
fn values_do_not_shape_the_forest() {
    let items = sample();
    let plain = RoseTree::from_prefixables(items.clone().into_iter()).unwrap();
    let renamed = RoseTree::from_prefixables(
        items.into_iter().map(|(key, value)| (key, format!("v{}", value))),
    )
    .unwrap();
    let expected: Vec<RoseTree<String>> = plain.iter().map(relabel).collect();
    assert_eq!(renamed, expected);
}

#[test]
fn root_count_is_the_count_of_base_level_keys() {
    let items = sample();
    let base = items.iter().filter(|item| item.0 == items[0].0).count();
    let forest = RoseTree::from_prefixables(items.into_iter()).unwrap();
    assert_eq!(forest.len(), base);
    assert_eq!(forest.len(), 2);
}

#[test]
fn deeper_second_key_nests_under_the_base() {
    let lines: Vec<(&str, i32)> = vec![("", 1), (" ", 2)];
    assert_eq!(
        RoseTree::from_prefixables(lines.into_iter()),
        Ok(vec![RoseTree::new(1, vec![RoseTree::node(2)])])
    );
}

#[test]
fn build_reports_neither_empty_input_nor_internal_fault() {
    let inputs: Vec<Vec<(&str, i32)>> = vec![
        vec![],
        vec![("", 1)],
        vec![(" ", 1), ("", 2)],
        vec![("", 1), (" ", 2), ("\t", 3)],
        vec![("", 1), ("  ", 2), (" ", 3)],
    ];
    for lines in inputs {
        let built = RoseTree::from_prefixables(lines.into_iter());
        assert_ne!(built, Err(IndentationError::EmptyIterator));
        assert_ne!(built, Err(IndentationError::Internal));
    }
}
