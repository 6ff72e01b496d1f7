use indenty::error::IndentationError;
use indenty::tree::RoseTree;

#[test]
fn increasing_lines_trees() {
    let increasing_lines: Vec<(&str, i32)> = vec![(&"", 1), (&" ", 2), (&"  ", 3), (&"   ", 4)];

    assert_eq!(
        RoseTree::from_prefixables(increasing_lines.into_iter()),
        Ok(vec![RoseTree::new(
            1,
            vec![RoseTree::new(2, vec![RoseTree::new(3, vec![RoseTree::node(4)])])]
        )])
    );
}

#[test]
fn constant_indentation_trees() {
    let constant_lines: Vec<(&str, i32)> = vec![(&"", 1), (&"", 2), (&"", 3), (&"", 4)];

    assert_eq!(
        RoseTree::from_prefixables(constant_lines.into_iter()),
        Ok(vec![
            RoseTree::node(1),
            RoseTree::node(2),
            RoseTree::node(3),
            RoseTree::node(4),
        ])
    );
}

#[test]
fn incoherent_indentation() {
    let incoherent_lines: Vec<(&str, i32)> = vec![(&"", 1), (&" ", 2), (&"\t", 3)];

    assert_eq!(
        RoseTree::from_prefixables(incoherent_lines.into_iter()),
        Err(IndentationError::IncoherentIndent)
    );
}

#[test]
fn base_indent_respected() {
    let off_base_lines: Vec<(&str, i32)> = vec![
        (&" ", 1),
        (&"  ", 2),
        (&" ", 3),
        (&"  ", 4),
        (&"  ", 5),
        (&" ", 6),
    ];

    assert_eq!(
        RoseTree::from_prefixables(off_base_lines.into_iter()),
        Ok(vec![
            RoseTree::new(1, vec![RoseTree::node(2)]),
            RoseTree::new(3, vec![RoseTree::node(4), RoseTree::node(5)]),
            RoseTree::node(6),
        ])
    );
}

#[test]
fn base_indent_is_invalid_indent_error() {
    let wrong_base_lines: Vec<(&str, i32)> = vec![(&" ", 1), (&"", 2)];

    assert_eq!(
        RoseTree::from_prefixables(wrong_base_lines.into_iter()),
        Err(IndentationError::InvalidIndent)
    );
}
