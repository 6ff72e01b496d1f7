use indenty::layout::Layout;
use indenty::tree::RoseTree;

fn append<'a, T>(first: Layout<'a, T>, second: Layout<'a, T>) -> Layout<'a, T> {
    Layout::Append(Box::new(first), Box::new(second))
}

#[test]
fn leaf_is_laid_out_as_its_value() {
    let tree = RoseTree::node(5);
    assert_eq!(tree.to_doc(true), Layout::Value(&5));
    assert_eq!(tree.to_doc(false), Layout::Value(&5));
}

#[test]
fn vertical_layout_nests_head_and_children_by_two() {
    let tree = RoseTree::new(0, vec![RoseTree::node(1), RoseTree::node(2)]);
    let head = append(Layout::Value(&0), Layout::Line);
    let below = append(
        Layout::Join(vec![Layout::Value(&1), Layout::Value(&2)], Box::new(Layout::Line)),
        Layout::Line,
    );
    let expected = append(
        Layout::Nest(2, Box::new(head)),
        Layout::Nest(2, Box::new(below)),
    );
    assert_eq!(tree.to_doc(true), expected);
}

#[test]
fn horizontal_layout_puts_children_in_a_group_after_an_arrow() {
    let tree = RoseTree::new(0, vec![RoseTree::node(1), RoseTree::node(2)]);
    let head = append(
        append(append(Layout::Value(&0), Layout::Text(" ")), Layout::Text("=>")),
        Layout::Line,
    );
    let below = append(
        Layout::SoftLine,
        Layout::Join(vec![Layout::Value(&1), Layout::Value(&2)], Box::new(Layout::Text(", "))),
    );
    let expected = append(head, Layout::Group(Box::new(Layout::Nest(2, Box::new(below)))));
    assert_eq!(tree.to_doc(false), expected);
}

#[test]
fn children_are_laid_out_in_the_same_mode() {
    let tree = RoseTree::new(0, vec![RoseTree::new(3, vec![RoseTree::node(4)])]);
    let inner = RoseTree::new(3, vec![RoseTree::node(4)]);
    match tree.to_doc(true) {
        Layout::Append(_, below) => match *below {
            Layout::Nest(2, list) => match *list {
                Layout::Append(joined, _) => match *joined {
                    Layout::Join(parts, _) => {
                        assert_eq!(parts.len(), 1);
                        assert_eq!(parts[0], inner.to_doc(true));
                        assert_ne!(parts[0], inner.to_doc(false));
                    }
                    other => panic!("no list of children: {:?}", other),
                },
                other => panic!("no line after the children: {:?}", other),
            },
            other => panic!("children not nested by two: {:?}", other),
        },
        other => panic!("no head and children: {:?}", other),
    }
}
