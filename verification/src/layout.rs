use crate::tree::{lemma_view_unfolds, RoseTree, Tree};
use std::fmt::Display;
use vstd::prelude::*;

verus! {

/// A document that describes how a tree is to be laid out, before any width is known.
#[derive(Debug, PartialEq, Eq)]
pub enum Layout<'a, T> {
    /// The text of a value, as `Display` writes it.
    Value(&'a T),
    /// A fixed text.
    Text(&'a str),
    /// A line break.
    Line,
    /// A space, or a line break where the group around it does not fit on the line.
    SoftLine,
    /// One document, then another.
    Append(Box<Layout<'a, T>>, Box<Layout<'a, T>>),
    /// Documents in order, with a separator between each two.
    Join(Vec<Layout<'a, T>>, Box<Layout<'a, T>>),
    /// A document whose lines after a break are indented by so many columns.
    Nest(usize, Box<Layout<'a, T>>),
    /// A document that is laid out on one line where it fits.
    Group(Box<Layout<'a, T>>),
}

/// The mathematical document that a `Layout` stands for, part for part.
pub enum Outline<T> {
    /// The text of a value, as `Display` writes it.
    Value(T),
    /// A fixed text.
    Text(Seq<char>),
    /// A line break.
    Line,
    /// A space, or a line break where the group around it does not fit on the line.
    SoftLine,
    /// One document, then another.
    Append(Box<Outline<T>>, Box<Outline<T>>),
    /// Documents in order, with a separator between each two.
    Join(Seq<Outline<T>>, Box<Outline<T>>),
    /// A document whose lines after a break are indented by so many columns.
    Nest(nat, Box<Outline<T>>),
    /// A document that is laid out on one line where it fits.
    Group(Box<Outline<T>>),
}

/// The document that `layout` stands for.
pub open spec fn layout_view<'a, T>(layout: Layout<'a, T>) -> Outline<T>
    decreases layout,
{
    match layout {
        Layout::Value(value) => Outline::Value(*value),
        Layout::Text(text) => Outline::Text(text@),
        Layout::Line => Outline::Line,
        Layout::SoftLine => Outline::SoftLine,
        Layout::Append(first, second) => Outline::Append(
            Box::new(layout_view(*first)),
            Box::new(layout_view(*second)),
        ),
        Layout::Join(parts, separator) => Outline::Join(
            Seq::new(
                parts@.len(),
                |i: int|
                    if 0 <= i < parts@.len() {
                        layout_view(parts@[i])
                    } else {
                        arbitrary()
                    },
            ),
            Box::new(layout_view(*separator)),
        ),
        Layout::Nest(columns, inner) => Outline::Nest(columns as nat, Box::new(layout_view(*inner))),
        Layout::Group(inner) => Outline::Group(Box::new(layout_view(*inner))),
    }
}

impl<'a, T> View for Layout<'a, T> {
    type V = Outline<T>;

    open spec fn view(&self) -> Outline<T> {
        layout_view(*self)
    }
}

/// The views of a sequence of layouts, in order.
pub open spec fn layouts_view<'a, T>(parts: Seq<Layout<'a, T>>) -> Seq<Outline<T>> {
    Seq::new(parts.len(), |i: int| parts[i]@)
}

/// `first`, then `second`.
pub open spec fn append<T>(first: Outline<T>, second: Outline<T>) -> Outline<T> {
    Outline::Append(Box::new(first), Box::new(second))
}

/// The outlines of `trees`, in order.
pub open spec fn outlines<T>(trees: Seq<Tree<T>>, vertical: bool) -> Seq<Outline<T>>
    decreases trees, 0int,
{
    Seq::new(
        trees.len(),
        |i: int|
            if 0 <= i < trees.len() {
                outline(trees[i], vertical)
            } else {
                arbitrary()
            },
    )
}

/// How a tree is laid out.
///
/// A tree without children is the text of its value. Laid out vertically, a tree is its
/// value and a line break, then its children, one per line and a line break after the
/// last, all of it indented by two columns after each break. Laid out horizontally, it is
/// its value, a space, an arrow and a line break, then, as a group indented by two
/// columns, a soft line and its children with a comma and a space between each two.
pub open spec fn outline<T>(tree: Tree<T>, vertical: bool) -> Outline<T>
    decreases tree, 1int,
{
    let value = Outline::Value(tree.value);
    if tree.children.len() == 0 {
        value
    } else if vertical {
        let head = append(value, Outline::Line);
        let below = append(
            Outline::Join(outlines(tree.children, vertical), Box::new(Outline::Line)),
            Outline::Line,
        );
        append(Outline::Nest(2, Box::new(head)), Outline::Nest(2, Box::new(below)))
    } else {
        let head = append(
            append(append(value, Outline::Text(" "@)), Outline::Text("=>"@)),
            Outline::Line,
        );
        let below = append(
            Outline::SoftLine,
            Outline::Join(outlines(tree.children, vertical), Box::new(Outline::Text(", "@))),
        );
        append(head, Outline::Group(Box::new(Outline::Nest(2, Box::new(below)))))
    }
}

impl<T> RoseTree<T> {
    /// The document that lays this tree out, one child per line where `vertical` is set,
    /// and otherwise as a head with an arrow and the children in a row.
    pub fn to_doc<'a>(&'a self, vertical: bool) -> (doc: Layout<'a, T>) where T: Display
        ensures
            doc@ == outline(self@, vertical),
        decreases self,
    {
        proof {
            lemma_view_unfolds(*self);
            reveal_with_fuel(layout_view, 8);
        }
        let count = self.children.len();
        if count == 0 {
            return Layout::Value(&self.value);
        }
        let mut parts: Vec<Layout<'a, T>> = Vec::new();
        let mut i: usize = 0;
        while i < count
            invariant
                count == self.children@.len(),
                i <= count,
                parts@.len() == i,
                forall|j: int|
                    0 <= j < i ==> (#[trigger] parts@[j])@ == outline(self.children@[j]@, vertical),
            decreases count - i,
        {
            let part = self.children[i].to_doc(vertical);
            parts.push(part);
            i += 1;
        }
        let ghost joined = layouts_view(parts@);
        assert(joined =~= outlines(self@.children, vertical));
        let value = Layout::Value(&self.value);
        if vertical {
            let head = Layout::Append(Box::new(value), Box::new(Layout::Line));
            let list = Layout::Join(parts, Box::new(Layout::Line));
            assert(list@ == Outline::Join(joined, Box::new(Outline::Line))) by {
                assert(list@->Join_0 =~= joined);
            }
            let below = Layout::Append(Box::new(list), Box::new(Layout::Line));
            Layout::Append(Box::new(Layout::Nest(2, Box::new(head))), Box::new(Layout::Nest(2, Box::new(below))))
        } else {
            let spaced = Layout::Append(Box::new(value), Box::new(Layout::Text(" ")));
            let arrowed = Layout::Append(Box::new(spaced), Box::new(Layout::Text("=>")));
            let head = Layout::Append(Box::new(arrowed), Box::new(Layout::Line));
            let list = Layout::Join(parts, Box::new(Layout::Text(", ")));
            assert(list@ == Outline::Join(joined, Box::new(Outline::Text(", "@)))) by {
                assert(list@->Join_0 =~= joined);
            }
            let below = Layout::Append(Box::new(Layout::SoftLine), Box::new(list));
            Layout::Append(Box::new(head), Box::new(Layout::Group(Box::new(Layout::Nest(2, Box::new(below))))))
        }
    }
}

} // verus!
