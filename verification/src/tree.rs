use vstd::prelude::*;
use vstd::std_specs::cmp::{PartialEqSpec, PartialEqSpecImpl};

verus! {

/// A value with an ordered sequence of owned subtrees.
#[derive(Debug, Eq)]
pub struct RoseTree<T> {
    pub value: T,
    pub children: Vec<RoseTree<T>>,
}

/// The mathematical tree that a `RoseTree` stands for.
pub struct Tree<T> {
    pub value: T,
    pub children: Seq<Tree<T>>,
}

/// The tree that `tree` stands for: its value, above the trees that its children stand
/// for, in order.
pub open spec fn tree_view<T>(tree: RoseTree<T>) -> Tree<T>
    decreases tree,
{
    Tree {
        value: tree.value,
        children: Seq::new(
            tree.children@.len(),
            |i: int|
                if 0 <= i < tree.children@.len() {
                    tree_view(tree.children@[i])
                } else {
                    arbitrary()
                },
        ),
    }
}

impl<T> View for RoseTree<T> {
    type V = Tree<T>;

    open spec fn view(&self) -> Tree<T> {
        tree_view(*self)
    }
}

/// The values of the two trees are equal, they have as many children, and their children
/// are equal in the same way, each with the child at its place in the other tree.
pub open spec fn trees_equal<T: PartialEq>(left: RoseTree<T>, right: RoseTree<T>) -> bool
    decreases left,
{
    &&& left.value.eq_spec(&right.value)
    &&& left.children@.len() == right.children@.len()
    &&& forall|i: int|
        0 <= i < left.children@.len() ==> trees_equal(
            #[trigger] left.children@[i],
            right.children@[i],
        )
}

/// Two trees are equal where their values are equal and their children are equal, one
/// by one and in order.
impl<T: PartialEq> PartialEq for RoseTree<T> {
    fn eq(&self, other: &Self) -> (equal: bool)
        decreases self,
    {
        if !(self.value == other.value) {
            return false;
        }
        let count = self.children.len();
        if count != other.children.len() {
            return false;
        }
        let mut i: usize = 0;
        while i < count
            invariant
                count == self.children@.len(),
                count == other.children@.len(),
                i <= count,
                T::obeys_eq_spec() ==> forall|j: int|
                    0 <= j < i ==> trees_equal(#[trigger] self.children@[j], other.children@[j]),
            decreases count - i,
        {
            if !self.children[i].eq(&other.children[i]) {
                return false;
            }
            i += 1;
        }
        true
    }
}

impl<T: PartialEq> PartialEqSpecImpl for RoseTree<T> {
    open spec fn obeys_eq_spec() -> bool {
        T::obeys_eq_spec()
    }

    open spec fn eq_spec(&self, other: &Self) -> bool {
        trees_equal(*self, *other)
    }
}

/// A tree without children.
pub open spec fn leaf<T>(value: T) -> Tree<T> {
    Tree { value, children: Seq::empty() }
}

/// The trees that a sequence of `RoseTree`s stands for, in order.
pub open spec fn forest_view<T>(trees: Seq<RoseTree<T>>) -> Seq<Tree<T>> {
    Seq::new(trees.len(), |i: int| trees[i]@)
}

/// A tree's view holds its value and the views of its children, in order.
pub proof fn lemma_view_unfolds<T>(tree: RoseTree<T>)
    ensures
        tree@ == (Tree { value: tree.value, children: forest_view(tree.children@) }),
{
    assert(tree@.children =~= forest_view(tree.children@));
}

/// Where `==` on the values is equality, two trees are equal just when they stand for
/// the same mathematical tree.
pub proof fn lemma_equal_trees_have_equal_views<T: PartialEq>(left: RoseTree<T>, right: RoseTree<T>)
    requires
        forall|a: T, b: T| #[trigger] a.eq_spec(&b) <==> a == b,
    ensures
        trees_equal(left, right) <==> left@ == right@,
    decreases left,
{
    lemma_view_unfolds(left);
    lemma_view_unfolds(right);
    let count = left.children@.len();
    if left.value == right.value && count == right.children@.len() {
        assert forall|i: int| 0 <= i < count implies (trees_equal(
            #[trigger] left.children@[i],
            right.children@[i],
        ) <==> left@.children[i] == right@.children[i]) by {
            lemma_equal_trees_have_equal_views(left.children@[i], right.children@[i]);
        }
        if trees_equal(left, right) {
            assert(left@.children =~= right@.children);
        }
    } else if left@ == right@ {
        assert(left@.children.len() == right@.children.len());
    }
}

impl<T> RoseTree<T> {
    /// A tree that holds `value` and has no children.
    pub fn node(value: T) -> (r: Self)
        ensures
            r.value == value,
            r.children@.len() == 0,
            r@ == leaf(value),
    {
        let r = RoseTree { value, children: Vec::new() };
        assert(r@.children =~= Seq::empty());
        r
    }

    /// A tree that holds `value` above `children`, in their order.
    pub fn new(value: T, children: Vec<RoseTree<T>>) -> (r: Self)
        ensures
            r.value == value,
            r.children == children,
            r@ == (Tree { value, children: forest_view(children@) }),
    {
        let r = RoseTree { value, children };
        assert(r@.children =~= forest_view(children@));
        r
    }
}

} // verus!
