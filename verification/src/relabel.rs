use crate::error::IndentationError;
use crate::forest::{
    add_sibling, adopt, build, fold_top, has_level, lemma_fold_top_well_formed,
    lemma_prune_all_leaves_base, lemma_prune_to_lands, open_level, prune_all, prune_to, roots, run, step, well_formed, Level,
};
use crate::laws::lemma_step_keeps_levels_filled;
use crate::prefix::{proper_prefix, same_level, Prefixable};
use crate::tree::{leaf, Tree};
use vstd::prelude::*;

verus! {

/// `tree` with `f` applied to each of its values.
pub open spec fn map_tree<T, U>(tree: Tree<T>, f: spec_fn(T) -> U) -> Tree<U>
    decreases tree,
{
    Tree {
        value: f(tree.value),
        children: Seq::new(
            tree.children.len(),
            |i: int|
                if 0 <= i < tree.children.len() {
                    map_tree(tree.children[i], f)
                } else {
                    arbitrary()
                },
        ),
    }
}

/// `forest` with `f` applied to each of its values.
pub open spec fn map_forest<T, U>(forest: Seq<Tree<T>>, f: spec_fn(T) -> U) -> Seq<Tree<U>> {
    Seq::new(forest.len(), |i: int| map_tree(forest[i], f))
}

/// `items` with `f` applied to each value, under the same keys.
pub open spec fn map_items<K, T, U>(items: Seq<(K, T)>, f: spec_fn(T) -> U) -> Seq<(K, U)> {
    Seq::new(items.len(), |i: int| (items[i].0, f(items[i].1)))
}

/// `stack` with `f` applied to each of its values, under the same keys.
pub open spec fn map_stack<K, T, U>(stack: Seq<Level<K, T>>, f: spec_fn(T) -> U) -> Seq<
    Level<K, U>,
> {
    Seq::new(
        stack.len(),
        |i: int| Level { key: stack[i].key, siblings: map_forest(stack[i].siblings, f) },
    )
}

/// `f` applied to each value of a forest that was built, or the error unchanged.
pub open spec fn map_built<T, U>(
    built: Result<Seq<Tree<T>>, IndentationError>,
    f: spec_fn(T) -> U,
) -> Result<Seq<Tree<U>>, IndentationError> {
    match built {
        Ok(forest) => Ok(map_forest(forest, f)),
        Err(e) => Err(e),
    }
}

/// Applying `f` throughout a tree applies it to the value and throughout the children.
pub proof fn lemma_map_tree_unfolds<T, U>(tree: Tree<T>, f: spec_fn(T) -> U)
    ensures
        map_tree(tree, f) == (Tree { value: f(tree.value), children: map_forest(tree.children, f) }),
{
    assert(map_tree(tree, f).children =~= map_forest(tree.children, f));
}

/// Folding the innermost level away does to the values under `f` what it does to the
/// values themselves.
proof fn lemma_map_fold_top<K, T, U>(stack: Seq<Level<K, T>>, f: spec_fn(T) -> U)
    requires
        well_formed(stack),
        stack.len() >= 2,
    ensures
        map_stack(fold_top(stack), f) == fold_top(map_stack(stack, f)),
{
    let n = stack.len() as int;
    let top = stack[n - 1];
    let parent = stack[n - 2];
    let host = parent.siblings.last();
    let grown = adopt(host, top.siblings);
    let mapped = map_stack(stack, f);
    assert(stack.drop_last().last() == parent);
    assert(mapped.drop_last().last() == mapped[n - 2]);
    lemma_map_tree_unfolds(host, f);
    lemma_map_tree_unfolds(grown, f);
    assert(map_forest(host.children + top.siblings, f) =~= map_forest(host.children, f)
        + map_forest(top.siblings, f));
    assert(map_tree(grown, f) == adopt(map_tree(host, f), map_forest(top.siblings, f)));
    assert(map_forest(parent.siblings.drop_last().push(grown), f) =~= map_forest(
        parent.siblings,
        f,
    ).drop_last().push(map_tree(grown, f)));
    assert(map_stack(fold_top(stack), f) =~= fold_top(mapped));
}

/// Folding back to a key does to the values under `f` what it does to the values
/// themselves.
proof fn lemma_map_prune_to<K: Prefixable, T, U>(stack: Seq<Level<K, T>>, key: K, f: spec_fn(T) -> U)
    requires
        well_formed(stack),
    ensures
        map_stack(prune_to(stack, key), f) == prune_to(map_stack(stack, f), key),
    decreases stack.len(),
{
    if stack.len() >= 2 && proper_prefix(key, stack.last().key) {
        lemma_fold_top_well_formed(stack);
        lemma_map_fold_top(stack, f);
        lemma_map_prune_to(fold_top(stack), key, f);
    }
}

/// Folding down to the base level does to the values under `f` what it does to the
/// values themselves.
proof fn lemma_map_prune_all<K, T, U>(stack: Seq<Level<K, T>>, f: spec_fn(T) -> U)
    requires
        stack.len() == 0 || well_formed(stack),
    ensures
        map_stack(prune_all(stack), f) == prune_all(map_stack(stack, f)),
    decreases stack.len(),
{
    if stack.len() >= 2 {
        lemma_fold_top_well_formed(stack);
        lemma_map_fold_top(stack, f);
        lemma_map_prune_all(fold_top(stack), f);
    }
}

/// Which levels are open does not depend on the values.
proof fn lemma_map_has_level<K: Prefixable, T, U>(stack: Seq<Level<K, T>>, key: K, f: spec_fn(T) -> U)
    ensures
        has_level(map_stack(stack, f), key) == has_level(stack, key),
{
    let mapped = map_stack(stack, f);
    if has_level(stack, key) {
        let i = choose|i: int| 0 <= i < stack.len() && same_level((#[trigger] stack[i]).key, key);
        assert(same_level(mapped[i].key, key));
    }
    if has_level(mapped, key) {
        let i = choose|i: int| 0 <= i < mapped.len() && same_level((#[trigger] mapped[i]).key, key);
        assert(same_level(stack[i].key, key));
    }
}

/// A sibling for the value under `f` is the sibling for the value, under `f`.
proof fn lemma_map_add_sibling<K, T, U>(stack: Seq<Level<K, T>>, value: T, f: spec_fn(T) -> U)
    requires
        stack.len() >= 1,
    ensures
        map_stack(add_sibling(stack, leaf(value)), f) == add_sibling(
            map_stack(stack, f),
            leaf(f(value)),
        ),
{
    lemma_map_tree_unfolds(leaf(value), f);
    assert(map_forest(leaf(value).children, f) =~= Seq::empty());
    assert(map_forest(stack.last().siblings.push(leaf(value)), f) =~= map_forest(
        stack.last().siblings,
        f,
    ).push(leaf(f(value))));
    assert(map_stack(add_sibling(stack, leaf(value)), f) =~= add_sibling(
        map_stack(stack, f),
        leaf(f(value)),
    ));
}

/// A level for the value under `f` is the level for the value, under `f`.
proof fn lemma_map_open_level<K, T, U>(stack: Seq<Level<K, T>>, key: K, value: T, f: spec_fn(T) -> U)
    ensures
        map_stack(open_level(stack, key, leaf(value)), f) == open_level(
            map_stack(stack, f),
            key,
            leaf(f(value)),
        ),
{
    lemma_map_tree_unfolds(leaf(value), f);
    assert(map_forest(leaf(value).children, f) =~= Seq::empty());
    assert(map_forest(seq![leaf(value)], f) =~= seq![leaf(f(value))]);
    assert(map_stack(open_level(stack, key, leaf(value)), f) =~= open_level(
        map_stack(stack, f),
        key,
        leaf(f(value)),
    ));
}

/// A step does to the values under `f` what it does to the values themselves.
pub proof fn lemma_map_step<K: Prefixable, T, U>(
    stack: Seq<Level<K, T>>,
    key: K,
    value: T,
    f: spec_fn(T) -> U,
)
    requires
        stack.len() == 0 || well_formed(stack),
    ensures
        step(map_stack(stack, f), key, f(value)) == match step(stack, key, value) {
            Ok(next) => Ok::<Seq<Level<K, U>>, IndentationError>(map_stack(next, f)),
            Err(e) => Err(e),
        },
{
    lemma_map_open_level(stack, key, value, f);
    if stack.len() > 0 {
        lemma_map_add_sibling(stack, value, f);
        lemma_map_has_level(stack, key, f);
        lemma_map_prune_to(stack, key, f);
        lemma_prune_to_lands(stack, key);
        lemma_map_add_sibling(prune_to(stack, key), value, f);
    }
}

/// A run does to the values under `f` what it does to the values themselves.
pub proof fn lemma_map_run<K: Prefixable, T, U>(
    stack: Seq<Level<K, T>>,
    items: Seq<(K, T)>,
    f: spec_fn(T) -> U,
)
    requires
        stack.len() == 0 || well_formed(stack),
    ensures
        run(map_stack(stack, f), map_items(items, f)) == match run(stack, items) {
            Ok(after) => Ok::<Seq<Level<K, U>>, IndentationError>(map_stack(after, f)),
            Err(e) => Err(e),
        },
        run(stack, items) matches Ok(after) ==> after.len() == 0 || well_formed(after),
    decreases items.len(),
{
    if items.len() > 0 {
        lemma_map_step(stack, items[0].0, items[0].1, f);
        lemma_step_keeps_levels_filled(stack, items[0].0, items[0].1);
        assert(map_items(items, f).drop_first() =~= map_items(items.drop_first(), f));
        match step(stack, items[0].0, items[0].1) {
            Ok(next) => {
                lemma_map_run(next, items.drop_first(), f);
            },
            Err(_) => {},
        }
    }
}

/// The values take no part in shaping the forest: building from the values under `f`
/// gives the forest of the values themselves with `f` applied throughout, or the same
/// error.
pub proof fn lemma_values_do_not_shape<K: Prefixable, T, U>(items: Seq<(K, T)>, f: spec_fn(T) -> U)
    ensures
        build(map_items(items, f)) == map_built(build(items), f),
{
    let empty = Seq::<Level<K, T>>::empty();
    assert(map_stack(empty, f) =~= Seq::<Level<K, U>>::empty());
    lemma_map_run(empty, items, f);
    match run(empty, items) {
        Ok(stack) => {
            lemma_map_prune_all(stack, f);
            if stack.len() == 0 {
                assert(prune_all(stack) == stack);
                assert(map_forest(roots(stack), f) =~= Seq::empty());
            } else {
                lemma_prune_all_leaves_base(stack);
                let base = prune_all(stack);
                assert(roots(map_stack(base, f)) == map_forest(roots(base), f));
            }
        },
        Err(_) => {},
    }
}

} // verus!
