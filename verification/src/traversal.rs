use crate::forest::{
    add_sibling, adopt, build, fold_top, lemma_fold_top_well_formed, lemma_prune_to_lands,
    open_level, prune_all, prune_to, roots, run, step, well_formed, Level,
};
use crate::laws::lemma_step_keeps_levels_filled;
use crate::prefix::{proper_prefix, Prefixable};
use crate::tree::{leaf, Tree};
use vstd::prelude::*;

verus! {

/// The values of a forest in preorder: each tree's value, then the values below it, tree
/// by tree.
pub open spec fn flatten<T>(forest: Seq<Tree<T>>) -> Seq<T>
    decreases forest,
{
    if forest.len() == 0 {
        Seq::empty()
    } else {
        flatten(forest.drop_last()) + seq![forest.last().value] + flatten(forest.last().children)
    }
}

/// The values of `items`, in order.
pub open spec fn values<K, T>(items: Seq<(K, T)>) -> Seq<T> {
    Seq::new(items.len(), |i: int| items[i].1)
}

/// The values that a stack holds, from the base level up, each level in preorder.
pub open spec fn stack_values<K, T>(stack: Seq<Level<K, T>>) -> Seq<T>
    decreases stack.len(),
{
    if stack.len() == 0 {
        Seq::empty()
    } else {
        stack_values(stack.drop_last()) + flatten(stack.last().siblings)
    }
}

/// The preorder of two forests side by side is the one's preorder, then the other's.
pub proof fn lemma_flatten_concat<T>(left: Seq<Tree<T>>, right: Seq<Tree<T>>)
    ensures
        flatten(left + right) == flatten(left) + flatten(right),
    decreases right.len(),
{
    if right.len() == 0 {
        assert(left + right =~= left);
        assert(flatten(left) + flatten(right) =~= flatten(left));
    } else {
        let all = left + right;
        assert(all.drop_last() =~= left + right.drop_last());
        assert(all.last() == right.last());
        lemma_flatten_concat(left, right.drop_last());
        assert(flatten(all) =~= flatten(left) + flatten(right));
    }
}

/// Folding the innermost level away moves no value.
pub proof fn lemma_fold_top_keeps_values<K, T>(stack: Seq<Level<K, T>>)
    requires
        well_formed(stack),
        stack.len() >= 2,
    ensures
        stack_values(fold_top(stack)) == stack_values(stack),
{
    let top = stack.last();
    let below = stack.drop_last();
    let parent = below.last();
    let host = parent.siblings.last();
    let grown = adopt(host, top.siblings);
    let folded = fold_top(stack);
    assert(parent == stack[stack.len() - 2]);
    assert(folded.drop_last() =~= below.drop_last());
    assert(folded.last().siblings == parent.siblings.drop_last().push(grown));
    let kept = parent.siblings.drop_last();
    assert(kept.push(grown).drop_last() =~= kept);
    assert(kept.push(host) =~= parent.siblings);
    assert(kept.push(host).drop_last() =~= kept);
    lemma_flatten_concat(host.children, top.siblings);
    assert(flatten(kept.push(grown)) =~= flatten(parent.siblings) + flatten(top.siblings));
    assert(stack_values(below) == stack_values(below.drop_last()) + flatten(parent.siblings));
    assert(stack_values(stack) =~= stack_values(folded));
}

/// Folding back to a key moves no value.
pub proof fn lemma_prune_to_keeps_values<K: Prefixable, T>(stack: Seq<Level<K, T>>, key: K)
    requires
        well_formed(stack),
    ensures
        stack_values(prune_to(stack, key)) == stack_values(stack),
    decreases stack.len(),
{
    if stack.len() >= 2 && proper_prefix(key, stack.last().key) {
        lemma_fold_top_well_formed(stack);
        lemma_fold_top_keeps_values(stack);
        lemma_prune_to_keeps_values(fold_top(stack), key);
    }
}

/// Folding down to the base level moves no value.
pub proof fn lemma_prune_all_keeps_values<K, T>(stack: Seq<Level<K, T>>)
    requires
        well_formed(stack),
    ensures
        stack_values(prune_all(stack)) == stack_values(stack),
        prune_all(stack).len() == 1,
    decreases stack.len(),
{
    if stack.len() >= 2 {
        lemma_fold_top_well_formed(stack);
        lemma_fold_top_keeps_values(stack);
        lemma_prune_all_keeps_values(fold_top(stack));
    }
}

/// A new sibling's value comes after all values that the stack holds.
proof fn lemma_add_sibling_appends<K, T>(stack: Seq<Level<K, T>>, value: T)
    requires
        stack.len() >= 1,
    ensures
        stack_values(add_sibling(stack, leaf(value))) == stack_values(stack).push(value),
{
    let next = add_sibling(stack, leaf(value));
    let grown = stack.last().siblings.push(leaf(value));
    assert(next.drop_last() =~= stack.drop_last());
    assert(next.last().siblings == grown);
    assert(grown.drop_last() =~= stack.last().siblings);
    assert(flatten(leaf(value).children) =~= Seq::empty());
    assert(flatten(grown) =~= flatten(stack.last().siblings).push(value));
    assert(stack_values(next) =~= stack_values(stack).push(value));
}

/// A new level's value comes after all values that the stack holds.
proof fn lemma_open_level_appends<K, T>(stack: Seq<Level<K, T>>, key: K, value: T)
    ensures
        stack_values(open_level(stack, key, leaf(value))) == stack_values(stack).push(value),
{
    let next = open_level(stack, key, leaf(value));
    let alone = seq![leaf(value)];
    assert(next.drop_last() =~= stack);
    assert(alone.drop_last() =~= Seq::<Tree<T>>::empty());
    assert(flatten(alone.drop_last()) =~= Seq::empty());
    assert(flatten(leaf(value).children) =~= Seq::empty());
    assert(flatten(alone) =~= seq![value]);
    assert(stack_values(next) =~= stack_values(stack).push(value));
}

/// A step that succeeds puts its value after all values that the stack holds.
pub proof fn lemma_step_appends_value<K: Prefixable, T>(
    stack: Seq<Level<K, T>>,
    key: K,
    value: T,
)
    requires
        stack.len() == 0 || well_formed(stack),
    ensures
        step(stack, key, value) matches Ok(next) ==> stack_values(next) == stack_values(
            stack,
        ).push(value),
{
    if stack.len() == 0 {
        lemma_open_level_appends(stack, key, value);
    } else {
        lemma_prune_to_lands(stack, key);
        lemma_prune_to_keeps_values(stack, key);
        lemma_add_sibling_appends(stack, value);
        lemma_add_sibling_appends(prune_to(stack, key), value);
        lemma_open_level_appends(stack, key, value);
    }
}

/// A run that succeeds puts the values of its items, in order, after all values that the
/// stack holds.
pub proof fn lemma_run_appends_values<K: Prefixable, T>(stack: Seq<Level<K, T>>, items: Seq<(K, T)>)
    requires
        stack.len() == 0 || well_formed(stack),
    ensures
        run(stack, items) matches Ok(after) ==> stack_values(after) == stack_values(stack)
            + values(items) && (items.len() == 0 || well_formed(after)),
    decreases items.len(),
{
    if items.len() == 0 {
        assert(stack_values(stack) + values(items) =~= stack_values(stack));
    } else {
        lemma_step_appends_value(stack, items[0].0, items[0].1);
        lemma_step_keeps_levels_filled(stack, items[0].0, items[0].1);
        match step(stack, items[0].0, items[0].1) {
            Ok(next) => {
                lemma_run_appends_values(next, items.drop_first());
                assert(stack_values(stack).push(items[0].1) + values(items.drop_first())
                    =~= stack_values(stack) + values(items));
            },
            Err(_) => {},
        }
    }
}

/// The values of a forest that was built stand in preorder as the items stood in the
/// input: the tree that holds the value of item `i` is node `i` of the walk.
pub proof fn lemma_preorder_is_input_order<K: Prefixable, T>(items: Seq<(K, T)>)
    ensures
        build(items) matches Ok(forest) ==> flatten(forest) == values(items),
{
    let empty = Seq::<Level<K, T>>::empty();
    lemma_run_appends_values(empty, items);
    match run(empty, items) {
        Ok(stack) => {
            assert(stack_values(empty) + values(items) =~= values(items));
            if stack.len() == 0 {
                assert(prune_all(stack) == stack);
            } else {
                lemma_prune_all_keeps_values(stack);
                let base = prune_all(stack);
                assert(base.drop_last() =~= Seq::<Level<K, T>>::empty());
                assert(stack_values(base) =~= flatten(roots(base)));
            }
        },
        Err(_) => {},
    }
}

} // verus!
