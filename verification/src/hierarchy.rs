use crate::error::IndentationError;
use crate::forest::{
    add_sibling, adopt, build, fold_top, has_level, lemma_fold_top_well_formed, open_level,
    prune_all, prune_to, roots, run, step, well_formed, Level,
};
use crate::prefix::{is_prefix_order, proper_prefix, same_level, Prefixable};
use crate::relabel::{lemma_values_do_not_shape, map_forest, map_items};
use crate::traversal::{flatten, lemma_preorder_is_input_order, values};
use crate::tree::{leaf, Tree};
use vstd::prelude::*;

verus! {

/// Below `tree`, the key of each child properly extends the key of its parent, and the
/// children of one parent are on one level.
pub open spec fn nested_by_key<K: Prefixable, T>(tree: Tree<(K, T)>) -> bool
    decreases tree,
{
    &&& forall|i: int|
        0 <= i < tree.children.len() ==> proper_prefix(
            tree.value.0,
            (#[trigger] tree.children[i]).value.0,
        ) && nested_by_key(tree.children[i])
    &&& on_one_level(tree.children)
}

/// The keys of the trees of `forest` are on one level.
pub open spec fn on_one_level<K: Prefixable, T>(forest: Seq<Tree<(K, T)>>) -> bool {
    forall|i: int, j: int|
        0 <= i < forest.len() && 0 <= j < forest.len() ==> same_level(
            (#[trigger] forest[i]).value.0,
            (#[trigger] forest[j]).value.0,
        )
}

/// The roots of `forest` are on one level, and below each root the nesting follows the
/// keys.
pub open spec fn forest_nested_by_key<K: Prefixable, T>(forest: Seq<Tree<(K, T)>>) -> bool {
    &&& on_one_level(forest)
    &&& forall|i: int| 0 <= i < forest.len() ==> nested_by_key(#[trigger] forest[i])
}

/// Each value of `items` holds, as its first part, the key that it comes with.
pub open spec fn carries_keys<K, T>(items: Seq<(K, (K, T))>) -> bool {
    forall|i: int| 0 <= i < items.len() ==> (#[trigger] items[i]).1.0 == items[i].0
}

/// The trees of a level are on the level of its key, and nested by key.
pub open spec fn level_in_order<K: Prefixable, T>(level: Level<K, (K, T)>) -> bool {
    forall|k: int|
        0 <= k < level.siblings.len() ==> same_level(
            (#[trigger] level.siblings[k]).value.0,
            level.key,
        ) && nested_by_key(level.siblings[k])
}

/// The newest tree of a level has no children.
pub open spec fn ends_in_leaf<K, T>(level: Level<K, T>) -> bool {
    level.siblings.last().children.len() == 0
}

/// The key of each level properly extends the keys of the levels below it.
pub open spec fn rising<K: Prefixable, T>(stack: Seq<Level<K, T>>) -> bool {
    forall|i: int, j: int|
        0 <= i < j < stack.len() ==> proper_prefix(
            (#[trigger] stack[i]).key,
            (#[trigger] stack[j]).key,
        )
}

/// The stack's keys rise from the base level up, each level is in order, and the newest
/// tree of each level below the innermost has no children; with `settled`, that of the
/// innermost level has none either.
pub open spec fn in_order<K: Prefixable, T>(stack: Seq<Level<K, (K, T)>>, settled: bool) -> bool {
    &&& well_formed(stack)
    &&& rising(stack)
    &&& forall|i: int| 0 <= i < stack.len() ==> level_in_order(#[trigger] stack[i])
    &&& forall|i: int| 0 <= i < stack.len() - 1 ==> ends_in_leaf(#[trigger] stack[i])
    &&& settled ==> ends_in_leaf(stack.last())
}

/// In a prefix order, being a proper prefix carries over to keys on the same levels.
pub proof fn lemma_proper_prefix_between_levels<K: Prefixable>(a: K, b: K, c: K, d: K)
    requires
        is_prefix_order::<K>(),
        same_level(a, b),
        proper_prefix(b, c),
        same_level(c, d),
    ensures
        proper_prefix(a, d),
{
    assert(a.prefix_of(&b) && b.prefix_of(&c));
    assert(a.prefix_of(&c) && c.prefix_of(&d));
    if d.prefix_of(&a) {
        assert(c.prefix_of(&d) && d.prefix_of(&a));
        assert(c.prefix_of(&a) && a.prefix_of(&b));
    }
}

/// In a prefix order, keys on the level of a third key are on one level.
pub proof fn lemma_same_level_joins<K: Prefixable>(a: K, b: K, c: K)
    requires
        is_prefix_order::<K>(),
        same_level(a, b),
        same_level(c, b),
    ensures
        same_level(a, c),
{
    assert(a.prefix_of(&b) && b.prefix_of(&c));
    assert(c.prefix_of(&b) && b.prefix_of(&a));
}

/// Folding the innermost level away leaves the keys below it as they are.
pub proof fn lemma_fold_top_rising<K: Prefixable, T>(stack: Seq<Level<K, T>>)
    requires
        well_formed(stack),
        rising(stack),
        stack.len() >= 2,
    ensures
        well_formed(fold_top(stack)),
        rising(fold_top(stack)),
        fold_top(stack).len() == stack.len() - 1,
{
    lemma_fold_top_well_formed(stack);
    let folded = fold_top(stack);
    assert forall|i: int, j: int| 0 <= i < j < folded.len() implies proper_prefix(
        (#[trigger] folded[i]).key,
        (#[trigger] folded[j]).key,
    ) by {
        assert(proper_prefix(stack[i].key, stack[j].key));
    }
}

/// Over a prefix order, folding back to a key that is on the level of an open level ends
/// with that level innermost. Where the key is a proper prefix of the innermost key, at
/// least one level is folded away.
pub proof fn lemma_prune_to_reaches_level<K: Prefixable, T>(stack: Seq<Level<K, T>>, key: K)
    requires
        is_prefix_order::<K>(),
        well_formed(stack),
        rising(stack),
        has_level(stack, key),
    ensures
        well_formed(prune_to(stack, key)),
        rising(prune_to(stack, key)),
        same_level(prune_to(stack, key).last().key, key),
        prune_to(stack, key).len() <= stack.len(),
        proper_prefix(key, stack.last().key) ==> prune_to(stack, key).len() < stack.len(),
    decreases stack.len(),
{
    let i = choose|i: int| 0 <= i < stack.len() && same_level((#[trigger] stack[i]).key, key);
    if stack.len() >= 2 && proper_prefix(key, stack.last().key) {
        lemma_fold_top_rising(stack);
        lemma_fold_top_well_formed(stack);
        assert(i < stack.len() - 1);
        assert(same_level(fold_top(stack)[i].key, key));
        lemma_prune_to_reaches_level(fold_top(stack), key);
    } else if i < stack.len() - 1 {
        lemma_proper_prefix_between_levels(key, stack[i].key, stack.last().key, stack.last().key);
    }
}

/// Over a prefix order, a level for a key that properly extends the innermost key leaves
/// the keys rising.
pub proof fn lemma_open_level_rising<K: Prefixable, T>(
    stack: Seq<Level<K, T>>,
    key: K,
    tree: Tree<T>,
)
    requires
        is_prefix_order::<K>(),
        rising(stack),
        stack.len() == 0 || proper_prefix(stack.last().key, key),
    ensures
        rising(open_level(stack, key, tree)),
{
    let next = open_level(stack, key, tree);
    let n = stack.len() as int;
    assert forall|i: int, j: int| 0 <= i < j < next.len() implies proper_prefix(
        (#[trigger] next[i]).key,
        (#[trigger] next[j]).key,
    ) by {
        assert(next[i] == stack[i]);
        if j < n {
            assert(next[j] == stack[j]);
        } else if i < n - 1 {
            assert(proper_prefix(stack[i].key, stack[n - 1].key));
            assert(stack[i].key.prefix_of(&stack[n - 1].key) && stack[n - 1].key.prefix_of(&key));
            if key.prefix_of(&stack[i].key) {
                assert(key.prefix_of(&stack[i].key) && stack[i].key.prefix_of(&stack[n - 1].key));
            }
        }
    }
}

/// Folding the innermost level away keeps the stack in order.
pub proof fn lemma_fold_top_in_order<K: Prefixable, T>(stack: Seq<Level<K, (K, T)>>)
    requires
        is_prefix_order::<K>(),
        in_order(stack, false),
        stack.len() >= 2,
    ensures
        in_order(fold_top(stack), false),
        fold_top(stack).len() == stack.len() - 1,
        forall|i: int| 0 <= i < stack.len() - 1 ==> (#[trigger] fold_top(stack)[i]).key == stack[i].key,
{
    let n = stack.len() as int;
    let top = stack[n - 1];
    let parent = stack[n - 2];
    let host = parent.siblings.last();
    let grown = adopt(host, top.siblings);
    let folded = fold_top(stack);
    assert(stack.drop_last().last() == parent);
    assert(ends_in_leaf(parent));
    assert(level_in_order(parent));
    assert(level_in_order(top));
    assert(grown.children =~= top.siblings);
    assert(nested_by_key(grown)) by {
        assert forall|i: int| 0 <= i < grown.children.len() implies proper_prefix(
            grown.value.0,
            (#[trigger] grown.children[i]).value.0,
        ) && nested_by_key(grown.children[i]) by {
            lemma_proper_prefix_between_levels(
                host.value.0,
                parent.key,
                top.key,
                top.siblings[i].value.0,
            );
        }
        assert forall|i: int, j: int|
            0 <= i < grown.children.len() && 0 <= j < grown.children.len() implies same_level(
            (#[trigger] grown.children[i]).value.0,
            (#[trigger] grown.children[j]).value.0,
        ) by {
            lemma_same_level_joins(top.siblings[i].value.0, top.key, top.siblings[j].value.0);
        }
    }
    assert forall|i: int| 0 <= i < folded.len() implies level_in_order(#[trigger] folded[i])
        && folded[i].siblings.len() >= 1 && folded[i].key == stack[i].key by {
        if i < n - 2 {
            assert(folded[i] == stack[i]);
        } else {
            let level = folded[i];
            assert forall|k: int| 0 <= k < level.siblings.len() implies same_level(
                (#[trigger] level.siblings[k]).value.0,
                level.key,
            ) && nested_by_key(level.siblings[k]) by {
                if k < level.siblings.len() - 1 {
                    assert(level.siblings[k] == parent.siblings[k]);
                }
            }
        }
    }
    assert forall|i: int| 0 <= i < folded.len() - 1 implies ends_in_leaf(#[trigger] folded[i]) by {
        assert(folded[i] == stack[i]);
    }
}

/// Folding back to a key that is on the level of an open level keeps the stack in order.
pub proof fn lemma_prune_to_in_order<K: Prefixable, T>(stack: Seq<Level<K, (K, T)>>, key: K)
    requires
        is_prefix_order::<K>(),
        in_order(stack, false),
    ensures
        in_order(prune_to(stack, key), false),
    decreases stack.len(),
{
    if stack.len() >= 2 && proper_prefix(key, stack.last().key) {
        lemma_fold_top_in_order(stack);
        lemma_prune_to_in_order(fold_top(stack), key);
    }
}

/// Folding down to the base level keeps the stack in order.
pub proof fn lemma_prune_all_in_order<K: Prefixable, T>(stack: Seq<Level<K, (K, T)>>)
    requires
        is_prefix_order::<K>(),
        in_order(stack, false),
    ensures
        in_order(prune_all(stack), false),
        prune_all(stack).len() == 1,
    decreases stack.len(),
{
    if stack.len() >= 2 {
        lemma_fold_top_in_order(stack);
        lemma_prune_all_in_order(fold_top(stack));
    }
}

/// A leaf that carries `key`, added on a level with `key`, leaves the stack in order.
proof fn lemma_add_sibling_in_order<K: Prefixable, T>(
    stack: Seq<Level<K, (K, T)>>,
    key: K,
    value: T,
)
    requires
        is_prefix_order::<K>(),
        in_order(stack, false),
        same_level(key, stack.last().key),
    ensures
        in_order(add_sibling(stack, leaf((key, value))), true),
{
    let next = add_sibling(stack, leaf((key, value)));
    let n = stack.len() as int;
    assert forall|i: int| 0 <= i < next.len() implies level_in_order(#[trigger] next[i])
        && next[i].siblings.len() >= 1 && next[i].key == stack[i].key by {
        if i < n - 1 {
            assert(next[i] == stack[i]);
        } else {
            let level = next[i];
            assert(level_in_order(stack[i]));
            assert forall|k: int| 0 <= k < level.siblings.len() implies same_level(
                (#[trigger] level.siblings[k]).value.0,
                level.key,
            ) && nested_by_key(level.siblings[k]) by {
                if k < level.siblings.len() - 1 {
                    assert(level.siblings[k] == stack[i].siblings[k]);
                }
            }
        }
    }
    assert forall|i: int| 0 <= i < next.len() - 1 implies ends_in_leaf(#[trigger] next[i]) by {
        assert(next[i] == stack[i]);
    }
}

/// A level for a key that properly extends the innermost key, opened with a leaf that
/// carries that key, leaves the stack in order.
proof fn lemma_open_level_in_order<K: Prefixable, T>(
    stack: Seq<Level<K, (K, T)>>,
    key: K,
    value: T,
)
    requires
        is_prefix_order::<K>(),
        stack.len() == 0 || (in_order(stack, true) && proper_prefix(stack.last().key, key)),
    ensures
        in_order(open_level(stack, key, leaf((key, value))), true),
{
    let next = open_level(stack, key, leaf((key, value)));
    let n = stack.len() as int;
    assert(key.prefix_of(&key));
    assert forall|i: int| 0 <= i < next.len() implies level_in_order(#[trigger] next[i])
        && next[i].siblings.len() >= 1 by {
        if i < n {
            assert(next[i] == stack[i]);
        }
    }
    lemma_open_level_rising(stack, key, leaf((key, value)));
    assert forall|i: int| 0 <= i < next.len() - 1 implies ends_in_leaf(#[trigger] next[i]) by {
        assert(next[i] == stack[i]);
    }
}

/// A step that succeeds with a value that carries its key leaves the stack in order.
pub proof fn lemma_step_in_order<K: Prefixable, T>(stack: Seq<Level<K, (K, T)>>, key: K, value: T)
    requires
        is_prefix_order::<K>(),
        stack.len() == 0 || in_order(stack, true),
    ensures
        step(stack, key, (key, value)) matches Ok(next) ==> in_order(next, true),
{
    if stack.len() == 0 {
        lemma_open_level_in_order(stack, key, value);
    } else if same_level(key, stack.last().key) {
        lemma_add_sibling_in_order(stack, key, value);
    } else if proper_prefix(stack.last().key, key) {
        lemma_open_level_in_order(stack, key, value);
    } else if proper_prefix(key, stack.last().key) && has_level(stack, key) {
        lemma_prune_to_in_order(stack, key);
        lemma_prune_to_reaches_level(stack, key);
        lemma_add_sibling_in_order(prune_to(stack, key), key, value);
    }
}

/// A run that succeeds on values that carry their keys leaves the stack in order.
pub proof fn lemma_run_in_order<K: Prefixable, T>(
    stack: Seq<Level<K, (K, T)>>,
    items: Seq<(K, (K, T))>,
)
    requires
        is_prefix_order::<K>(),
        stack.len() == 0 || in_order(stack, true),
        carries_keys(items),
    ensures
        run(stack, items) matches Ok(after) ==> after.len() == 0 || in_order(after, true),
    decreases items.len(),
{
    if items.len() > 0 {
        assert(items[0].1 == (items[0].0, items[0].1.1));
        lemma_step_in_order(stack, items[0].0, items[0].1.1);
        match step(stack, items[0].0, items[0].1) {
            Ok(next) => {
                let rest = items.drop_first();
                assert forall|i: int| 0 <= i < rest.len() implies (#[trigger] rest[i]).1.0
                    == rest[i].0 by {
                    assert(rest[i] == items[i + 1]);
                }
                lemma_run_in_order(next, rest);
            },
            Err(_) => {},
        }
    }
}

/// In a forest built over a prefix order from values that carry their keys, position
/// tells the order of the keys: the roots are on one level, the children of each tree are
/// on one level, and the key of each child properly extends the key of its parent.
pub proof fn lemma_nesting_follows_keys<K: Prefixable, T>(items: Seq<(K, (K, T))>)
    requires
        is_prefix_order::<K>(),
        carries_keys(items),
    ensures
        build(items) matches Ok(forest) ==> forest_nested_by_key(forest),
{
    let empty = Seq::<Level<K, (K, T)>>::empty();
    lemma_run_in_order(empty, items);
    match run(empty, items) {
        Ok(stack) => {
            if stack.len() == 0 {
                assert(prune_all(stack) == stack);
            } else {
                lemma_prune_all_in_order(stack);
                let base = prune_all(stack);
                let forest = roots(base);
                assert(level_in_order(base[0]));
                assert forall|i: int, j: int|
                    0 <= i < forest.len() && 0 <= j < forest.len() implies same_level(
                    (#[trigger] forest[i]).value.0,
                    (#[trigger] forest[j]).value.0,
                ) by {
                    lemma_same_level_joins(forest[i].value.0, base[0].key, forest[j].value.0);
                }
            }
        },
        Err(_) => {},
    }
}

/// `items` with each value paired with the key that it comes with.
pub open spec fn keyed<K, T>(items: Seq<(K, T)>) -> Seq<(K, (K, T))> {
    Seq::new(items.len(), |i: int| (items[i].0, items[i]))
}

/// Over a prefix order, the shape of a forest gives back how its keys compare. Built from
/// the items with their keys attached, the forest has the shape of the one built from the
/// items alone; its walk in preorder is the input; its roots are on one level, as are the
/// children of each tree; and the key of each child properly extends the key of its
/// parent. Where the items run into an error, so do the items with their keys attached.
pub proof fn lemma_shape_recovers_keys<K: Prefixable, T>(items: Seq<(K, T)>)
    requires
        is_prefix_order::<K>(),
    ensures
        match build(keyed(items)) {
            Ok(labelled) => {
                &&& build(items) == Ok::<Seq<Tree<T>>, IndentationError>(
                    map_forest(labelled, |item: (K, T)| item.1),
                )
                &&& flatten(labelled) == items
                &&& forest_nested_by_key(labelled)
            },
            Err(e) => build(items) == Err::<Seq<Tree<T>>, IndentationError>(e),
        },
{
    let with_keys = keyed(items);
    let value = |item: (K, T)| item.1;
    assert(map_items(with_keys, value) =~= items);
    assert(values(with_keys) =~= items);
    lemma_values_do_not_shape(with_keys, value);
    lemma_preorder_is_input_order(with_keys);
    lemma_nesting_follows_keys(with_keys);
}

} // verus!
