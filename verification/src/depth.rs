use crate::forest::{
    add_sibling, adopt, build, fold_top, lemma_add_sibling_well_formed,
    lemma_fold_top_well_formed, lemma_open_level_well_formed, open_level, prune_all, prune_to,
    roots, run, step, well_formed, Level,
};
use crate::hierarchy::{
    ends_in_leaf, lemma_open_level_rising, lemma_proper_prefix_between_levels,
    lemma_prune_to_reaches_level, lemma_same_level_joins, rising,
};
use crate::prefix::{is_prefix_order, proper_prefix, same_level, Prefixable};
use crate::tree::{leaf, Tree};
use vstd::prelude::*;

verus! {

/// The depths of the nodes of `forest` in preorder, where its roots are at `depth` and
/// each child is one deeper than its parent.
pub open spec fn flatten_depths<T>(forest: Seq<Tree<T>>, depth: int) -> Seq<int>
    decreases forest,
{
    if forest.len() == 0 {
        Seq::empty()
    } else {
        flatten_depths(forest.drop_last(), depth) + seq![depth] + flatten_depths(
            forest.last().children,
            depth + 1,
        )
    }
}

/// The depths of the nodes that a stack holds, from the base level up, where the trees of
/// level `i` are at depth `i`.
pub open spec fn stack_depths<K, T>(stack: Seq<Level<K, T>>) -> Seq<int>
    decreases stack.len(),
{
    if stack.len() == 0 {
        Seq::empty()
    } else {
        stack_depths(stack.drop_last()) + flatten_depths(stack.last().siblings, stack.len() - 1)
    }
}

/// The step in depth from one node to the next says how the key of the next compares with
/// the key before it: on the same level the depth stays, a key that properly extends the
/// one before goes one deeper, and a key that is a proper prefix of the one before comes
/// back up. No other pair of keys follows one another.
pub open spec fn depth_agrees<K: Prefixable>(before: K, key: K, depth_before: int, depth: int) -> bool {
    if same_level(key, before) {
        depth == depth_before
    } else if proper_prefix(before, key) {
        depth == depth_before + 1
    } else {
        proper_prefix(key, before) && 0 <= depth < depth_before
    }
}

/// The stack that a step leaves, where `last_key` came with the value taken last: filled
/// levels with rising keys, `last_key` on the level of the innermost, and the newest tree
/// of the innermost level still without children.
pub open spec fn steady<K: Prefixable, T>(stack: Seq<Level<K, T>>, last_key: K) -> bool {
    &&& well_formed(stack)
    &&& rising(stack)
    &&& ends_in_leaf(stack.last())
    &&& same_level(last_key, stack.last().key)
}

/// The depths of two forests side by side are the depths of the one, then of the other.
proof fn lemma_depths_concat<T>(left: Seq<Tree<T>>, right: Seq<Tree<T>>, depth: int)
    ensures
        flatten_depths(left + right, depth) == flatten_depths(left, depth) + flatten_depths(
            right,
            depth,
        ),
    decreases right.len(),
{
    if right.len() == 0 {
        assert(left + right =~= left);
        assert(flatten_depths(left, depth) + flatten_depths(right, depth) =~= flatten_depths(
            left,
            depth,
        ));
    } else {
        let all = left + right;
        assert(all.drop_last() =~= left + right.drop_last());
        assert(all.last() == right.last());
        lemma_depths_concat(left, right.drop_last(), depth);
        assert(flatten_depths(all, depth) =~= flatten_depths(left, depth) + flatten_depths(
            right,
            depth,
        ));
    }
}

/// Folding the innermost level away puts its trees one below their host, which is where
/// their level stood.
pub proof fn lemma_fold_top_keeps_depths<K, T>(stack: Seq<Level<K, T>>)
    requires
        well_formed(stack),
        stack.len() >= 2,
    ensures
        stack_depths(fold_top(stack)) == stack_depths(stack),
{
    let n = stack.len() as int;
    let top = stack.last();
    let below = stack.drop_last();
    let parent = below.last();
    let host = parent.siblings.last();
    let grown = adopt(host, top.siblings);
    let folded = fold_top(stack);
    let kept = parent.siblings.drop_last();
    assert(parent == stack[n - 2]);
    assert(folded.drop_last() =~= below.drop_last());
    assert(folded.last().siblings == kept.push(grown));
    assert(kept.push(grown).drop_last() =~= kept);
    assert(kept.push(host) =~= parent.siblings);
    assert(kept.push(host).drop_last() =~= kept);
    lemma_depths_concat(host.children, top.siblings, n - 1);
    assert(flatten_depths(kept.push(grown), n - 2) =~= flatten_depths(parent.siblings, n - 2)
        + flatten_depths(top.siblings, n - 1));
    assert(stack_depths(below) == stack_depths(below.drop_last()) + flatten_depths(
        parent.siblings,
        n - 2,
    ));
    assert(stack_depths(stack) =~= stack_depths(folded));
}

/// Folding back to a key changes no depth.
proof fn lemma_prune_to_keeps_depths<K: Prefixable, T>(stack: Seq<Level<K, T>>, key: K)
    requires
        well_formed(stack),
    ensures
        stack_depths(prune_to(stack, key)) == stack_depths(stack),
    decreases stack.len(),
{
    if stack.len() >= 2 && proper_prefix(key, stack.last().key) {
        lemma_fold_top_well_formed(stack);
        lemma_fold_top_keeps_depths(stack);
        lemma_prune_to_keeps_depths(fold_top(stack), key);
    }
}

/// Folding down to the base level changes no depth.
proof fn lemma_prune_all_keeps_depths<K, T>(stack: Seq<Level<K, T>>)
    requires
        well_formed(stack),
    ensures
        stack_depths(prune_all(stack)) == stack_depths(stack),
        prune_all(stack).len() == 1,
    decreases stack.len(),
{
    if stack.len() >= 2 {
        lemma_fold_top_well_formed(stack);
        lemma_fold_top_keeps_depths(stack);
        lemma_prune_all_keeps_depths(fold_top(stack));
    }
}

/// A new sibling stands at the depth of the innermost level.
proof fn lemma_add_sibling_depth<K: Prefixable, T>(stack: Seq<Level<K, T>>, value: T)
    requires
        well_formed(stack),
        rising(stack),
    ensures
        stack_depths(add_sibling(stack, leaf(value))) == stack_depths(stack).push(
            stack.len() - 1,
        ),
        well_formed(add_sibling(stack, leaf(value))),
        rising(add_sibling(stack, leaf(value))),
        ends_in_leaf(add_sibling(stack, leaf(value)).last()),
        add_sibling(stack, leaf(value)).last().key == stack.last().key,
        add_sibling(stack, leaf(value)).len() == stack.len(),
{
    let next = add_sibling(stack, leaf(value));
    let grown = stack.last().siblings.push(leaf(value));
    let d = stack.len() - 1;
    assert(next.drop_last() =~= stack.drop_last());
    assert(next.last().siblings == grown);
    assert(grown.drop_last() =~= stack.last().siblings);
    assert(flatten_depths(leaf(value).children, d + 1) =~= Seq::empty());
    assert(flatten_depths(grown, d) =~= flatten_depths(stack.last().siblings, d).push(d));
    assert(stack_depths(next) =~= stack_depths(stack).push(d));
    lemma_add_sibling_well_formed(stack, leaf(value));
    assert forall|i: int, j: int| 0 <= i < j < next.len() implies proper_prefix(
        (#[trigger] next[i]).key,
        (#[trigger] next[j]).key,
    ) by {
        assert(proper_prefix(stack[i].key, stack[j].key));
    }
}

/// The tree of a new level stands one deeper than the level that was innermost.
proof fn lemma_open_level_depth<K, T>(stack: Seq<Level<K, T>>, key: K, value: T)
    requires
        stack.len() == 0 || well_formed(stack),
    ensures
        stack_depths(open_level(stack, key, leaf(value))) == stack_depths(stack).push(
            stack.len() as int,
        ),
        well_formed(open_level(stack, key, leaf(value))),
        ends_in_leaf(open_level(stack, key, leaf(value)).last()),
{
    let next = open_level(stack, key, leaf(value));
    let alone = seq![leaf(value)];
    let d = stack.len() as int;
    assert(next.drop_last() =~= stack);
    assert(alone.drop_last() =~= Seq::<Tree<T>>::empty());
    assert(flatten_depths(alone.drop_last(), d) =~= Seq::empty());
    assert(flatten_depths(leaf(value).children, d + 1) =~= Seq::empty());
    assert(flatten_depths(alone, d) =~= seq![d]);
    assert(stack_depths(next) =~= stack_depths(stack).push(d));
    lemma_open_level_well_formed(stack, key, leaf(value));
}

/// The node taken last is the last of the walk, at the depth of the innermost level.
proof fn lemma_last_depth<K, T>(stack: Seq<Level<K, T>>)
    requires
        well_formed(stack),
        ends_in_leaf(stack.last()),
    ensures
        stack_depths(stack).len() >= 1,
        stack_depths(stack).last() == stack.len() - 1,
{
    let d = stack.len() - 1;
    let siblings = stack.last().siblings;
    assert(flatten_depths(siblings.last().children, d + 1) =~= Seq::empty());
    assert(flatten_depths(siblings, d) =~= flatten_depths(siblings.drop_last(), d).push(d));
}

/// Over a prefix order, a step that succeeds puts its value at the depth of the innermost
/// level that it leaves, and that depth agrees with how its key compares with the key
/// taken before.
pub proof fn lemma_step_depth<K: Prefixable, T>(
    stack: Seq<Level<K, T>>,
    last_key: K,
    key: K,
    value: T,
)
    requires
        is_prefix_order::<K>(),
        steady(stack, last_key),
        step(stack, key, value) is Ok,
    ensures
        steady(step(stack, key, value)->Ok_0, key),
        stack_depths(step(stack, key, value)->Ok_0) == stack_depths(stack).push(
            step(stack, key, value)->Ok_0.len() - 1,
        ),
        depth_agrees(last_key, key, stack.len() - 1, step(stack, key, value)->Ok_0.len() - 1),
{
    let top = stack.last().key;
    assert(key.prefix_of(&key));
    if same_level(key, top) {
        lemma_add_sibling_depth(stack, value);
        lemma_same_level_joins(key, top, last_key);
    } else if proper_prefix(top, key) {
        lemma_open_level_depth(stack, key, value);
        lemma_open_level_rising(stack, key, leaf(value));
        lemma_proper_prefix_between_levels(last_key, top, key, key);
        if same_level(key, last_key) {
            lemma_same_level_joins(key, last_key, top);
        }
    } else {
        let pruned = prune_to(stack, key);
        lemma_prune_to_reaches_level(stack, key);
        lemma_prune_to_keeps_depths(stack, key);
        lemma_add_sibling_depth(pruned, value);
        lemma_proper_prefix_between_levels(key, key, top, last_key);
    }
}

/// The key that was taken before item `i`, where `last_key` was taken before the first.
pub open spec fn key_before<K, T>(last_key: K, items: Seq<(K, T)>, i: int) -> K {
    if i == 0 {
        last_key
    } else {
        items[i - 1].0
    }
}

/// Over a prefix order, a run that succeeds puts each of its values at a depth that
/// agrees with how its key compares with the key taken before.
proof fn lemma_run_depths<K: Prefixable, T>(stack: Seq<Level<K, T>>, last_key: K, items: Seq<(K, T)>)
    requires
        is_prefix_order::<K>(),
        steady(stack, last_key),
        run(stack, items) is Ok,
    ensures
        well_formed(run(stack, items)->Ok_0),
        ({
            let all = stack_depths(run(stack, items)->Ok_0);
            let base = stack_depths(stack).len() as int;
            &&& base >= 1
            &&& all.len() == base + items.len()
            &&& all.take(base) == stack_depths(stack)
            &&& forall|i: int|
                0 <= i < items.len() ==> depth_agrees(
                    key_before(last_key, items, i),
                    (#[trigger] items[i]).0,
                    all[base + i - 1],
                    all[base + i],
                )
        }),
    decreases items.len(),
{
    let all = stack_depths(run(stack, items)->Ok_0);
    let base = stack_depths(stack).len() as int;
    lemma_last_depth(stack);
    if items.len() == 0 {
        assert(all.take(base) =~= all);
    } else {
        let next = step(stack, items[0].0, items[0].1)->Ok_0;
        let rest = items.drop_first();
        lemma_step_depth(stack, last_key, items[0].0, items[0].1);
        lemma_run_depths(next, items[0].0, rest);
        assert(all.take(base + 1) == stack_depths(stack).push(next.len() - 1));
        assert(all.take(base) =~= all.take(base + 1).take(base));
        assert(all.take(base) =~= stack_depths(stack));
        assert(all[base] == all.take(base + 1)[base]);
        assert(all[base - 1] == all.take(base)[base - 1]);
        assert forall|i: int| 0 <= i < items.len() implies depth_agrees(
            key_before(last_key, items, i),
            (#[trigger] items[i]).0,
            all[base + i - 1],
            all[base + i],
        ) by {
            if i > 0 {
                assert(rest[i - 1] == items[i]);
                assert(key_before(items[0].0, rest, i - 1) == key_before(last_key, items, i));
            }
        }
    }
}

/// Over a prefix order, the depth of each node of a forest that was built agrees with the
/// keys: the first item is a root, and from each item to the next the depth stays where
/// the keys are on one level, grows by one where the next key properly extends the one
/// before, and falls where it is a proper prefix of it. The node of item `i` is node `i`
/// of the walk in preorder.
pub proof fn lemma_depths_follow_keys<K: Prefixable, T>(items: Seq<(K, T)>)
    requires
        is_prefix_order::<K>(),
        build(items) is Ok,
    ensures
        ({
            let depths = flatten_depths(build(items)->Ok_0, 0);
            &&& depths.len() == items.len()
            &&& items.len() > 0 ==> depths[0] == 0
            &&& forall|i: int|
                1 <= i < items.len() ==> depth_agrees(
                    items[i - 1].0,
                    (#[trigger] items[i]).0,
                    depths[i - 1],
                    depths[i],
                )
        }),
{
    let empty = Seq::<Level<K, T>>::empty();
    if items.len() == 0 {
        assert(prune_all(empty) == empty);
    } else {
        let key = items[0].0;
        let first = open_level(empty, key, leaf(items[0].1));
        let rest = items.drop_first();
        assert(key.prefix_of(&key));
        lemma_open_level_depth(empty, key, items[0].1);
        lemma_open_level_rising(empty, key, leaf(items[0].1));
        assert(stack_depths(first) =~= seq![0int]);
        lemma_run_depths(first, key, rest);
        let after = run(first, rest)->Ok_0;
        lemma_prune_all_keeps_depths(after);
        let base = prune_all(after);
        assert(base.drop_last() =~= Seq::<Level<K, T>>::empty());
        assert(stack_depths(base) =~= flatten_depths(roots(base), 0));
        let depths = flatten_depths(build(items)->Ok_0, 0);
        assert(depths == stack_depths(after));
        assert(depths[0] == depths.take(1)[0]);
        assert forall|i: int| 1 <= i < items.len() implies depth_agrees(
            items[i - 1].0,
            (#[trigger] items[i]).0,
            depths[i - 1],
            depths[i],
        ) by {
            assert(rest[i - 1] == items[i]);
            assert(key_before(key, rest, i - 1) == items[i - 1].0);
        }
    }
}

} // verus!
