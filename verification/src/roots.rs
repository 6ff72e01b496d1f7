use crate::forest::{
    add_sibling, build, fold_top, lemma_add_sibling_well_formed, lemma_fold_top_well_formed,
    lemma_open_level_well_formed, open_level, prune_all, prune_to, run, step, well_formed, Level,
};
use crate::hierarchy::{
    lemma_open_level_rising, lemma_proper_prefix_between_levels, lemma_prune_to_reaches_level,
    rising,
};
use crate::prefix::{is_prefix_order, proper_prefix, same_level, Prefixable};
use crate::tree::leaf;
use vstd::prelude::*;

verus! {

/// How many of `items` have a key on the level of `key`.
pub open spec fn count_on_level<K: Prefixable, T>(items: Seq<(K, T)>, key: K) -> nat
    decreases items.len(),
{
    if items.len() == 0 {
        0
    } else if same_level(items[0].0, key) {
        1 + count_on_level(items.drop_first(), key)
    } else {
        count_on_level(items.drop_first(), key)
    }
}

/// Folding the innermost level away leaves the base level with its key and as many trees.
proof fn lemma_fold_top_keeps_base<K, T>(stack: Seq<Level<K, T>>)
    requires
        well_formed(stack),
        stack.len() >= 2,
    ensures
        fold_top(stack)[0].key == stack[0].key,
        fold_top(stack)[0].siblings.len() == stack[0].siblings.len(),
{
    if stack.len() > 2 {
        assert(fold_top(stack)[0] == stack[0]);
    } else {
        assert(stack.drop_last().last() == stack[0]);
    }
}

/// Folding back to a key leaves the base level with its key and as many trees.
proof fn lemma_prune_to_keeps_base<K: Prefixable, T>(stack: Seq<Level<K, T>>, key: K)
    requires
        well_formed(stack),
    ensures
        prune_to(stack, key)[0].key == stack[0].key,
        prune_to(stack, key)[0].siblings.len() == stack[0].siblings.len(),
    decreases stack.len(),
{
    if stack.len() >= 2 && proper_prefix(key, stack.last().key) {
        lemma_fold_top_well_formed(stack);
        lemma_fold_top_keeps_base(stack);
        lemma_prune_to_keeps_base(fold_top(stack), key);
    }
}

/// Folding down to the base level leaves it with its key and as many trees.
proof fn lemma_prune_all_keeps_base<K, T>(stack: Seq<Level<K, T>>)
    requires
        well_formed(stack),
    ensures
        prune_all(stack).len() == 1,
        prune_all(stack)[0].key == stack[0].key,
        prune_all(stack)[0].siblings.len() == stack[0].siblings.len(),
    decreases stack.len(),
{
    if stack.len() >= 2 {
        lemma_fold_top_well_formed(stack);
        lemma_fold_top_keeps_base(stack);
        lemma_prune_all_keeps_base(fold_top(stack));
    }
}

/// Over a prefix order, a step that succeeds adds a tree to the base level just when
/// its key is on the base level.
proof fn lemma_step_counts_base<K: Prefixable, T>(stack: Seq<Level<K, T>>, key: K, value: T)
    requires
        is_prefix_order::<K>(),
        well_formed(stack),
        rising(stack),
        step(stack, key, value) is Ok,
    ensures
        well_formed(step(stack, key, value)->Ok_0),
        rising(step(stack, key, value)->Ok_0),
        step(stack, key, value)->Ok_0[0].key == stack[0].key,
        step(stack, key, value)->Ok_0[0].siblings.len() == stack[0].siblings.len() + if same_level(
            key,
            stack[0].key,
        ) {
            1int
        } else {
            0int
        },
{
    let next = step(stack, key, value)->Ok_0;
    let base = stack[0].key;
    let top = stack.last().key;
    let n = stack.len() as int;
    assert(key.prefix_of(&key));
    assert(top.prefix_of(&top));
    if same_level(key, top) {
        lemma_sibling_keeps_order(stack, value);
        if n > 1 {
            assert(next[0] == stack[0]);
            assert(proper_prefix(stack[0].key, stack[n - 1].key));
            if same_level(key, base) {
                lemma_proper_prefix_between_levels(key, base, top, top);
            }
        }
    } else if proper_prefix(top, key) {
        lemma_open_level_rising(stack, key, leaf(value));
        lemma_open_level_well_formed(stack, key, leaf(value));
        assert(next[0] == stack[0]);
        assert(proper_prefix(next[0].key, next[n].key));
    } else {
        let pruned = prune_to(stack, key);
        let m = pruned.len() as int;
        lemma_prune_to_reaches_level(stack, key);
        lemma_prune_to_keeps_base(stack, key);
        lemma_sibling_keeps_order(pruned, value);
        if m > 1 {
            assert(next[0] == pruned[0]);
            assert(proper_prefix(pruned[0].key, pruned[m - 1].key));
            if same_level(key, base) {
                lemma_proper_prefix_between_levels(key, base, pruned[m - 1].key, key);
            }
        }
    }
}

/// A new sibling leaves the keys as they are and no level empty.
proof fn lemma_sibling_keeps_order<K: Prefixable, T>(stack: Seq<Level<K, T>>, value: T)
    requires
        well_formed(stack),
        rising(stack),
    ensures
        well_formed(add_sibling(stack, leaf(value))),
        rising(add_sibling(stack, leaf(value))),
        add_sibling(stack, leaf(value)).len() == stack.len(),
        add_sibling(stack, leaf(value))[0].key == stack[0].key,
        stack.len() == 1 ==> add_sibling(stack, leaf(value))[0].siblings.len()
            == stack[0].siblings.len() + 1,
{
    let next = add_sibling(stack, leaf(value));
    lemma_add_sibling_well_formed(stack, leaf(value));
    assert forall|i: int, j: int| 0 <= i < j < next.len() implies proper_prefix(
        (#[trigger] next[i]).key,
        (#[trigger] next[j]).key,
    ) by {
        assert(proper_prefix(stack[i].key, stack[j].key));
    }
}

/// Over a prefix order, a run that succeeds adds one tree to the base level for each of
/// its items whose key is on the base level.
proof fn lemma_run_counts_base<K: Prefixable, T>(stack: Seq<Level<K, T>>, items: Seq<(K, T)>)
    requires
        is_prefix_order::<K>(),
        well_formed(stack),
        rising(stack),
        run(stack, items) is Ok,
    ensures
        well_formed(run(stack, items)->Ok_0),
        run(stack, items)->Ok_0[0].key == stack[0].key,
        run(stack, items)->Ok_0[0].siblings.len() == stack[0].siblings.len() + count_on_level(
            items,
            stack[0].key,
        ),
    decreases items.len(),
{
    if items.len() > 0 {
        lemma_step_counts_base(stack, items[0].0, items[0].1);
        lemma_run_counts_base(step(stack, items[0].0, items[0].1)->Ok_0, items.drop_first());
    }
}

/// Over a prefix order, a forest that was built has one root for each item whose key is
/// on the level of the first key.
pub proof fn lemma_roots_are_base_level_items<K: Prefixable, T>(items: Seq<(K, T)>)
    requires
        is_prefix_order::<K>(),
        build(items) is Ok,
        items.len() > 0,
    ensures
        build(items)->Ok_0.len() == count_on_level(items, items[0].0),
{
    let empty = Seq::<Level<K, T>>::empty();
    let key = items[0].0;
    let first = open_level(empty, key, leaf(items[0].1));
    assert(key.prefix_of(&key));
    lemma_open_level_rising(empty, key, leaf(items[0].1));
    lemma_run_counts_base(first, items.drop_first());
    lemma_prune_all_keeps_base(run(first, items.drop_first())->Ok_0);
}

} // verus!
