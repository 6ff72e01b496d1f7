use crate::error::IndentationError;
use crate::forest::{
    add_sibling, adopt, build, fold_top, lemma_add_sibling_well_formed,
    lemma_open_level_well_formed, lemma_prune_to_lands, open_level, prune_all, prune_to, run,
    step, well_formed, Level,
};
use crate::prefix::{proper_prefix, same_level, Prefixable};
use crate::tree::{leaf, Tree};
use vstd::prelude::*;

verus! {

/// No items give no trees.
pub proof fn lemma_empty_input_gives_empty_forest<K: Prefixable, T>()
    ensures
        build(Seq::<(K, T)>::empty()) == Ok::<Seq<Tree<T>>, IndentationError>(Seq::empty()),
{
    assert(prune_all(Seq::<Level<K, T>>::empty()) == Seq::<Level<K, T>>::empty());
}

/// A run fails only on a key: one that is unrelated to the innermost key, or one that
/// steps back to a level that is not open.
pub proof fn lemma_run_fails_on_keys_only<K: Prefixable, T>(
    stack: Seq<Level<K, T>>,
    items: Seq<(K, T)>,
)
    ensures
        run(stack, items) matches Err(e) ==> e == IndentationError::InvalidIndent || e
            == IndentationError::IncoherentIndent,
    decreases items.len(),
{
    if items.len() > 0 {
        match step(stack, items[0].0, items[0].1) {
            Ok(next) => {
                lemma_run_fails_on_keys_only(next, items.drop_first());
            },
            Err(_) => {},
        }
    }
}

/// A build fails only on a key: one that is unrelated to the innermost key, or one that
/// steps back to a level that is not open.
pub proof fn lemma_build_fails_on_keys_only<K: Prefixable, T>(items: Seq<(K, T)>)
    ensures
        build(items) matches Err(e) ==> e == IndentationError::InvalidIndent || e
            == IndentationError::IncoherentIndent,
{
    lemma_run_fails_on_keys_only(Seq::<Level<K, T>>::empty(), items);
}

/// A step that succeeds leaves a base level, and no level without a tree.
pub proof fn lemma_step_keeps_levels_filled<K: Prefixable, T>(
    stack: Seq<Level<K, T>>,
    key: K,
    value: T,
)
    requires
        stack.len() == 0 || well_formed(stack),
    ensures
        step(stack, key, value) matches Ok(next) ==> well_formed(next),
{
    lemma_open_level_well_formed(stack, key, leaf(value));
    if stack.len() > 0 {
        lemma_add_sibling_well_formed(stack, leaf(value));
        lemma_prune_to_lands(stack, key);
        lemma_add_sibling_well_formed(prune_to(stack, key), leaf(value));
    }
}

/// Taking in the first `n` of the items of a build that succeeds succeeds too, and the
/// stack it leaves has a base level and no level without a tree: after no item of a build
/// is a level empty, or the base level gone.
pub proof fn lemma_levels_never_empty<K: Prefixable, T>(items: Seq<(K, T)>, n: int)
    requires
        build(items) is Ok,
        1 <= n <= items.len(),
    ensures
        run(Seq::<Level<K, T>>::empty(), items.take(n)) matches Ok(stack) && well_formed(stack),
{
    lemma_run_prefix(Seq::<Level<K, T>>::empty(), items, n);
}

/// A run that succeeds from a stack with filled levels succeeds on every prefix of its
/// items, and leaves filled levels there.
pub proof fn lemma_run_prefix<K: Prefixable, T>(stack: Seq<Level<K, T>>, items: Seq<(K, T)>, n: int)
    requires
        stack.len() == 0 || well_formed(stack),
        run(stack, items) is Ok,
        0 <= n <= items.len(),
    ensures
        run(stack, items.take(n)) matches Ok(at) && (at.len() == 0 || well_formed(at)) && run(
            at,
            items.skip(n),
        ) == run(stack, items),
        n >= 1 ==> well_formed(run(stack, items.take(n))->Ok_0),
    decreases n,
{
    if n == 0 {
        assert(items.take(0).len() == 0);
        assert(items.skip(0) =~= items);
    } else {
        let next = step(stack, items[0].0, items[0].1)->Ok_0;
        lemma_step_keeps_levels_filled(stack, items[0].0, items[0].1);
        lemma_run_prefix(next, items.drop_first(), n - 1);
        assert(items.take(n).drop_first() =~= items.drop_first().take(n - 1));
        assert(items.take(n)[0] == items[0]);
        assert(items.drop_first().skip(n - 1) =~= items.skip(n));
        if n == 1 {
            assert(items.drop_first().take(0).len() == 0);
        }
    }
}

/// One leaf for each item, in the items' order.
pub open spec fn leaves<K, T>(items: Seq<(K, T)>) -> Seq<Tree<T>> {
    Seq::new(items.len(), |i: int| leaf(items[i].1))
}

/// Items whose keys are all on one level give one leaf each, in their order.
pub proof fn lemma_flat_input_gives_leaves<K: Prefixable, T>(items: Seq<(K, T)>)
    requires
        forall|i: int, j: int|
            0 <= i < items.len() && 0 <= j < items.len() ==> same_level(
                (#[trigger] items[i]).0,
                (#[trigger] items[j]).0,
            ),
    ensures
        build(items) == Ok::<Seq<Tree<T>>, IndentationError>(leaves(items)),
{
    if items.len() == 0 {
        lemma_empty_input_gives_empty_forest::<K, T>();
        assert(leaves(items) =~= Seq::empty());
    } else {
        let key = items[0].0;
        let first = seq![leaf(items[0].1)];
        let rest = items.drop_first();
        assert(open_level(Seq::<Level<K, T>>::empty(), key, leaf(items[0].1)) =~= seq![
            Level { key, siblings: first },
        ]);
        assert forall|i: int| 0 <= i < rest.len() implies same_level(
            (#[trigger] rest[i]).0,
            key,
        ) by {
            assert(rest[i] == items[i + 1]);
        }
        lemma_flat_run(key, first, rest);
        assert(first + leaves(rest) =~= leaves(items));
    }
}

/// On a single level, items on that level add one leaf each.
proof fn lemma_flat_run<K: Prefixable, T>(key: K, siblings: Seq<Tree<T>>, rest: Seq<(K, T)>)
    requires
        forall|i: int| 0 <= i < rest.len() ==> same_level((#[trigger] rest[i]).0, key),
    ensures
        run(seq![Level { key, siblings }], rest) == Ok::<Seq<Level<K, T>>, IndentationError>(
            seq![Level { key, siblings: siblings + leaves(rest) }],
        ),
    decreases rest.len(),
{
    let stack = seq![Level { key, siblings }];
    if rest.len() == 0 {
        assert(siblings + leaves(rest) =~= siblings);
    } else {
        let more = siblings.push(leaf(rest[0].1));
        assert(same_level(rest[0].0, stack.last().key));
        assert(add_sibling(stack, leaf(rest[0].1)) =~= seq![Level { key, siblings: more }]);
        let tail = rest.drop_first();
        assert forall|i: int| 0 <= i < tail.len() implies same_level(
            (#[trigger] tail[i]).0,
            key,
        ) by {
            assert(tail[i] == rest[i + 1]);
        }
        lemma_flat_run(key, more, tail);
        assert(more + leaves(tail) =~= siblings + leaves(rest));
    }
}

/// The first item's value above the chain of the items after it.
pub open spec fn chain<K, T>(items: Seq<(K, T)>) -> Tree<T>
    decreases items.len(),
{
    if items.len() <= 1 {
        leaf(items[0].1)
    } else {
        Tree { value: items[0].1, children: seq![chain(items.drop_first())] }
    }
}

/// Items of which each key is a proper prefix of the next give a single tree, in which
/// each value is the only child of the value before it.
pub proof fn lemma_rising_input_gives_chain<K: Prefixable, T>(items: Seq<(K, T)>)
    requires
        items.len() >= 1,
        forall|i: int|
            0 <= i < items.len() - 1 ==> proper_prefix((#[trigger] items[i]).0, items[i + 1].0),
    ensures
        build(items) == Ok::<Seq<Tree<T>>, IndentationError>(seq![chain(items)]),
{
    let n = items.len() as int;
    lemma_rising_run(Seq::empty(), items);
    assert(Seq::<(K, T)>::empty() + items =~= items);
    assert(tower(Seq::<(K, T)>::empty()) =~= Seq::<Level<K, T>>::empty());
    let last = items.skip(n - 1);
    assert(last.len() == 1);
    assert(last[0] == items[n - 1]);
    assert(tower(items) =~= capped(items, n - 1, chain(last)));
    lemma_chain_folds(items, n - 1);
}

/// One level for each item, which holds that item's value alone.
spec fn tower<K, T>(items: Seq<(K, T)>) -> Seq<Level<K, T>> {
    Seq::new(items.len(), |i: int| Level { key: items[i].0, siblings: seq![leaf(items[i].1)] })
}

/// The levels of the first `k` items, and above them a level for item `k` that holds `top`.
spec fn capped<K, T>(items: Seq<(K, T)>, k: int, top: Tree<T>) -> Seq<Level<K, T>> {
    Seq::new(
        (k + 1) as nat,
        |i: int|
            Level { key: items[i].0, siblings: seq![if i < k { leaf(items[i].1) } else { top }] },
    )
}

/// Items of which each key properly extends the one before open one level each.
proof fn lemma_rising_run<K: Prefixable, T>(done: Seq<(K, T)>, rest: Seq<(K, T)>)
    requires
        forall|i: int|
            0 <= i < (done + rest).len() - 1 ==> proper_prefix(
                (#[trigger] (done + rest)[i]).0,
                (done + rest)[i + 1].0,
            ),
    ensures
        run(tower(done), rest) == Ok::<Seq<Level<K, T>>, IndentationError>(tower(done + rest)),
    decreases rest.len(),
{
    let all = done + rest;
    if rest.len() == 0 {
        assert(all =~= done);
    } else {
        let stack = tower(done);
        let key = rest[0].0;
        let grown = done.push(rest[0]);
        assert(all[done.len() as int] == rest[0]);
        if done.len() > 0 {
            assert(all[done.len() - 1] == done.last());
            assert(proper_prefix(stack.last().key, key));
        }
        assert(step(stack, key, rest[0].1) == Ok::<Seq<Level<K, T>>, IndentationError>(
            open_level(stack, key, leaf(rest[0].1)),
        ));
        assert(open_level(stack, key, leaf(rest[0].1)) =~= tower(grown));
        assert(grown + rest.drop_first() =~= all);
        lemma_rising_run(grown, rest.drop_first());
    }
}

/// Folding a stack of single trees down to the base level hangs each tree under the one
/// below it.
proof fn lemma_chain_folds<K, T>(items: Seq<(K, T)>, k: int)
    requires
        0 <= k < items.len(),
    ensures
        prune_all(capped(items, k, chain(items.skip(k)))) == seq![
            Level { key: items[0].0, siblings: seq![chain(items)] },
        ],
    decreases k,
{
    let stack = capped(items, k, chain(items.skip(k)));
    if k == 0 {
        assert(items.skip(0) =~= items);
        assert(stack =~= seq![Level { key: items[0].0, siblings: seq![chain(items)] }]);
    } else {
        let lower = items.skip(k - 1);
        assert(lower.drop_first() =~= items.skip(k));
        assert(lower[0] == items[k - 1]);
        let host = leaf(items[k - 1].1);
        assert(host.children + seq![chain(items.skip(k))] =~= seq![chain(items.skip(k))]);
        let grown = adopt(host, stack.last().siblings);
        assert(stack.last().siblings == seq![chain(items.skip(k))]);
        assert(grown == chain(lower));
        assert(stack.drop_last().last().siblings =~= seq![host]);
        assert(seq![host].drop_last().push(grown) =~= seq![grown]);
        let folded = fold_top(stack);
        let wanted = capped(items, k - 1, chain(lower));
        assert(folded.len() == wanted.len());
        assert forall|i: int| 0 <= i < folded.len() implies folded[i] == wanted[i] by {
            if i < k - 1 {
                assert(folded[i] == stack[i]);
            } else {
                assert(folded[i].siblings =~= seq![grown]);
            }
        }
        assert(folded =~= wanted);
        lemma_chain_folds(items, k - 1);
    }
}

} // verus!
