use crate::error::IndentationError;
use crate::prefix::{proper_prefix, same_level, Prefixable};
use crate::tree::{leaf, Tree};
use vstd::prelude::*;

verus! {

/// One open nesting level: the key that opened it and the trees built at it so far.
pub struct Level<K, T> {
    pub key: K,
    pub siblings: Seq<Tree<T>>,
}

/// `host` with `more` appended to its children.
pub open spec fn adopt<T>(host: Tree<T>, more: Seq<Tree<T>>) -> Tree<T> {
    Tree { value: host.value, children: host.children + more }
}

/// Every level, from the base level up, holds at least one tree, and there is a base level.
pub open spec fn well_formed<K, T>(stack: Seq<Level<K, T>>) -> bool {
    &&& stack.len() >= 1
    &&& forall|i: int| 0 <= i < stack.len() ==> (#[trigger] stack[i]).siblings.len() >= 1
}

/// A level of the stack has a key on the same level as `key`.
pub open spec fn has_level<K: Prefixable, T>(stack: Seq<Level<K, T>>, key: K) -> bool {
    exists|i: int| 0 <= i < stack.len() && same_level((#[trigger] stack[i]).key, key)
}

/// The stack with `tree` added as the newest sibling of its innermost level.
pub open spec fn add_sibling<K, T>(stack: Seq<Level<K, T>>, tree: Tree<T>) -> Seq<Level<K, T>> {
    let top = stack.last();
    stack.drop_last().push(Level { key: top.key, siblings: top.siblings.push(tree) })
}

/// The stack with a new innermost level that holds `tree` alone.
pub open spec fn open_level<K, T>(stack: Seq<Level<K, T>>, key: K, tree: Tree<T>) -> Seq<
    Level<K, T>,
> {
    stack.push(Level { key, siblings: seq![tree] })
}

/// The stack without its innermost level, whose trees have become the last children of the
/// newest sibling of the level below.
pub open spec fn fold_top<K, T>(stack: Seq<Level<K, T>>) -> Seq<Level<K, T>>
    recommends
        stack.len() >= 2,
        stack[stack.len() - 2].siblings.len() >= 1,
{
    let top = stack.last();
    let below = stack.drop_last();
    let parent = below.last();
    let host = parent.siblings.last();
    below.drop_last().push(
        Level { key: parent.key, siblings: parent.siblings.drop_last().push(adopt(host, top.siblings)) },
    )
}

/// Folds innermost levels away for as long as `key` is a proper prefix of the innermost key
/// and a level lies below.
pub open spec fn prune_to<K: Prefixable, T>(stack: Seq<Level<K, T>>, key: K) -> Seq<Level<K, T>>
    decreases stack.len(),
{
    if stack.len() >= 2 && proper_prefix(key, stack.last().key) {
        prune_to(fold_top(stack), key)
    } else {
        stack
    }
}

/// Folds every level but the base level away.
pub open spec fn prune_all<K, T>(stack: Seq<Level<K, T>>) -> Seq<Level<K, T>>
    decreases stack.len(),
{
    if stack.len() >= 2 {
        prune_all(fold_top(stack))
    } else {
        stack
    }
}

/// What one keyed value does to the stack.
///
/// On an empty stack it opens the base level. Otherwise the key is compared with the
/// innermost key: on the same level the value becomes a sibling; strictly deeper, it opens
/// a level; strictly shallower, it must be on the level of some open level, to which the
/// stack is folded back before the value becomes a sibling there; unrelated keys are an
/// error.
pub open spec fn step<K: Prefixable, T>(stack: Seq<Level<K, T>>, key: K, value: T) -> Result<
    Seq<Level<K, T>>,
    IndentationError,
> {
    if stack.len() == 0 {
        Ok(open_level(stack, key, leaf(value)))
    } else if same_level(key, stack.last().key) {
        Ok(add_sibling(stack, leaf(value)))
    } else if proper_prefix(stack.last().key, key) {
        Ok(open_level(stack, key, leaf(value)))
    } else if proper_prefix(key, stack.last().key) {
        if has_level(stack, key) {
            Ok(add_sibling(prune_to(stack, key), leaf(value)))
        } else {
            Err(IndentationError::InvalidIndent)
        }
    } else {
        Err(IndentationError::IncoherentIndent)
    }
}

/// The stack after `items` have been taken in order, starting from `stack`, or the first
/// error on the way.
pub open spec fn run<K: Prefixable, T>(stack: Seq<Level<K, T>>, items: Seq<(K, T)>) -> Result<
    Seq<Level<K, T>>,
    IndentationError,
>
    decreases items.len(),
{
    if items.len() == 0 {
        Ok(stack)
    } else {
        match step(stack, items[0].0, items[0].1) {
            Ok(next) => run(next, items.drop_first()),
            Err(e) => Err(e),
        }
    }
}

/// The trees of the base level, or none where no level is open.
pub open spec fn roots<K, T>(stack: Seq<Level<K, T>>) -> Seq<Tree<T>> {
    if stack.len() == 0 {
        Seq::empty()
    } else {
        stack[0].siblings
    }
}

/// The forest that `items` describe, or the error that they run into.
pub open spec fn build<K: Prefixable, T>(items: Seq<(K, T)>) -> Result<
    Seq<Tree<T>>,
    IndentationError,
> {
    match run(Seq::empty(), items) {
        Ok(stack) => Ok(roots(prune_all(stack))),
        Err(e) => Err(e),
    }
}

/// A new sibling leaves no level empty, and the keys as they are.
pub proof fn lemma_add_sibling_well_formed<K, T>(stack: Seq<Level<K, T>>, tree: Tree<T>)
    requires
        well_formed(stack),
    ensures
        well_formed(add_sibling(stack, tree)),
        add_sibling(stack, tree).len() == stack.len(),
        forall|i: int|
            0 <= i < stack.len() ==> (#[trigger] add_sibling(stack, tree)[i]).key == stack[i].key,
{
    let next = add_sibling(stack, tree);
    assert forall|i: int| 0 <= i < next.len() implies (#[trigger] next[i]).siblings.len() >= 1
        && next[i].key == stack[i].key by {
        if i < stack.len() - 1 {
            assert(next[i] == stack[i]);
        }
    }
}

/// A new level leaves no level empty.
pub proof fn lemma_open_level_well_formed<K, T>(stack: Seq<Level<K, T>>, key: K, tree: Tree<T>)
    requires
        stack.len() == 0 || well_formed(stack),
    ensures
        well_formed(open_level(stack, key, tree)),
{
    let next = open_level(stack, key, tree);
    assert forall|i: int| 0 <= i < next.len() implies (#[trigger] next[i]).siblings.len()
        >= 1 by {
        if i < stack.len() {
            assert(next[i] == stack[i]);
        }
    }
}

/// Folding the innermost level away leaves a base level and no level empty: the stack is
/// never without a level, nor a level without a tree, while levels are folded.
pub proof fn lemma_fold_top_well_formed<K, T>(stack: Seq<Level<K, T>>)
    requires
        well_formed(stack),
        stack.len() >= 2,
    ensures
        well_formed(fold_top(stack)),
        fold_top(stack).len() == stack.len() - 1,
        forall|i: int| 0 <= i < stack.len() - 1 ==> (#[trigger] fold_top(stack)[i]).key == stack[i].key,
{
    let folded = fold_top(stack);
    assert forall|i: int| 0 <= i < folded.len() implies (#[trigger] folded[i]).siblings.len() >= 1 by {
        if i < folded.len() - 1 {
            assert(folded[i] == stack[i]);
        }
    }
}

/// Folding back to a key that is on the level of an open level stops at a level of which
/// the key is no proper prefix, and leaves every level non-empty.
pub proof fn lemma_prune_to_lands<K: Prefixable, T>(stack: Seq<Level<K, T>>, key: K)
    requires
        well_formed(stack),
    ensures
        well_formed(prune_to(stack, key)),
        has_level(stack, key) ==> has_level(prune_to(stack, key), key) && !proper_prefix(
            key,
            prune_to(stack, key).last().key,
        ),
    decreases stack.len(),
{
    if stack.len() >= 2 && proper_prefix(key, stack.last().key) {
        let folded = fold_top(stack);
        lemma_fold_top_well_formed(stack);
        if has_level(stack, key) {
            let i = choose|i: int| 0 <= i < stack.len() && same_level((#[trigger] stack[i]).key, key);
            assert(i < stack.len() - 1);
            assert(same_level(folded[i].key, key));
        }
        lemma_prune_to_lands(folded, key);
    } else if has_level(stack, key) {
        let i = choose|i: int| 0 <= i < stack.len() && same_level((#[trigger] stack[i]).key, key);
        if stack.len() == 1 {
            assert(i == 0);
        }
    }
}

/// Folding every level but the base level away leaves the base level alone, non-empty.
pub proof fn lemma_prune_all_leaves_base<K, T>(stack: Seq<Level<K, T>>)
    requires
        well_formed(stack),
    ensures
        well_formed(prune_all(stack)),
        prune_all(stack).len() == 1,
    decreases stack.len(),
{
    if stack.len() >= 2 {
        lemma_fold_top_well_formed(stack);
        lemma_prune_all_leaves_base(fold_top(stack));
    }
}

} // verus!
