use crate::error::IndentationError;
use crate::forest::{
    add_sibling, adopt, build, fold_top, has_level, lemma_prune_to_lands, open_level, prune_all,
    prune_to, run, step, well_formed, Level,
};
use crate::laws::lemma_build_fails_on_keys_only;
use crate::prefix::{proper_prefix, same_level, Prefixable};
use crate::tree::{forest_view, leaf, lemma_view_unfolds, RoseTree, Tree};
use std::cmp::Ordering;
use vstd::prelude::*;
use vstd::std_specs::iter::IteratorSpec;

verus! {

/// The levels that an executable stack stands for.
pub open spec fn stack_view<K, T>(stack: Seq<(K, Vec<RoseTree<T>>)>) -> Seq<Level<K, T>> {
    Seq::new(stack.len(), |i: int| Level { key: stack[i].0, siblings: forest_view(stack[i].1@) })
}

/// What a finished build stands for: the views of its trees, or its error.
pub open spec fn outcome<T>(result: Result<Vec<RoseTree<T>>, IndentationError>) -> Result<
    Seq<Tree<T>>,
    IndentationError,
> {
    match result {
        Ok(forest) => Ok(forest_view(forest@)),
        Err(e) => Err(e),
    }
}

/// Moves the trees of the innermost level under the newest sibling of the level below.
fn fold_innermost<K, T>(stack: &mut Vec<(K, Vec<RoseTree<T>>)>)
    requires
        old(stack)@.len() >= 2,
        well_formed(stack_view(old(stack)@)),
    ensures
        stack_view(final(stack)@) == fold_top(stack_view(old(stack)@)),
        well_formed(stack_view(final(stack)@)),
        final(stack)@.len() == old(stack)@.len() - 1,
{
    let (_, mut highest) = stack.pop().unwrap();
    let n = stack.len();
    assert(stack_view(old(stack)@)[n - 1].siblings.len() >= 1);
    let m = stack[n - 1].1.len();
    let ghost mid = stack@;
    let ghost moved = highest@;
    stack[n - 1].1[m - 1].children.append(&mut highest);
    proof {
        let parent = mid[n - 1];
        let host = parent.1@[m - 1];
        let host_after = stack@[n - 1].1@[m - 1];
        let before = stack_view(old(stack)@);
        lemma_view_unfolds(host);
        lemma_view_unfolds(host_after);
        assert(forest_view(host.children@ + moved) =~= forest_view(host.children@) + forest_view(
            moved,
        ));
        assert(host_after@ == adopt(host@, forest_view(moved)));
        assert(forest_view(stack@[n - 1].1@) =~= forest_view(parent.1@).drop_last().push(
            host_after@,
        ));
        assert(stack_view(stack@) =~= fold_top(before));
    }
}

/// Adds a leaf that holds `value` as the newest sibling of the innermost level.
fn push_sibling<K, T>(stack: &mut Vec<(K, Vec<RoseTree<T>>)>, value: T)
    requires
        well_formed(stack_view(old(stack)@)),
    ensures
        stack_view(final(stack)@) == add_sibling(stack_view(old(stack)@), leaf(value)),
        well_formed(stack_view(final(stack)@)),
{
    let n = stack.len();
    stack[n - 1].1.push(RoseTree::node(value));
    proof {
        let before = stack_view(old(stack)@);
        assert(forest_view(stack@[n - 1].1@) =~= forest_view(old(stack)@[n - 1].1@).push(
            leaf(value),
        ));
        assert(stack_view(stack@) =~= add_sibling(before, leaf(value)));
    }
}

/// Opens a new innermost level that holds a leaf with `value`.
fn push_level<K, T>(stack: &mut Vec<(K, Vec<RoseTree<T>>)>, key: K, value: T)
    ensures
        stack_view(final(stack)@) == open_level(stack_view(old(stack)@), key, leaf(value)),
        well_formed(stack_view(old(stack)@)) || old(stack)@.len() == 0 ==> well_formed(
            stack_view(final(stack)@),
        ),
{
    let mut siblings: Vec<RoseTree<T>> = Vec::new();
    siblings.push(RoseTree::node(value));
    stack.push((key, siblings));
    proof {
        let before = stack_view(old(stack)@);
        let n = old(stack)@.len();
        assert(forest_view(stack@[n as int].1@) =~= seq![leaf(value)]);
        assert(stack_view(stack@) =~= open_level(before, key, leaf(value)));
        if well_formed(before) || n == 0 {
            assert forall|i: int| 0 <= i < stack@.len() implies (#[trigger] stack_view(
                stack@,
            )[i]).siblings.len() >= 1 by {
                if i < n {
                    assert(stack_view(stack@)[i] == before[i]);
                }
            }
        }
    }
}

/// Whether `a` and `b` compare as equal.
fn on_same_level<Pr: Prefixable>(a: &Pr, b: &Pr) -> (same: bool)
    ensures
        Pr::obeys_prefix_spec() ==> same == same_level(*a, *b),
{
    match a.prefix_ord(b) {
        Some(Ordering::Equal) => true,
        _ => false,
    }
}

impl<T> RoseTree<T> {
    /// Builds the forest that a sequence of keyed values describes.
    ///
    /// The first key sets the base level. Each later key is compared with the key of the
    /// innermost open level: a key on the same level adds a sibling, a strictly deeper key
    /// opens a level below the newest sibling, and a strictly shallower key must be on the
    /// level of an open level, to which the builder returns. An empty sequence gives an
    /// empty forest.
    ///
    /// Fails with `IncoherentIndent` at the first key that is unrelated to the key of the
    /// innermost level, and with `InvalidIndent` at the first key that steps back to no
    /// open level. With keys whose prefix test keeps to its meaning it fails in no other
    /// way; `Internal` is what is left for keys whose test contradicts itself.
    ///
    /// The iterator has to come to an end.
    pub fn from_prefixables<Pr: Prefixable, I: Iterator<Item = (Pr, T)>>(iter: I) -> (result:
        Result<Vec<Self>, IndentationError>)
        requires
            iter.obeys_prophetic_iter_laws(),
            iter.decrease() is Some,
        ensures
            Pr::obeys_prefix_spec() ==> outcome(result) == build(iter.remaining()),
            iter.remaining().len() == 0 ==> outcome(result) == Ok::<
                Seq<Tree<T>>,
                IndentationError,
            >(Seq::empty()),
            Pr::obeys_prefix_spec() ==> (result matches Err(e) ==> e
                == IndentationError::InvalidIndent || e == IndentationError::IncoherentIndent),
    {
        let ghost items = iter.remaining();
        proof {
            lemma_build_fails_on_keys_only(items);
        }
        let mut source = iter;
        let mut stack: Vec<(Pr, Vec<Self>)> = Vec::new();
        match source.next() {
            Some((base_indent, first_value)) => {
                push_level(&mut stack, base_indent, first_value);
                assert(stack_view(Seq::<(Pr, Vec<Self>)>::empty()) =~= Seq::empty());
            },
            None => {
                let forest: Vec<Self> = Vec::new();
                assert(forest_view(forest@) =~= Seq::empty());
                return Ok(forest);
            },
        }
        loop
            invariant
                items.len() > 0,
                items == iter.remaining(),
                source.obeys_prophetic_iter_laws(),
                source.decrease() is Some,
                well_formed(stack_view(stack@)),
                Pr::obeys_prefix_spec() ==> run(Seq::empty(), items) == run(
                    stack_view(stack@),
                    source.remaining(),
                ),
            ensures
                well_formed(stack_view(stack@)),
                Pr::obeys_prefix_spec() ==> run(Seq::empty(), items) == Ok::<
                    Seq<Level<Pr, T>>,
                    IndentationError,
                >(stack_view(stack@)),
            decreases source.decrease()->0,
        {
            let ghost before = stack_view(stack@);
            let ghost rest = source.remaining();
            match source.next() {
                None => {
                    break ;
                },
                Some((current_indent, current_value)) => {
                    let n = stack.len();
                    assert(before[n - 1].key == stack@[n - 1].0);
                    assert(Pr::obeys_prefix_spec() ==> run(before, rest) == match step(
                        before,
                        current_indent,
                        current_value,
                    ) {
                        Ok(next) => run(next, source.remaining()),
                        Err(e) => Err(e),
                    });
                    match current_indent.prefix_ord(&stack[n - 1].0) {
                        Some(Ordering::Equal) => {
                            push_sibling(&mut stack, current_value);
                        },
                        Some(Ordering::Greater) => {
                            push_level(&mut stack, current_indent, current_value);
                        },
                        Some(Ordering::Less) => {
                            if Self::valid_indent(&current_indent, &stack) {
                                proof {
                                    lemma_prune_to_lands(before, current_indent);
                                }
                                if !Self::prune_down_to(&current_indent, &mut stack) {
                                    return Err(IndentationError::Internal);
                                }
                                push_sibling(&mut stack, current_value);
                            } else {
                                return Err(IndentationError::InvalidIndent);
                            }
                        },
                        None => {
                            return Err(IndentationError::IncoherentIndent);
                        },
                    }
                },
            }
        }
        Self::prune_down(&mut stack);
        match stack.pop() {
            Some((_, forest)) => Ok(forest),
            None => Err(IndentationError::Internal),
        }
    }

    /// Folds every level but the base level away.
    fn prune_down<Pr>(stack: &mut Vec<(Pr, Vec<Self>)>)
        requires
            well_formed(stack_view(old(stack)@)),
        ensures
            stack_view(final(stack)@) == prune_all(stack_view(old(stack)@)),
            final(stack)@.len() == 1,
    {
        while stack.len() > 1
            invariant
                well_formed(stack_view(stack@)),
                prune_all(stack_view(stack@)) == prune_all(stack_view(old(stack)@)),
            decreases stack.len(),
        {
            fold_innermost(stack);
        }
    }

    /// Whether the key of some open level is on the level of `target_indent`.
    fn valid_indent<Pr: Prefixable>(target_indent: &Pr, stack: &Vec<(Pr, Vec<Self>)>) -> (found:
        bool)
        ensures
            Pr::obeys_prefix_spec() ==> found == has_level(stack_view(stack@), *target_indent),
    {
        let mut i: usize = 0;
        while i < stack.len()
            invariant
                i <= stack.len(),
                Pr::obeys_prefix_spec() ==> forall|j: int|
                    0 <= j < i ==> !same_level((#[trigger] stack_view(stack@)[j]).key, *target_indent),
            decreases stack.len() - i,
        {
            if on_same_level(&stack[i].0, target_indent) {
                assert(Pr::obeys_prefix_spec() ==> same_level(
                    stack_view(stack@)[i as int].key,
                    *target_indent,
                ));
                return true;
            }
            i += 1;
        }
        false
    }

    /// Folds innermost levels away while `target_indent` is a proper prefix of the innermost
    /// key. Says whether it came to a level of which `target_indent` is no proper prefix.
    fn prune_down_to<Pr: Prefixable>(target_indent: &Pr, stack: &mut Vec<(Pr, Vec<Self>)>) -> (landed:
        bool)
        requires
            well_formed(stack_view(old(stack)@)),
        ensures
            well_formed(stack_view(final(stack)@)),
            Pr::obeys_prefix_spec() ==> stack_view(final(stack)@) == prune_to(
                stack_view(old(stack)@),
                *target_indent,
            ),
            Pr::obeys_prefix_spec() ==> landed == !proper_prefix(
                *target_indent,
                stack_view(final(stack)@).last().key,
            ),
    {
        loop
            invariant
                well_formed(stack_view(stack@)),
                Pr::obeys_prefix_spec() ==> prune_to(stack_view(stack@), *target_indent)
                    == prune_to(stack_view(old(stack)@), *target_indent),
            decreases stack.len(),
        {
            let n = stack.len();
            assert(stack_view(stack@)[n - 1].key == stack@[n - 1].0);
            match target_indent.prefix_ord(&stack[n - 1].0) {
                Some(Ordering::Less) => {
                    if n < 2 {
                        return false;
                    }
                    fold_innermost(stack);
                },
                _ => {
                    return true;
                },
            }
        }
    }
}

} // verus!
