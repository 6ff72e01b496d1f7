use std::cmp::Ordering;
use vstd::prelude::*;
use vstd::std_specs::cmp::PartialEqSpec;

verus! {

/// Keys that can be tested for being a prefix of one another.
///
/// The test is meant to be reflexive and transitive (see `is_prefix_order`), but nothing
/// here relies on that: what needs it asks for it.
pub trait Prefixable {
    /// Whether `is_prefix_of` computes `prefix_of`. An implementation whose test rests on
    /// code that is not known to keep to its own meaning says so here.
    spec fn obeys_prefix_spec() -> bool;

    /// `self` is a prefix of `other`.
    spec fn prefix_of(&self, other: &Self) -> bool;

    /// Tests whether `self` is a prefix of `other`.
    fn is_prefix_of(&self, other: &Self) -> (r: bool)
        ensures
            Self::obeys_prefix_spec() ==> r == self.prefix_of(other),
    ;

    /// Compares `self` with `other` by the prefix test in both directions: equal where
    /// each is a prefix of the other, less where only `self` is a prefix of `other`,
    /// greater where only `other` is a prefix of `self`, and nothing where neither is.
    fn prefix_ord(&self, other: &Self) -> (r: Option<Ordering>)
        ensures
            Self::obeys_prefix_spec() ==> r == prefix_order(
                self.prefix_of(other),
                other.prefix_of(self),
            ),
    {
        match (self.is_prefix_of(other), other.is_prefix_of(self)) {
            (true, true) => Some(Ordering::Equal),
            (true, false) => Some(Ordering::Less),
            (false, true) => Some(Ordering::Greater),
            (false, false) => None,
        }
    }
}

/// The prefix test of `K` is reflexive and transitive.
pub open spec fn is_prefix_order<K: Prefixable>() -> bool {
    &&& forall|a: K| #[trigger] a.prefix_of(&a)
    &&& forall|a: K, b: K, c: K|
        #[trigger] a.prefix_of(&b) && #[trigger] b.prefix_of(&c) ==> a.prefix_of(&c)
}

/// `a` and `b` are prefixes of each other: they mark the same level.
pub open spec fn same_level<K: Prefixable>(a: K, b: K) -> bool {
    a.prefix_of(&b) && b.prefix_of(&a)
}

/// `a` is a prefix of `b` and `b` is none of `a`: `b` lies strictly deeper than `a`.
pub open spec fn proper_prefix<K: Prefixable>(a: K, b: K) -> bool {
    a.prefix_of(&b) && !b.prefix_of(&a)
}

/// The comparison that two prefix tests give: the first says whether the left key is a
/// prefix of the right one, the second whether the right key is a prefix of the left one.
pub open spec fn prefix_order(forth: bool, back: bool) -> Option<Ordering> {
    if forth && back {
        Some(Ordering::Equal)
    } else if forth {
        Some(Ordering::Less)
    } else if back {
        Some(Ordering::Greater)
    } else {
        None
    }
}

/// `str::starts_with` with a string as its pattern. Trusted: it says whether the
/// characters of `start` are the first characters of `text`, in order.
#[verifier::external_body]
fn str_starts_with(text: &str, start: &str) -> (r: bool)
    ensures
        r == start@.is_prefix_of(text@),
{
    text.starts_with(start)
}

/// A string is a prefix of the strings that start with it.
impl Prefixable for &str {
    open spec fn obeys_prefix_spec() -> bool {
        true
    }

    open spec fn prefix_of(&self, other: &Self) -> bool {
        self@.is_prefix_of(other@)
    }

    fn is_prefix_of(&self, other: &Self) -> (r: bool) {
        str_starts_with(other, self)
    }
}

/// Strings under "starts with" form a prefix order.
pub proof fn lemma_str_is_prefix_order()
    ensures
        is_prefix_order::<&str>(),
{
    assert forall|a: &str| #[trigger] a.prefix_of(&a) by {
        assert(a@.subrange(0, a@.len() as int) =~= a@);
    }
    assert forall|a: &str, b: &str, c: &str| #[trigger]
        a.prefix_of(&b) && #[trigger] b.prefix_of(&c) implies a.prefix_of(&c) by {
        assert(c@.subrange(0, a@.len() as int) =~= b@.subrange(0, a@.len() as int));
    }
}

/// A reference compares as the key that it refers to.
impl<'a, T: Prefixable> Prefixable for &'a T {
    open spec fn obeys_prefix_spec() -> bool {
        T::obeys_prefix_spec()
    }

    open spec fn prefix_of(&self, other: &Self) -> bool {
        (**self).prefix_of(*other)
    }

    fn is_prefix_of(&self, other: &Self) -> (r: bool) {
        (**self).is_prefix_of(*other)
    }
}

/// References to keys of a prefix order form a prefix order.
pub proof fn lemma_reference_is_prefix_order<T: Prefixable>()
    requires
        is_prefix_order::<T>(),
    ensures
        is_prefix_order::<&T>(),
{
    assert forall|a: &T| #[trigger] a.prefix_of(&a) by {
        assert((*a).prefix_of(a));
    }
    assert forall|a: &T, b: &T, c: &T| #[trigger]
        a.prefix_of(&b) && #[trigger] b.prefix_of(&c) implies a.prefix_of(&c) by {
        assert((*a).prefix_of(b) && (*b).prefix_of(c));
    }
}

/// `<[T]>::starts_with`. Trusted, where `==` on `T` keeps to its meaning: it says whether
/// `items` is at least as long as `start` and holds, place by place, items to which those
/// of `start` are equal.
#[verifier::external_body]
fn slice_starts_with<T: PartialEq>(items: &[T], start: &[T]) -> (r: bool)
    ensures
        T::obeys_eq_spec() ==> r == slice_prefix(start@, items@),
{
    items.starts_with(start)
}

/// `a` is no longer than `b`, and each item of `a` equals the item of `b` at its place.
pub open spec fn slice_prefix<T: PartialEq>(a: Seq<T>, b: Seq<T>) -> bool {
    &&& a.len() <= b.len()
    &&& forall|i: int| 0 <= i < a.len() ==> #[trigger] a[i].eq_spec(&b[i])
}

/// A slice is a prefix of the slices that start with it.
impl<T: PartialEq + PartialOrd> Prefixable for [T] {
    open spec fn obeys_prefix_spec() -> bool {
        T::obeys_eq_spec()
    }

    open spec fn prefix_of(&self, other: &Self) -> bool {
        slice_prefix(self@, other@)
    }

    fn is_prefix_of(&self, other: &Self) -> (r: bool) {
        slice_starts_with(other, self)
    }
}

} // verus!
