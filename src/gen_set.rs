use vstd::prelude::*;

verus! {

/// `i` is the first position of `x` in `s`.
pub open spec fn is_first<T>(s: Seq<T>, x: T, i: int) -> bool {
    &&& 0 <= i < s.len()
    &&& s[i] == x
    &&& forall|j: int| 0 <= j < i ==> s[j] != x
}

/// The first position of `x` in `s`, if any.
pub open spec fn first_index<T>(s: Seq<T>, x: T) -> Option<int> {
    if exists|i: int| is_first(s, x, i) {
        Some(choose|i: int| is_first(s, x, i))
    } else {
        None
    }
}

/// The first position is unique.
pub proof fn lemma_first_unique<T>(s: Seq<T>, x: T, i: int)
    requires
        is_first(s, x, i),
    ensures
        first_index(s, x) == Some(i),
{
    let c = choose|c: int| is_first(s, x, c);
    assert(is_first(s, x, c));
    if c < i {
        assert(s[c] == x);
    } else if c > i {
        assert(s[i] != x);
    }
}


/// Why synthesis of a batch proof stopped.
#[derive(PartialEq, Eq, Structural, Clone, Copy, Debug)]
pub enum SynthesisError {
    /// A witness value was needed and the native value was absent.
    AssignmentMissing,
    /// The witness does not satisfy a constraint.
    Unsatisfiable,
}

/// What every accumulator backend offers: swapping a member for another, one
/// pair or a batch at a time, and reading the digest.
pub trait GenSet: Sized {
    /// What the set holds, as the caller gives it.
    type Item;

    /// The succinct summary of the set.
    type Digest;

    /// The set is well formed.
    spec fn inv(&self) -> bool;

    /// `old_item` is present in the set, and both items are well formed.
    spec fn can_swap(&self, old_item: Self::Item, new_item: Self::Item) -> bool;

    /// `after` is this set with `old_item` replaced by `new_item`.
    spec fn swapped(&self, old_item: Self::Item, new_item: Self::Item, after: Self) -> bool;

    /// Swapping the pairs of `old_items` and `new_items` in order finds each
    /// old item present when its turn comes.
    spec fn can_swap_all(&self, old_items: Seq<Self::Item>, new_items: Seq<Self::Item>) -> bool;

    /// `after` is this set with the pairs of `old_items` and `new_items`
    /// swapped in order.
    spec fn swapped_all(
        &self,
        old_items: Seq<Self::Item>,
        new_items: Seq<Self::Item>,
        after: Self,
    ) -> bool;

    /// `d` is the digest of the current members.
    spec fn is_digest(&self, d: Self::Digest) -> bool;

    /// Replaces a present member with another.
    fn swap(&mut self, old_item: &Self::Item, new_item: Self::Item)
        requires
            old(self).inv(),
            old(self).can_swap(*old_item, new_item),
        ensures
            final(self).inv(),
            old(self).swapped(*old_item, new_item, *final(self)),
    ;

    /// Swaps the pairs of two equal-length sequences, in order.
    fn swap_all(&mut self, old_items: Vec<Self::Item>, new_items: Vec<Self::Item>)
        requires
            old(self).inv(),
            old_items@.len() == new_items@.len(),
            old(self).can_swap_all(old_items@, new_items@),
        ensures
            final(self).inv(),
            old(self).swapped_all(old_items@, new_items@, *final(self)),
    ;

    /// The digest of the current members.
    fn digest(&self) -> (r: Self::Digest)
        requires
            self.inv(),
        ensures
            self.is_digest(r),
    ;
}

} // verus!
