//! Vectors indexed by a tag: a variable, a literal or a clause identifier
//! in place of a bare machine integer.

pub mod array;

use std::marker::PhantomData;
use vstd::prelude::*;

verus! {

/// A value that names a position in a `TaggedVec`.
pub trait TaggedIndexable {
    /// Whether the value names a position at all.
    spec fn indexable(&self) -> bool;

    /// The position that the value names.
    spec fn index_value(&self) -> int;

    fn as_index(&self) -> (i: usize)
        requires
            self.indexable(),
        ensures
            i == self.index_value(),
    ;
}

/// A vector whose positions are named by values of type `I`.
pub struct TaggedVec<I, T> {
    index_type: PhantomData<I>,
    tagged_vec: Vec<T>,
}

impl<I, T> View for TaggedVec<I, T> {
    type V = Seq<T>;

    closed spec fn view(&self) -> Seq<T> {
        self.tagged_vec@
    }
}

impl<I, T> TaggedVec<I, T> {
    /// An empty vector.
    pub fn new() -> (v: Self)
        ensures
            v@ == Seq::<T>::empty(),
    {
        TaggedVec { index_type: PhantomData, tagged_vec: Vec::new() }
    }

    /// Appends `t`.
    pub fn push(&mut self, t: T)
        ensures
            final(self)@ == old(self)@.push(t),
    {
        self.tagged_vec.push(t);
    }

    /// The number of elements.
    pub fn len(&self) -> (n: usize)
        ensures
            n == self@.len(),
    {
        self.tagged_vec.len()
    }

    /// Grows the vector with copies of `t`, as far as needed for the position
    /// that `i` names to exist.
    pub fn ensure_index(&mut self, i: &I, t: T) where T: Clone, I: TaggedIndexable
        requires
            i.indexable(),
            i.index_value() < usize::MAX,
        ensures
            final(self)@.len() == (if old(self)@.len() > i.index_value() {
                old(self)@.len() as int
            } else {
                i.index_value() + 1
            }),
            final(self)@.subrange(0, old(self)@.len() as int) == old(self)@,
            forall|k: int|
                old(self)@.len() <= k < final(self)@.len() ==> cloned(t, #[trigger] final(self)@[k]),
    {
        let at: usize = i.as_index();
        if self.tagged_vec.len() <= at {
            self.tagged_vec.resize(at + 1, t);
        } else {
            assert(self@.subrange(0, self@.len() as int) == self@);
        }
    }

    /// The element at the position that `i` names.
    pub fn index(&self, i: I) -> (element: &T) where I: TaggedIndexable
        requires
            i.indexable(),
            i.index_value() < self@.len(),
        ensures
            *element == self@[i.index_value()],
    {
        &self.tagged_vec[i.as_index()]
    }

    /// The element at the position that `i` names, to be changed in place.
    pub fn index_mut(&mut self, i: I) -> (element: &mut T) where I: TaggedIndexable
        requires
            i.indexable(),
            i.index_value() < old(self)@.len(),
        ensures
            *element == old(self)@[i.index_value()],
            final(self)@ == old(self)@.update(i.index_value(), *final(element)),
    {
        let at: usize = i.as_index();
        &mut self.tagged_vec[at]
    }
}

/// A copy of the element of `arr` at the position that `ix` names.
pub fn tagged_index<I, T>(arr: &TaggedVec<I, T>, ix: I) -> (element: T) where
    I: TaggedIndexable,
    T: Copy,

    requires
        ix.indexable(),
        ix.index_value() < arr@.len(),
    ensures
        element == arr@[ix.index_value()],
{
    *arr.index(ix)
}

/// The element of `arr` at the position that `ix` names, to be changed in
/// place.
pub fn tagged_index_ref<I, T>(arr: &mut TaggedVec<I, T>, ix: I) -> (element: &mut T) where
    I: TaggedIndexable,

    requires
        ix.indexable(),
        ix.index_value() < old(arr)@.len(),
    ensures
        *element == old(arr)@[ix.index_value()],
        final(arr)@ == old(arr)@.update(ix.index_value(), *final(element)),
{
    arr.index_mut(ix)
}

} // verus!
