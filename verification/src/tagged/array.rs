//! Borrowed slices indexed by a tag.

use crate::tagged::TaggedIndexable;
use std::marker::PhantomData;
use vstd::prelude::*;

verus! {

/// A borrowed slice whose positions are named by values of type `I`.
pub struct TaggedArray<'a, I, T: 'a> {
    index_type: PhantomData<I>,
    tagged_array: &'a [T],
}

impl<'a, I, T: 'a> View for TaggedArray<'a, I, T> {
    type V = Seq<T>;

    closed spec fn view(&self) -> Seq<T> {
        self.tagged_array@
    }
}

impl<'a, I, T: 'a> TaggedArray<'a, I, T> {
    /// The elements of `elements`, under the tag `I`.
    pub fn new(elements: &'a [T]) -> (arr: Self)
        ensures
            arr@ == elements@,
    {
        TaggedArray { index_type: PhantomData, tagged_array: elements }
    }

    /// The number of elements.
    pub fn len(&self) -> (n: usize)
        ensures
            n == self@.len(),
    {
        self.tagged_array.len()
    }
}

/// A copy of the element of `arr` at the position that `ix` names.
pub fn tagged_index<'a, I, T>(arr: &TaggedArray<'a, I, T>, ix: I) -> (element: T) where
    I: TaggedIndexable,
    T: Copy,

    requires
        ix.indexable(),
        ix.index_value() < arr@.len(),
    ensures
        element == arr@[ix.index_value()],
{
    arr.tagged_array[ix.as_index()]
}

} // verus!
