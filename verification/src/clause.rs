//! Clauses: a header and the literals, held in one allocation.
//!
//! The first two literals of a clause are the ones that the propagation
//! engine watches.

use crate::literal::Literal;
use crate::tagged::TaggedIndexable;
use slice_dst::SliceWithHeader;
use vstd::prelude::*;

verus! {

/// The identifier of a clause: its position in the clause store.
#[derive(Clone, Copy, Debug, PartialEq, Eq, Structural, PartialOrd, Ord)]
pub struct ClauseId(pub i64);

impl TaggedIndexable for ClauseId {
    open spec fn indexable(&self) -> bool {
        0 <= self.0 <= usize::MAX
    }

    open spec fn index_value(&self) -> int {
        self.0 as int
    }

    fn as_index(&self) -> (i: usize) {
        self.0 as usize
    }
}

/// The fixed-length part of a clause.
#[derive(Clone, Copy, Debug, PartialEq, Eq, Structural)]
pub struct ClauseHeader {
    pub id: ClauseId,
    pub lit_count: usize,
    pub activity: u64,
}

/// What propagation through the clauses found.
#[derive(Clone, Copy, Debug, PartialEq, Eq, Structural)]
pub enum PropagateResult {
    Conflict,
    NoConflict,
}

/// What the visit of one clause did to its watch.
#[derive(Clone, Copy, Debug, PartialEq, Eq, Structural)]
pub enum PropagationResult {
    /// Every literal of the clause is false.
    Conflict,
    /// The clause watches the literals that it watched.
    KeepWatch,
    /// The clause watches another literal in place of the falsified one.
    NewWatch,
}

/// The type `SliceWithHeader` of the crate `slice_dst`: a header and a slice
/// of items in one allocation. What it holds is known only through
/// `record_header` and `record_literals`.
#[verifier::external_type_specification]
#[verifier::external_body]
#[verifier::reject_recursive_types(Header)]
#[verifier::reject_recursive_types(Item)]
pub struct ExSliceWithHeader<Header, Item>(SliceWithHeader<Header, Item>);

/// A header and literals in one allocation.
pub type ClauseRecord = Box<SliceWithHeader<ClauseHeader, Literal>>;

/// The header that a record holds.
pub uninterp spec fn record_header(r: ClauseRecord) -> ClauseHeader;

/// The literals that a record holds, in order.
pub uninterp spec fn record_literals(r: ClauseRecord) -> Seq<Literal>;

/// `SliceWithHeader::new`, in a `Box`: the record holds the header and the
/// items that it was given, the items in their order.
#[verifier::external_body]
fn new_record(head: ClauseHeader, lits: Vec<Literal>) -> (r: ClauseRecord)
    ensures
        record_header(r) == head,
        record_literals(r) == lits@,
{
    SliceWithHeader::new::<Box<_>, Vec<Literal>>(head, lits)
}

/// The field `header` of a `SliceWithHeader`.
#[verifier::external_body]
fn header_of(r: &ClauseRecord) -> (head: &ClauseHeader)
    ensures
        *head == record_header(*r),
{
    &r.header
}

/// The field `header` of a `SliceWithHeader`, its identifier to be changed
/// in place: the rest of the header and the literals stay as they are.
#[verifier::external_body]
fn id_mut_of(r: &mut ClauseRecord) -> (id: &mut ClauseId)
    ensures
        *id == record_header(*old(r)).id,
        record_header(*final(r)).id == *final(id),
        record_header(*final(r)).lit_count == record_header(*old(r)).lit_count,
        record_header(*final(r)).activity == record_header(*old(r)).activity,
        record_literals(*final(r)) == record_literals(*old(r)),
{
    &mut r.header.id
}

/// The field `slice` of a `SliceWithHeader`, read at `i`.
#[verifier::external_body]
fn item_of(r: &ClauseRecord, i: usize) -> (lit: &Literal)
    requires
        i < record_literals(*r).len(),
    ensures
        *lit == record_literals(*r)[i as int],
{
    &r.slice[i]
}

/// The field `slice` of a `SliceWithHeader` at `i`, to be changed in place:
/// the header and the other literals stay as they are.
#[verifier::external_body]
fn item_mut_of(r: &mut ClauseRecord, i: usize) -> (lit: &mut Literal)
    requires
        i < record_literals(*old(r)).len(),
    ensures
        *lit == record_literals(*old(r))[i as int],
        record_literals(*final(r)) == record_literals(*old(r)).update(i as int, *final(lit)),
        record_header(*final(r)) == record_header(*old(r)),
{
    &mut r.slice[i]
}

/// A disjunction of literals.
pub struct Clause(ClauseRecord);

impl Clause {
    /// The header of the clause.
    pub closed spec fn header(&self) -> ClauseHeader {
        record_header(self.0)
    }

    /// The literals of the clause, in their current order.
    pub closed spec fn literals(&self) -> Seq<Literal> {
        record_literals(self.0)
    }

    /// The header counts the literals that the clause holds.
    pub open spec fn well_formed(&self) -> bool {
        self.header().lit_count == self.literals().len()
    }

    /// A clause of the given header and literals.
    pub fn new(head: ClauseHeader, lits: Vec<Literal>) -> (clause: Clause)
        ensures
            clause.header() == head,
            clause.literals() == lits@,
    {
        Clause(new_record(head, lits))
    }

    /// The number of literals that the header records.
    pub fn lit_count(&self) -> (n: usize)
        ensures
            n == self.header().lit_count,
    {
        header_of(&self.0).lit_count
    }

    /// The activity of the clause.
    pub fn activity(&self) -> (activity: u64)
        ensures
            activity == self.header().activity,
    {
        header_of(&self.0).activity
    }

    /// The identifier of the clause.
    pub fn identifier(&self) -> (id: ClauseId)
        ensures
            id == self.header().id,
    {
        header_of(&self.0).id
    }

    /// The identifier of the clause, to be changed in place.
    pub fn identifier_mut(&mut self) -> (id: &mut ClauseId)
        ensures
            *id == old(self).header().id,
            final(self).header() == (ClauseHeader { id: *final(id), ..old(self).header() }),
            final(self).literals() == old(self).literals(),
    {
        id_mut_of(&mut self.0)
    }

    /// The literal at position `num`.
    pub fn index(&self, num: usize) -> (lit: &Literal)
        requires
            num < self.literals().len(),
        ensures
            *lit == self.literals()[num as int],
    {
        item_of(&self.0, num)
    }

    /// The literal at position `i`, to be changed in place.
    pub fn index_mut(&mut self, i: usize) -> (lit: &mut Literal)
        requires
            i < old(self).literals().len(),
        ensures
            *lit == old(self).literals()[i as int],
            final(self).literals() == old(self).literals().update(i as int, *final(lit)),
            final(self).header() == old(self).header(),
    {
        item_mut_of(&mut self.0, i)
    }

    /// Exchanges the literals at positions `i` and `j`.
    pub fn swap_literals(&mut self, i: usize, j: usize)
        requires
            i < old(self).literals().len(),
            j < old(self).literals().len(),
        ensures
            final(self).literals() == old(self).literals().update(
                i as int,
                old(self).literals()[j as int],
            ).update(j as int, old(self).literals()[i as int]),
            final(self).header() == old(self).header(),
    {
        let first: Literal = *self.index(i);
        let second: Literal = *self.index(j);
        *self.index_mut(i) = second;
        *self.index_mut(j) = first;
    }
}

} // verus!
