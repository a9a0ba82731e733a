//! The order in which an ordered set hands out its members.

use std::collections::BTreeSet;
use vstd::laws_cmp::group_laws_cmp;
use vstd::prelude::*;
use vstd::std_specs::btree::{axiom_increasing_seq_meaning, axiom_spec_btree_keys_iter};
use vstd::std_specs::cmp::OrdSpec;
use vstd::std_specs::iter::IteratorSpec;

verus! {

/// Whether each member of `ids` is below the ones after it.
pub open spec fn ascending(ids: Seq<i64>) -> bool {
    forall|i: int, j: int| 0 <= i < j < ids.len() ==> ids[i] < ids[j]
}

/// The members of an ordered set of identifiers come out in ascending order.
pub proof fn lemma_members_ascend(set: &BTreeSet<i64>)
    ensures
        ascending(set.iter().remaining().unref()),
{
    broadcast use group_laws_cmp;

    let all = set.iter().remaining();
    axiom_spec_btree_keys_iter(set);
    axiom_increasing_seq_meaning::<&i64>(all);
    assert forall|i: int, j: int| 0 <= i < j < all.unref().len() implies all.unref()[i]
        < all.unref()[j] by {
        assert((&all[i]).cmp_spec(&all[j]) is Less);
    }
}

} // verus!
