use satirlib::clause::ClauseId;
use satirlib::literal::{Literal, Value, Variable};
use satirlib::tagged::array::TaggedArray;
use satirlib::tagged::{tagged_index, tagged_index_ref, TaggedIndexable, TaggedVec};

#[test]
fn a_new_tagged_vec_is_empty() {
    let v: TaggedVec<ClauseId, u32> = TaggedVec::new();
    assert_eq!(v.len(), 0);
}

#[test]
fn push_appends() {
    let mut v: TaggedVec<ClauseId, u32> = TaggedVec::new();
    v.push(10);
    v.push(20);
    assert_eq!(v.len(), 2);
    assert_eq!(*v.index(ClauseId(0)), 10);
    assert_eq!(*v.index(ClauseId(1)), 20);
    assert_eq!(tagged_index(&v, ClauseId(1)), 20);
}

#[test]
fn ensure_index_makes_the_index_addressable() {
    let mut v: TaggedVec<Variable, u8> = TaggedVec::new();
    let third = Variable::from_index(3).unwrap();
    v.ensure_index(&third, 7);
    assert_eq!(v.len(), 4);
    assert_eq!(*v.index(third), 7);
    assert_eq!(*v.index(Variable::first_variable()), 7);
}

#[test]
fn ensure_index_keeps_what_is_there() {
    let mut v: TaggedVec<Variable, u8> = TaggedVec::new();
    v.push(1);
    v.push(2);
    v.ensure_index(&Variable::first_variable(), 9);
    assert_eq!(v.len(), 2);
    v.ensure_index(&Variable::from_index(2).unwrap(), 9);
    assert_eq!(v.len(), 3);
    assert_eq!(*v.index(Variable::from_index(0).unwrap()), 1);
    assert_eq!(*v.index(Variable::from_index(1).unwrap()), 2);
    assert_eq!(*v.index(Variable::from_index(2).unwrap()), 9);
}

#[test]
fn index_mut_writes_in_place() {
    let mut v: TaggedVec<ClauseId, u32> = TaggedVec::new();
    v.push(10);
    v.push(20);
    *v.index_mut(ClauseId(0)) = 11;
    *tagged_index_ref(&mut v, ClauseId(1)) = 21;
    assert_eq!(tagged_index(&v, ClauseId(0)), 11);
    assert_eq!(tagged_index(&v, ClauseId(1)), 21);
    assert_eq!(v.len(), 2);
}

#[test]
fn tags_give_their_positions() {
    assert_eq!(ClauseId(5).as_index(), 5);
    assert_eq!(Variable::from_index(8).unwrap().as_index(), 8);
    assert_eq!(Variable::from_index(8).unwrap().to_negative_literal().as_index(), 17);
}

#[test]
fn a_tagged_array_reads_the_slice_it_borrows() {
    let levels: Vec<i32> = vec![7, -3, 12];
    let arr: TaggedArray<Variable, i32> = TaggedArray::new(&levels);
    assert_eq!(arr.len(), 3);
    assert_eq!(satirlib::tagged::array::tagged_index(&arr, Variable::from_index(0).unwrap()), 7);
    assert_eq!(satirlib::tagged::array::tagged_index(&arr, Variable::from_index(1).unwrap()), -3);
    assert_eq!(satirlib::tagged::array::tagged_index(&arr, Variable::from_index(2).unwrap()), 12);
}

#[test]
fn a_tagged_array_is_indexed_by_the_code_of_a_literal() {
    let values = [Value::lifted_false(), Value::lifted_true(), Value::unassigned(), Value::lifted_true()];
    let arr: TaggedArray<Literal, Value> = TaggedArray::new(&values);
    let first = Variable::from_index(0).unwrap();
    let second = Variable::from_index(1).unwrap();
    assert_eq!(satirlib::tagged::array::tagged_index(&arr, first.to_positive_literal()), values[first.to_positive_literal().as_index()]);
    assert_eq!(satirlib::tagged::array::tagged_index(&arr, second.to_negative_literal()), values[second.to_negative_literal().as_index()]);
    assert_ne!(first.to_positive_literal().as_index(), first.to_negative_literal().as_index());
}

#[test]
fn an_empty_tagged_array_has_no_elements() {
    let nothing: [u64; 0] = [];
    let arr: TaggedArray<ClauseId, u64> = TaggedArray::new(&nothing);
    assert_eq!(arr.len(), 0);
}
