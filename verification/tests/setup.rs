use satirlib::clause::{Clause, ClauseHeader, ClauseId};
use satirlib::literal::{Literal, Value, Variable};
use satirlib::preprocess::{distinct_literals, preprocess, remove_repeated_literals};
use satirlib::setup::{initial_variable_order, initialize_watchlist, intern_clauses};
use satirlib::tagged::TaggedVec;
use std::collections::BTreeSet;

fn lit(number: i32) -> Literal {
    let v = Variable::from_index(number.abs() - 1).unwrap();
    if number < 0 {
        v.to_negative_literal()
    } else {
        v.to_positive_literal()
    }
}

fn clause(id: i64, numbers: &[i32]) -> Clause {
    let lits: Vec<Literal> = numbers.iter().map(|n| lit(*n)).collect();
    Clause::new(ClauseHeader { id: ClauseId(id), lit_count: lits.len(), activity: 3 }, lits)
}

fn literals(c: &Clause) -> Vec<Literal> {
    (0..c.lit_count()).map(|i| *c.index(i)).collect()
}

fn var(index: i32) -> Variable {
    Variable::from_index(index).unwrap()
}

#[test]
fn distinct_literals_keeps_the_first_of_each() {
    let c = clause(0, &[3, -1, 3, 2, -1, 1]);
    assert_eq!(distinct_literals(&c), vec![lit(3), lit(-1), lit(2), lit(1)]);
    assert_eq!(distinct_literals(&clause(0, &[])), vec![]);
    assert_eq!(distinct_literals(&clause(0, &[5, 5, 5])), vec![lit(5)]);
}

#[test]
fn repeated_literals_are_struck_where_they_do_not_stand_first() {
    let mut clauses = vec![
        clause(10, &[1, 2]),
        clause(11, &[2, 2]),
        clause(12, &[-1, 2, -1, 3, 2]),
        clause(13, &[]),
    ];
    remove_repeated_literals(&mut clauses);
    assert_eq!(clauses.len(), 4);
    assert_eq!(literals(&clauses[0]), vec![lit(1), lit(2)]);
    assert_eq!(literals(&clauses[1]), vec![lit(2)]);
    assert_eq!(literals(&clauses[2]), vec![lit(-1), lit(2), lit(3)]);
    assert_eq!(literals(&clauses[3]), vec![]);
    assert_eq!(clauses[1].lit_count(), 1);
    assert_eq!(clauses[2].lit_count(), 3);
    for k in 0..4 {
        assert_eq!(clauses[k].identifier(), ClauseId(10 + k as i64));
        assert_eq!(clauses[k].activity(), 3);
    }
}

#[test]
fn preprocess_keeps_the_clauses_of_two_literals_or_more() {
    let mut clauses = vec![
        clause(10, &[1, 2]),
        clause(11, &[3]),
        clause(12, &[-1, 2, -1]),
        clause(13, &[2, 2]),
        clause(14, &[1, -2, 3]),
    ];
    let found = preprocess(&mut clauses, &var(3));
    assert_eq!(clauses.len(), 4);
    assert_eq!(literals(&clauses[0]), vec![lit(1), lit(2)]);
    assert_eq!(literals(&clauses[1]), vec![lit(-1), lit(2), lit(-1)]);
    assert_eq!(literals(&clauses[2]), vec![lit(2), lit(2)]);
    assert_eq!(literals(&clauses[3]), vec![lit(1), lit(-2), lit(3)]);
    assert_eq!(clauses[1].lit_count(), 3);
    assert_eq!(clauses[1].identifier(), ClauseId(12));
    assert_eq!(clauses[2].identifier(), ClauseId(13));
    assert_eq!(clauses[1].activity(), 3);
    assert!(!found.empty_clause);
    assert_eq!(found.conflict_vars, vec![]);
    assert_eq!(*found.initial_assignment.index(var(2)), Value::lifted_true());
    assert_eq!(*found.initial_assignment.index(var(1)), Value::unassigned());
}

#[test]
fn preprocess_leaves_a_clause_of_one_literal_twice_as_it_is() {
    let mut clauses = vec![clause(0, &[1, 1])];
    let found = preprocess(&mut clauses, &var(1));
    assert_eq!(clauses.len(), 1);
    assert_eq!(literals(&clauses[0]), vec![lit(1), lit(1)]);
    assert_eq!(*found.initial_assignment.index(var(0)), Value::unassigned());
    assert_eq!(found.conflict_vars, vec![]);
    let mut clauses = vec![clause(0, &[1, 1]), clause(1, &[-1])];
    let found = preprocess(&mut clauses, &var(1));
    assert_eq!(clauses.len(), 1);
    assert_eq!(found.conflict_vars, vec![]);
    assert_eq!(*found.initial_assignment.index(var(0)), Value::lifted_false());
}

#[test]
fn preprocess_records_what_the_unit_clauses_demand() {
    let mut clauses = vec![clause(0, &[2]), clause(1, &[-3]), clause(2, &[1, 4]), clause(3, &[2])];
    let found = preprocess(&mut clauses, &var(4));
    assert_eq!(found.initial_assignment.len(), 5);
    assert_eq!(*found.initial_assignment.index(var(0)), Value::unassigned());
    assert_eq!(*found.initial_assignment.index(var(1)), Value::lifted_true());
    assert_eq!(*found.initial_assignment.index(var(2)), Value::lifted_false());
    assert_eq!(*found.initial_assignment.index(var(3)), Value::unassigned());
    assert_eq!(found.conflict_vars, vec![]);
    assert!(!found.empty_clause);
    assert_eq!(clauses.len(), 1);
}

#[test]
fn preprocess_reports_unit_clauses_that_contradict_each_other() {
    let mut clauses =
        vec![clause(0, &[2]), clause(1, &[-2]), clause(2, &[-1]), clause(3, &[1]), clause(4, &[-2])];
    let found = preprocess(&mut clauses, &var(2));
    assert_eq!(found.conflict_vars, vec![var(1), var(0), var(1)]);
    assert_eq!(*found.initial_assignment.index(var(1)), Value::lifted_true());
    assert_eq!(*found.initial_assignment.index(var(0)), Value::lifted_false());
    assert_eq!(clauses.len(), 0);
}

#[test]
fn preprocess_reports_an_empty_clause() {
    let mut clauses = vec![clause(0, &[1, 2]), clause(1, &[])];
    let found = preprocess(&mut clauses, &var(2));
    assert!(found.empty_clause);
    assert_eq!(clauses.len(), 1);
}

#[test]
fn intern_clauses_numbers_the_clauses_by_position() {
    let store = intern_clauses(vec![clause(7, &[1, 2]), clause(7, &[-1, 3]), clause(0, &[2, 3])]);
    assert_eq!(store.len(), 3);
    for k in 0..3 {
        assert_eq!(store.index(ClauseId(k)).identifier(), ClauseId(k));
        assert_eq!(store.index(ClauseId(k)).activity(), 3);
    }
    assert_eq!(literals(store.index(ClauseId(1))), vec![lit(-1), lit(3)]);
}

#[test]
fn the_first_variable_met_has_the_lowest_priority() {
    let clauses = vec![clause(0, &[3, -1]), clause(1, &[-3, 2, 1]), clause(2, &[5, 2])];
    let mut order = initial_variable_order(&clauses);
    assert_eq!(order.len(), 4);
    assert_eq!(order.pop(), Some((4, 3)));
    assert_eq!(order.pop(), Some((1, 2)));
    assert_eq!(order.pop(), Some((0, 1)));
    assert_eq!(order.pop(), Some((2, 0)));
    assert_eq!(order.pop(), None);
}

#[test]
fn the_variable_order_of_no_clauses_is_empty() {
    let mut order = initial_variable_order(&vec![]);
    assert_eq!(order.pop(), None);
}

#[test]
fn the_watch_index_has_room_for_every_literal() {
    let store = intern_clauses(vec![clause(0, &[1, 2]), clause(0, &[-1, 2, 3])]);
    let mut index: TaggedVec<Literal, BTreeSet<i64>> = TaggedVec::new();
    initialize_watchlist(&var(3), &store, &mut index);
    assert_eq!(index.len(), 8);
    assert_eq!(index.index(lit(1)).iter().copied().collect::<Vec<i64>>(), vec![0]);
    assert_eq!(index.index(lit(2)).iter().copied().collect::<Vec<i64>>(), vec![0, 1]);
    assert_eq!(index.index(lit(-1)).iter().copied().collect::<Vec<i64>>(), vec![1]);
    assert!(index.index(lit(3)).is_empty());
    assert!(index.index(lit(-2)).is_empty());
    assert!(index.index(lit(-3)).is_empty());
}

#[test]
fn the_watch_index_keeps_what_it_held() {
    let store = intern_clauses(vec![clause(0, &[1, 2])]);
    let mut index: TaggedVec<Literal, BTreeSet<i64>> = TaggedVec::new();
    let mut held = BTreeSet::new();
    held.insert(9);
    index.push(held);
    initialize_watchlist(&var(1), &store, &mut index);
    assert_eq!(index.len(), 4);
    assert_eq!(index.index(lit(1)).iter().copied().collect::<Vec<i64>>(), vec![0, 9]);
    assert_eq!(index.index(lit(2)).iter().copied().collect::<Vec<i64>>(), vec![0]);
}
