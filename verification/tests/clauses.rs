use satirlib::clause::{Clause, ClauseHeader, ClauseId};
use satirlib::literal::{Literal, Variable};

fn lit(number: i32) -> Literal {
    let v = Variable::from_index(number.abs() - 1).unwrap();
    if number < 0 {
        v.to_negative_literal()
    } else {
        v.to_positive_literal()
    }
}

fn sample() -> Clause {
    Clause::new(
        ClauseHeader { id: ClauseId(4), lit_count: 3, activity: 6 },
        vec![lit(1), lit(-2), lit(3)],
    )
}

#[test]
fn a_new_clause_holds_its_header_and_literals() {
    let c = sample();
    assert_eq!(c.identifier(), ClauseId(4));
    assert_eq!(c.lit_count(), 3);
    assert_eq!(c.activity(), 6);
    assert_eq!(*c.index(0), lit(1));
    assert_eq!(*c.index(1), lit(-2));
    assert_eq!(*c.index(2), lit(3));
}

#[test]
fn identifier_mut_changes_the_identifier_only() {
    let mut c = sample();
    *c.identifier_mut() = ClauseId(9);
    assert_eq!(c.identifier(), ClauseId(9));
    assert_eq!(c.lit_count(), 3);
    assert_eq!(c.activity(), 6);
    assert_eq!(*c.index(0), lit(1));
    assert_eq!(*c.index(2), lit(3));
}

#[test]
fn index_mut_changes_one_literal_only() {
    let mut c = sample();
    *c.index_mut(1) = lit(5);
    assert_eq!(*c.index(0), lit(1));
    assert_eq!(*c.index(1), lit(5));
    assert_eq!(*c.index(2), lit(3));
    assert_eq!(c.identifier(), ClauseId(4));
}

#[test]
fn swap_literals_exchanges_two_positions() {
    let mut c = sample();
    c.swap_literals(0, 2);
    assert_eq!(*c.index(0), lit(3));
    assert_eq!(*c.index(1), lit(-2));
    assert_eq!(*c.index(2), lit(1));
    c.swap_literals(1, 1);
    assert_eq!(*c.index(1), lit(-2));
}

#[test]
fn a_clause_without_literals() {
    let c = Clause::new(ClauseHeader { id: ClauseId(0), lit_count: 0, activity: 0 }, vec![]);
    assert_eq!(c.lit_count(), 0);
}
