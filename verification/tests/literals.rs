use satirlib::literal::{
    is_negated, is_unassigned, lit_val, negate_literal, next_variable, previous_variable,
    to_negative_literal, to_positive_literal, variable, Literal, Value, Variable, MAX_VARIABLES,
};
use satirlib::tagged::TaggedIndexable;

fn var(index: i32) -> Variable {
    Variable::from_index(index).unwrap()
}

#[test]
fn it_works() {
}

#[test]
fn first_variable_has_index_zero() {
    assert_eq!(Variable::first_variable().as_index(), 0);
    assert_eq!(Variable::first_variable(), var(0));
}

#[test]
fn from_index_accepts_only_indices_in_range() {
    assert!(Variable::from_index(0).is_some());
    assert!(Variable::from_index(MAX_VARIABLES - 1).is_some());
    assert!(Variable::from_index(MAX_VARIABLES).is_none());
    assert!(Variable::from_index(-1).is_none());
    assert_eq!(var(17).number(), 17);
}

#[test]
fn next_and_previous_variable() {
    assert_eq!(var(4).next_variable(), var(5));
    assert_eq!(next_variable(var(0)), var(1));
    assert_eq!(var(5).previous_variable(), Some(var(4)));
    assert_eq!(previous_variable(var(1)), Some(var(0)));
    assert_eq!(previous_variable(var(0)), None);
}

#[test]
fn positive_literal_is_twice_the_index() {
    assert_eq!(var(0).to_positive_literal().as_index(), 0);
    assert_eq!(var(7).to_positive_literal().as_index(), 14);
    assert_eq!(to_positive_literal(var(3)).as_index(), 6);
    assert_eq!(var(MAX_VARIABLES - 1).to_positive_literal().as_index(), 2147483646);
}

#[test]
fn negative_literal_is_twice_the_index_plus_one() {
    assert_eq!(var(0).to_negative_literal().as_index(), 1);
    assert_eq!(var(7).to_negative_literal().as_index(), 15);
    assert_eq!(to_negative_literal(var(3)).as_index(), 7);
    assert_eq!(var(MAX_VARIABLES - 1).to_negative_literal().as_index(), 2147483647);
}

#[test]
fn negate_flips_the_polarity_bit() {
    let p = var(9).to_positive_literal();
    let n = var(9).to_negative_literal();
    assert_eq!(p.negate(), n);
    assert_eq!(n.negate(), p);
    assert_eq!(negate_literal(p), n);
    assert_eq!(p.negate().negate(), p);
}

#[test]
fn variable_of_a_literal() {
    assert_eq!(var(12).to_positive_literal().variable(), var(12));
    assert_eq!(var(12).to_negative_literal().variable(), var(12));
    assert_eq!(variable(var(0).to_negative_literal()), var(0));
}

#[test]
fn negated_literals_are_the_odd_ones() {
    assert!(!var(3).to_positive_literal().is_negated());
    assert!(var(3).to_negative_literal().is_negated());
    assert!(is_negated(var(0).to_negative_literal()));
    assert!(!is_negated(var(0).to_positive_literal()));
}

#[test]
fn value_of_a_literal_under_a_value() {
    let p = var(2).to_positive_literal();
    let n = var(2).to_negative_literal();
    assert_eq!(p.under_value(Value::lifted_true()), Value::lifted_true());
    assert_eq!(p.under_value(Value::lifted_false()), Value::lifted_false());
    assert_eq!(n.under_value(Value::lifted_true()), Value::lifted_false());
    assert_eq!(n.under_value(Value::lifted_false()), Value::lifted_true());
    assert_eq!(p.under_value(Value::unassigned()), Value::unassigned());
    assert_eq!(n.under_value(Value::unassigned()), Value::unassigned());
    assert_eq!(lit_val(n, Value::unassigned()), Value::unassigned());
    assert_eq!(lit_val(n, Value::lifted_true()), Value::lifted_false());
}

#[test]
fn the_negative_literal_of_the_first_variable_keeps_unassigned() {
    let l = Variable::first_variable().to_negative_literal();
    assert_eq!(l.under_value(Value::unassigned()), Value::unassigned());
    assert!(l.under_value(Value::unassigned()).is_unassigned());
}

#[test]
fn satisfying_value_of_a_literal() {
    assert_eq!(var(5).to_positive_literal().satisfy(), Value::lifted_true());
    assert_eq!(var(5).to_negative_literal().satisfy(), Value::lifted_false());
}

#[test]
fn a_literal_is_true_under_its_satisfying_value() {
    for index in 0..20 {
        let lits: [Literal; 2] = [var(index).to_positive_literal(), var(index).to_negative_literal()];
        for lit in lits {
            assert_eq!(lit.under_value(lit.satisfy()), Value::lifted_true());
            assert_eq!(lit.negate().under_value(lit.satisfy()), Value::lifted_false());
        }
    }
}

#[test]
fn only_the_unassigned_value_is_unassigned() {
    assert!(Value::unassigned().is_unassigned());
    assert!(!Value::lifted_true().is_unassigned());
    assert!(!Value::lifted_false().is_unassigned());
    assert!(is_unassigned(Value::unassigned()));
    assert!(!is_unassigned(Value::lifted_false()));
}
