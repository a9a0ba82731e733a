use satirlib::clause::{Clause, ClauseHeader, ClauseId, PropagateResult, PropagationResult};
use satirlib::dpll::{
    enqueue, increment_decision_level, next_decision, propagate, propagate_clause,
    propagate_literal,
    propagate_units, search, search_step, undo_last_decision, unwatch_literal, watch_literal, Env,
};
use satirlib::literal::{Literal, Result, Value, Variable};
use satirlib::state::{empty_statistics, Statistics};

fn lit(number: i32) -> Literal {
    let v = Variable::from_index(number.abs() - 1).unwrap();
    if number < 0 {
        v.to_negative_literal()
    } else {
        v.to_positive_literal()
    }
}

fn clause(id: i64, numbers: &[i32]) -> Clause {
    let lits: Vec<Literal> = numbers.iter().map(|n| lit(*n)).collect();
    Clause::new(ClauseHeader { id: ClauseId(id), lit_count: lits.len(), activity: 0 }, lits)
}

fn engine(clauses: &[&[i32]], variables: i32) -> Env {
    let list: Vec<Clause> = clauses.iter().map(|c| clause(0, c)).collect();
    Env::new(list, Variable::from_index(variables).unwrap())
}

fn literals_of(env: &Env, id: i64) -> Vec<Literal> {
    let c = env.clause(ClauseId(id));
    (0..c.lit_count()).map(|i| *c.index(i)).collect()
}

fn all_literals(variables: i32) -> Vec<Literal> {
    let mut all = Vec::new();
    for n in 1..=variables {
        all.push(lit(n));
        all.push(lit(-n));
    }
    all
}

/// Each clause is among the watchers of its first two literals and of no
/// other literal.
fn watches_are_well_formed(env: &Env, variables: i32) -> bool {
    for id in 0..env.clause_count() as i64 {
        let c = literals_of(env, id);
        for l in all_literals(variables) {
            let watching = env.solver_state().watchers(l).contains(&ClauseId(id));
            let watched = l == c[0] || l == c[1];
            if watching != watched {
                return false;
            }
        }
    }
    true
}

/// A variable has a value if and only if the trail holds a literal of it, and
/// that literal is true.
fn trail_is_consistent(env: &Env, variables: i32) -> bool {
    let trail = env.solver_state().trail();
    for n in 1..=variables {
        let assigned = !env.solver_state().value_of(lit(n)).is_unassigned();
        let on_trail = trail.iter().any(|l| l.variable() == lit(n).variable());
        if assigned != on_trail {
            return false;
        }
    }
    trail.iter().all(|l| env.solver_state().value_of(*l) == Value::lifted_true())
}

fn some_clause_is_false(env: &Env) -> bool {
    (0..env.clause_count() as i64).any(|id| {
        literals_of(env, id)
            .iter()
            .all(|l| env.solver_state().value_of(*l) == Value::lifted_false())
    })
}

fn every_clause_is_true(env: &Env) -> bool {
    (0..env.clause_count() as i64).all(|id| {
        literals_of(env, id)
            .iter()
            .any(|l| env.solver_state().value_of(*l) == Value::lifted_true())
    })
}

fn decide(env: &mut Env, l: Literal) -> PropagateResult {
    increment_decision_level(env.solver_state_mut());
    enqueue(env.solver_state_mut(), l)
}

#[test]
fn a_new_engine_has_asserted_nothing() {
    let env = engine(&[&[1, 2], &[-1, 3, 2]], 3);
    assert_eq!(env.clause_count(), 2);
    assert_eq!(env.solver_state().variable_count(), 4);
    assert_eq!(env.solver_state().trail(), vec![]);
    assert_eq!(env.solver_state().decision_level(), 0);
    assert_eq!(env.solver_state().pending(), 0);
    assert_eq!(env.solver_state().statistics(), empty_statistics());
    for l in all_literals(3) {
        assert!(env.solver_state().value_of(l).is_unassigned());
    }
}

#[test]
fn a_new_engine_numbers_the_clauses_by_position() {
    let env = engine(&[&[1, 2], &[-1, 3, 2], &[2, 3]], 3);
    for id in 0..3 {
        assert_eq!(env.clause(ClauseId(id)).identifier(), ClauseId(id));
    }
    assert_eq!(literals_of(&env, 1), vec![lit(-1), lit(3), lit(2)]);
}

#[test]
fn a_new_engine_watches_the_first_two_literals() {
    let env = engine(&[&[1, 2], &[-1, 3, 2], &[2, 3]], 3);
    assert_eq!(env.solver_state().watchers(lit(1)), vec![ClauseId(0)]);
    assert_eq!(env.solver_state().watchers(lit(2)), vec![ClauseId(0), ClauseId(2)]);
    assert_eq!(env.solver_state().watchers(lit(-1)), vec![ClauseId(1)]);
    assert_eq!(env.solver_state().watchers(lit(3)), vec![ClauseId(1), ClauseId(2)]);
    assert_eq!(env.solver_state().watchers(lit(-2)), vec![]);
    assert_eq!(env.solver_state().watchers(lit(-3)), vec![]);
    assert!(watches_are_well_formed(&env, 3));
}

#[test]
fn enqueue_asserts_an_unassigned_literal() {
    let mut env = engine(&[&[1, 2]], 2);
    let result = enqueue(env.solver_state_mut(), lit(-2));
    assert_eq!(result, PropagateResult::NoConflict);
    assert_eq!(env.solver_state().value_of(lit(-2)), Value::lifted_true());
    assert_eq!(env.solver_state().value_of(lit(2)), Value::lifted_false());
    assert_eq!(env.solver_state().literal_value(lit(2)), Value::lifted_false());
    assert_eq!(env.solver_state().trail(), vec![lit(-2)]);
    assert_eq!(env.solver_state().pending(), 1);
}

#[test]
fn enqueue_of_a_true_literal_changes_nothing() {
    let mut env = engine(&[&[1, 2]], 2);
    let _ = enqueue(env.solver_state_mut(), lit(1));
    let result = enqueue(env.solver_state_mut(), lit(1));
    assert_eq!(result, PropagateResult::NoConflict);
    assert_eq!(env.solver_state().value_of(lit(1)), Value::lifted_true());
    assert_eq!(env.solver_state().trail(), vec![lit(1)]);
    assert_eq!(env.solver_state().pending(), 1);
}

#[test]
fn enqueue_of_a_false_literal_is_a_conflict_and_changes_nothing() {
    let mut env = engine(&[&[1, 2]], 2);
    let _ = enqueue(env.solver_state_mut(), lit(1));
    let result = enqueue(env.solver_state_mut(), lit(-1));
    assert_eq!(result, PropagateResult::Conflict);
    assert_eq!(env.solver_state().value_of(lit(1)), Value::lifted_true());
    assert_eq!(env.solver_state().trail(), vec![lit(1)]);
    assert_eq!(env.solver_state().pending(), 1);
}

#[test]
fn propagation_follows_a_chain_of_units() {
    let mut env = engine(&[&[-1, 2], &[-2, 3], &[-3, 4]], 4);
    let _ = enqueue(env.solver_state_mut(), lit(1));
    assert_eq!(propagate_units(&mut env), PropagateResult::NoConflict);
    assert_eq!(env.solver_state().trail(), vec![lit(1), lit(2), lit(3), lit(4)]);
    assert_eq!(env.solver_state().pending(), 0);
    assert_eq!(
        env.solver_state().statistics(),
        Statistics { conflicts: 0, decisions: 0, propagations: 3 }
    );
    assert!(watches_are_well_formed(&env, 4));
    assert!(trail_is_consistent(&env, 4));
    assert!(!some_clause_is_false(&env));
}

#[test]
fn propagation_is_breadth_first() {
    let mut env = engine(&[&[-1, 2], &[-1, 3], &[-2, 4], &[-3, 5]], 5);
    let _ = enqueue(env.solver_state_mut(), lit(1));
    assert_eq!(propagate_units(&mut env), PropagateResult::NoConflict);
    assert_eq!(env.solver_state().trail(), vec![lit(1), lit(2), lit(3), lit(4), lit(5)]);
}

#[test]
fn propagation_visits_the_watchers_in_ascending_order_of_their_identifiers() {
    let mut env = engine(&[&[-1, 3], &[-1, 2], &[-1, 4]], 4);
    let _ = enqueue(env.solver_state_mut(), lit(1));
    assert_eq!(propagate_literal(&mut env, lit(1)), PropagateResult::NoConflict);
    assert_eq!(env.solver_state().trail(), vec![lit(1), lit(3), lit(2), lit(4)]);
    assert_eq!(
        env.solver_state().watchers(lit(-1)),
        vec![ClauseId(0), ClauseId(1), ClauseId(2)]
    );
}

#[test]
fn propagation_stops_at_the_first_clause_found_false() {
    let mut env = engine(&[&[-1, 2], &[-1, -2], &[-1, 3]], 3);
    let _ = enqueue(env.solver_state_mut(), lit(1));
    assert_eq!(propagate_units(&mut env), PropagateResult::Conflict);
    assert_eq!(env.solver_state().trail(), vec![lit(1), lit(2)]);
    assert!(env.solver_state().value_of(lit(3)).is_unassigned());
    assert_eq!(
        env.solver_state().statistics(),
        Statistics { conflicts: 1, decisions: 0, propagations: 1 }
    );
    assert_eq!(literals_of(&env, 1), vec![lit(-2), lit(-1)]);
    assert_eq!(literals_of(&env, 2), vec![lit(-1), lit(3)]);
}

#[test]
fn propagation_finds_a_conflict() {
    let mut env = engine(&[&[-1, 2], &[-1, -2]], 2);
    let _ = enqueue(env.solver_state_mut(), lit(1));
    assert_eq!(propagate_units(&mut env), PropagateResult::Conflict);
    assert_eq!(env.solver_state().pending(), 0);
    assert_eq!(env.solver_state().statistics().conflicts, 1);
    assert!(some_clause_is_false(&env));
    assert!(watches_are_well_formed(&env, 2));
    assert!(trail_is_consistent(&env, 2));
}

#[test]
fn propagation_keeps_the_watches_of_the_clauses_not_visited_after_a_conflict() {
    let mut env = engine(&[&[-1, 2], &[-1, -2], &[-1, 3], &[4, -1, 3]], 4);
    let _ = enqueue(env.solver_state_mut(), lit(1));
    assert_eq!(propagate_units(&mut env), PropagateResult::Conflict);
    assert_eq!(
        env.solver_state().watchers(lit(-1)),
        vec![ClauseId(0), ClauseId(1), ClauseId(2), ClauseId(3)]
    );
    assert!(env.solver_state().value_of(lit(3)).is_unassigned());
    assert!(watches_are_well_formed(&env, 4));
}

#[test]
fn propagation_without_pending_literals_does_nothing() {
    let mut env = engine(&[&[1, 2]], 2);
    assert_eq!(propagate_units(&mut env), PropagateResult::NoConflict);
    assert_eq!(env.solver_state().trail(), vec![]);
    assert_eq!(env.solver_state().statistics(), empty_statistics());
}

#[test]
fn a_falsified_watch_moves_to_a_literal_that_is_not_false() {
    let mut env = engine(&[&[1, 2, 3]], 3);
    let _ = enqueue(env.solver_state_mut(), lit(-1));
    assert_eq!(propagate_units(&mut env), PropagateResult::NoConflict);
    assert_eq!(literals_of(&env, 0), vec![lit(2), lit(3), lit(1)]);
    assert_eq!(env.solver_state().watchers(lit(1)), vec![]);
    assert_eq!(env.solver_state().watchers(lit(2)), vec![ClauseId(0)]);
    assert_eq!(env.solver_state().watchers(lit(3)), vec![ClauseId(0)]);
    assert_eq!(env.solver_state().trail(), vec![lit(-1)]);
}

#[test]
fn a_falsified_watch_skips_false_literals() {
    let mut env = engine(&[&[1, 2, 3, 4]], 4);
    let _ = enqueue(env.solver_state_mut(), lit(-3));
    let _ = enqueue(env.solver_state_mut(), lit(-2));
    assert_eq!(propagate_units(&mut env), PropagateResult::NoConflict);
    assert_eq!(literals_of(&env, 0), vec![lit(1), lit(4), lit(3), lit(2)]);
    assert!(watches_are_well_formed(&env, 4));
}

#[test]
fn a_watch_stays_where_the_other_watch_is_true() {
    let mut env = engine(&[&[1, 2, 3]], 3);
    let _ = enqueue(env.solver_state_mut(), lit(2));
    let _ = enqueue(env.solver_state_mut(), lit(-1));
    assert_eq!(propagate_units(&mut env), PropagateResult::NoConflict);
    assert_eq!(literals_of(&env, 0), vec![lit(2), lit(1), lit(3)]);
    assert_eq!(env.solver_state().watchers(lit(1)), vec![ClauseId(0)]);
    assert_eq!(env.solver_state().watchers(lit(2)), vec![ClauseId(0)]);
    assert_eq!(env.solver_state().watchers(lit(3)), vec![]);
}

#[test]
fn propagate_clause_asserts_the_last_literal_that_is_not_false() {
    let mut env = engine(&[&[1, 2]], 3);
    let mut c = clause(7, &[1, 2, 3]);
    let _ = enqueue(env.solver_state_mut(), lit(-3));
    let _ = enqueue(env.solver_state_mut(), lit(-2));
    let result = propagate_clause(env.solver_state_mut(), &mut c, lit(-2));
    assert_eq!(result, PropagateResult::NoConflict);
    assert_eq!(*c.index(0), lit(1));
    assert_eq!(*c.index(1), lit(2));
    assert_eq!(env.solver_state().value_of(lit(1)), Value::lifted_true());
    assert_eq!(env.solver_state().watchers(lit(2)), vec![ClauseId(0), ClauseId(7)]);
    assert_eq!(env.solver_state().statistics().propagations, 1);
}

#[test]
fn propagate_clause_reports_a_false_clause() {
    let mut env = engine(&[&[1, 2]], 3);
    let mut c = clause(7, &[3, 1]);
    let _ = enqueue(env.solver_state_mut(), lit(-1));
    let _ = enqueue(env.solver_state_mut(), lit(-3));
    let result = propagate_clause(env.solver_state_mut(), &mut c, lit(-3));
    assert_eq!(result, PropagateResult::Conflict);
    assert_eq!(*c.index(0), lit(1));
    assert_eq!(*c.index(1), lit(3));
    assert_eq!(env.solver_state().watchers(lit(3)), vec![ClauseId(7)]);
    assert_eq!(env.solver_state().trail(), vec![lit(-1), lit(-3)]);
}

#[test]
fn propagate_literal_visits_the_watchers_of_the_negation() {
    let mut env = engine(&[&[-1, 2], &[1, 3], &[-1, 3, 2]], 3);
    let _ = enqueue(env.solver_state_mut(), lit(1));
    assert_eq!(propagate_literal(&mut env, lit(1)), PropagateResult::NoConflict);
    assert_eq!(env.solver_state().trail(), vec![lit(1), lit(2)]);
    assert_eq!(literals_of(&env, 0), vec![lit(2), lit(-1)]);
    assert_eq!(literals_of(&env, 1), vec![lit(1), lit(3)]);
    assert_eq!(literals_of(&env, 2), vec![lit(3), lit(2), lit(-1)]);
    assert!(watches_are_well_formed(&env, 3));
}

#[test]
fn watch_and_unwatch_change_one_set_of_watchers() {
    let mut env = engine(&[&[1, 2]], 2);
    watch_literal(env.solver_state_mut(), ClauseId(5), lit(-1));
    assert_eq!(env.solver_state().watchers(lit(-1)), vec![ClauseId(5)]);
    assert_eq!(env.solver_state().watchers(lit(1)), vec![ClauseId(0)]);
    watch_literal(env.solver_state_mut(), ClauseId(5), lit(-1));
    assert_eq!(env.solver_state().watchers(lit(-1)), vec![ClauseId(5)]);
    unwatch_literal(env.solver_state_mut(), ClauseId(5), lit(-1));
    assert_eq!(env.solver_state().watchers(lit(-1)), vec![]);
    assert_eq!(env.solver_state().watchers(lit(2)), vec![ClauseId(0)]);
}

#[test]
fn a_decision_opens_a_level() {
    let mut env = engine(&[&[1, 2]], 2);
    assert_eq!(env.solver_state().decision_level(), 0);
    let _ = decide(&mut env, lit(1));
    assert_eq!(env.solver_state().decision_level(), 1);
    let _ = decide(&mut env, lit(2));
    assert_eq!(env.solver_state().decision_level(), 2);
}

#[test]
fn undo_takes_back_the_last_level() {
    let mut env = engine(&[&[-1, 2], &[-3, 4]], 4);
    let _ = decide(&mut env, lit(1));
    let _ = propagate_units(&mut env);
    let _ = decide(&mut env, lit(3));
    let _ = propagate_units(&mut env);
    assert_eq!(env.solver_state().trail(), vec![lit(1), lit(2), lit(3), lit(4)]);
    undo_last_decision(&mut env);
    assert_eq!(env.solver_state().trail(), vec![lit(1), lit(2)]);
    assert_eq!(env.solver_state().decision_level(), 1);
    assert!(env.solver_state().value_of(lit(3)).is_unassigned());
    assert!(env.solver_state().value_of(lit(4)).is_unassigned());
    assert_eq!(env.solver_state().value_of(lit(2)), Value::lifted_true());
    assert!(trail_is_consistent(&env, 4));
}

#[test]
fn undo_empties_the_queue() {
    let mut env = engine(&[&[1, 2]], 2);
    let _ = decide(&mut env, lit(1));
    assert_eq!(env.solver_state().pending(), 1);
    undo_last_decision(&mut env);
    assert_eq!(env.solver_state().pending(), 0);
    assert_eq!(env.solver_state().trail(), vec![]);
}

#[test]
fn undo_on_an_empty_trail_does_nothing() {
    let mut env = engine(&[&[1, 2]], 2);
    undo_last_decision(&mut env);
    assert_eq!(env.solver_state().trail(), vec![]);
    assert_eq!(env.solver_state().decision_level(), 0);
    assert!(watches_are_well_formed(&env, 2));
}

#[test]
fn undo_on_an_empty_trail_leaves_an_open_level_open() {
    let mut env = engine(&[&[1, 2]], 2);
    increment_decision_level(env.solver_state_mut());
    assert_eq!(env.solver_state().decision_level(), 1);
    undo_last_decision(&mut env);
    assert_eq!(env.solver_state().decision_level(), 1);
    assert_eq!(env.solver_state().trail(), vec![]);
    let _ = enqueue(env.solver_state_mut(), lit(1));
    undo_last_decision(&mut env);
    assert_eq!(env.solver_state().decision_level(), 0);
    assert_eq!(env.solver_state().trail(), vec![]);
    assert!(env.solver_state().value_of(lit(1)).is_unassigned());
}

#[test]
fn undo_at_the_root_level_takes_back_everything() {
    let mut env = engine(&[&[-1, 2]], 2);
    let _ = enqueue(env.solver_state_mut(), lit(1));
    let _ = propagate_units(&mut env);
    undo_last_decision(&mut env);
    assert_eq!(env.solver_state().trail(), vec![]);
    assert!(env.solver_state().value_of(lit(1)).is_unassigned());
    assert!(env.solver_state().value_of(lit(2)).is_unassigned());
}

#[test]
fn backtracking_to_the_root_restores_the_first_state() {
    let clauses: [&[i32]; 4] = [&[-1, 2, 5], &[-2, 3], &[-4, 5, 1], &[1, 4, 3]];
    let mut env = engine(&clauses, 5);
    let watchers_before: Vec<usize> =
        all_literals(5).iter().map(|l| env.solver_state().watchers(*l).len()).collect();
    assert_eq!(watchers_before.iter().sum::<usize>(), 8);
    let _ = decide(&mut env, lit(-5));
    let _ = propagate_units(&mut env);
    let _ = decide(&mut env, lit(1));
    let _ = propagate_units(&mut env);
    let _ = decide(&mut env, lit(4));
    let _ = propagate_units(&mut env);
    assert_eq!(env.solver_state().decision_level(), 3);
    let watchers_after: Vec<Vec<ClauseId>> =
        all_literals(5).iter().map(|l| env.solver_state().watchers(*l)).collect();
    undo_last_decision(&mut env);
    undo_last_decision(&mut env);
    undo_last_decision(&mut env);
    assert_eq!(env.solver_state().decision_level(), 0);
    assert_eq!(env.solver_state().trail(), vec![]);
    for l in all_literals(5) {
        assert!(env.solver_state().value_of(l).is_unassigned());
    }
    let watchers_now: Vec<Vec<ClauseId>> =
        all_literals(5).iter().map(|l| env.solver_state().watchers(*l)).collect();
    assert_eq!(watchers_now, watchers_after);
    assert_eq!(watchers_now.iter().map(|w| w.len()).sum::<usize>(), 8);
    assert!(watches_are_well_formed(&env, 5));
}

#[test]
fn the_next_decision_is_the_variable_of_greatest_priority() {
    let mut env = engine(&[&[1, 2], &[2, 3]], 3);
    assert_eq!(next_decision(&mut env), Some(lit(3)));
    assert_eq!(next_decision(&mut env), Some(lit(2)));
    assert_eq!(next_decision(&mut env), Some(lit(1)));
    assert_eq!(next_decision(&mut env), None);
}

#[test]
fn the_next_decision_skips_assigned_variables() {
    let mut env = engine(&[&[1, 2], &[2, 3]], 3);
    let _ = enqueue(env.solver_state_mut(), lit(-3));
    let _ = enqueue(env.solver_state_mut(), lit(2));
    assert_eq!(next_decision(&mut env), Some(lit(1)));
    assert_eq!(next_decision(&mut env), None);
}

#[test]
fn undone_variables_can_be_decided_again() {
    let mut env = engine(&[&[1, 2]], 2);
    assert_eq!(next_decision(&mut env), Some(lit(2)));
    let _ = decide(&mut env, lit(2));
    assert_eq!(next_decision(&mut env), Some(lit(1)));
    let _ = decide(&mut env, lit(1));
    assert_eq!(next_decision(&mut env), None);
    undo_last_decision(&mut env);
    assert_eq!(next_decision(&mut env), Some(lit(1)));
    assert_eq!(next_decision(&mut env), None);
}

#[test]
fn the_search_finds_an_assignment() {
    let clauses: [&[i32]; 3] = [&[1, 2], &[-1, 3], &[-2, -3]];
    let mut env = engine(&clauses, 3);
    assert_eq!(search(&mut env), Result::Sat);
    assert!(every_clause_is_true(&env));
    assert!(watches_are_well_formed(&env, 3));
    assert!(trail_is_consistent(&env, 3));
}

#[test]
fn the_search_finds_that_there_is_no_assignment() {
    let clauses: [&[i32]; 4] = [&[1, 2], &[1, -2], &[-1, 2], &[-1, -2]];
    let mut env = engine(&clauses, 2);
    assert_eq!(search(&mut env), Result::Unsat);
    assert_eq!(env.solver_state().decision_level(), 0);
    assert!(env.solver_state().statistics().conflicts >= 2);
    assert!(env.solver_state().statistics().decisions >= 1);
    assert!(watches_are_well_formed(&env, 2));
}

#[test]
fn the_search_keeps_what_was_asserted_before_it() {
    let clauses: [&[i32]; 2] = [&[1, 2], &[-1, -2]];
    let mut env = engine(&clauses, 2);
    let _ = enqueue(env.solver_state_mut(), lit(-2));
    assert_eq!(search(&mut env), Result::Sat);
    assert_eq!(env.solver_state().value_of(lit(2)), Value::lifted_false());
    assert_eq!(env.solver_state().value_of(lit(1)), Value::lifted_true());
}

#[test]
fn the_search_counts_its_decisions() {
    let clauses: [&[i32]; 1] = [&[1, 2]];
    let mut env = engine(&clauses, 2);
    assert_eq!(search(&mut env), Result::Sat);
    let statistics = env.solver_state().statistics();
    assert!(statistics.decisions >= 1 && statistics.decisions <= 2);
    assert_eq!(statistics.conflicts, 0);
}

#[test]
fn invariants_hold_through_a_run_of_decisions_and_backtracks() {
    let clauses: [&[i32]; 6] =
        [&[1, -2, 3], &[-1, 4], &[-4, 5, 2], &[-3, -5, 6], &[-6, 1, 2], &[2, 3, 4, 5]];
    let mut env = engine(&clauses, 6);
    let steps: [i32; 8] = [-2, 1, 0, 3, 0, 0, 6, -5];
    for step in steps {
        if step == 0 {
            undo_last_decision(&mut env);
        } else if env.solver_state().value_of(lit(step)).is_unassigned() {
            let _ = decide(&mut env, lit(step));
            let result = propagate_units(&mut env);
            assert_eq!(result == PropagateResult::Conflict, some_clause_is_false(&env));
        }
        assert!(watches_are_well_formed(&env, 6));
        assert!(trail_is_consistent(&env, 6));
    }
}

#[test]
fn propagate_tells_what_became_of_the_watch() {
    let mut env = engine(&[&[1, 2]], 4);
    let _ = enqueue(env.solver_state_mut(), lit(-1));
    let mut moved = clause(5, &[1, 2, 3]);
    assert_eq!(
        propagate(env.solver_state_mut(), &mut moved, lit(-1)),
        PropagationResult::NewWatch
    );
    assert_eq!(*moved.index(0), lit(2));
    assert_eq!(*moved.index(1), lit(3));
    assert_eq!(*moved.index(2), lit(1));
    let _ = enqueue(env.solver_state_mut(), lit(4));
    let mut kept = clause(6, &[4, 1, 3]);
    assert_eq!(
        propagate(env.solver_state_mut(), &mut kept, lit(-1)),
        PropagationResult::KeepWatch
    );
    assert_eq!(*kept.index(0), lit(4));
    assert_eq!(*kept.index(1), lit(1));
    let mut unit = clause(7, &[1, 2]);
    assert_eq!(
        propagate(env.solver_state_mut(), &mut unit, lit(-1)),
        PropagationResult::KeepWatch
    );
    assert_eq!(env.solver_state().value_of(lit(2)), Value::lifted_true());
    let mut falsified = clause(8, &[1, -4]);
    assert_eq!(
        propagate(env.solver_state_mut(), &mut falsified, lit(-1)),
        PropagationResult::Conflict
    );
    assert_eq!(*falsified.index(0), lit(-4));
    assert_eq!(*falsified.index(1), lit(1));
}

#[test]
fn the_search_goes_round_by_round() {
    let clauses: [&[i32]; 4] = [&[1, 2], &[1, -2], &[-1, 2], &[-1, -2]];
    let mut env = engine(&clauses, 2);
    let mut rounds = 0;
    let answer = loop {
        rounds += 1;
        assert!(rounds <= 9);
        if let Some(answer) = search_step(&mut env) {
            break answer;
        }
        assert!(watches_are_well_formed(&env, 2));
        assert!(trail_is_consistent(&env, 2));
    };
    assert_eq!(answer, Result::Unsat);
    assert!(rounds >= 3);
}

#[test]
fn a_round_of_the_search_decides_or_answers() {
    let clauses: [&[i32]; 1] = [&[1, 2]];
    let mut env = engine(&clauses, 2);
    assert_eq!(search_step(&mut env), None);
    assert_eq!(env.solver_state().decision_level(), 1);
    assert_eq!(env.solver_state().trail(), vec![lit(2)]);
    assert_eq!(search_step(&mut env), None);
    assert_eq!(env.solver_state().trail(), vec![lit(2), lit(1)]);
    assert_eq!(search_step(&mut env), Some(Result::Sat));
    assert!(every_clause_is_true(&env));
}
