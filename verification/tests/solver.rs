use satirlib::clause::{Clause, ClauseHeader, ClauseId};
use satirlib::dimacs::ParseError;
use satirlib::dpll::{solve, solve_dimacs};
use satirlib::literal::{Literal, Result, Variable};

fn lit(number: i32) -> Literal {
    let v = Variable::from_index(number.abs() - 1).unwrap();
    if number < 0 {
        v.to_negative_literal()
    } else {
        v.to_positive_literal()
    }
}

fn clause(id: i64, numbers: &[i32]) -> Clause {
    let lits: Vec<Literal> = numbers.iter().map(|n| lit(*n)).collect();
    Clause::new(ClauseHeader { id: ClauseId(id), lit_count: lits.len(), activity: 0 }, lits)
}

fn answer(clauses: &[Vec<i32>], variables: i32) -> Result {
    let list: Vec<Clause> =
        clauses.iter().enumerate().map(|(k, c)| clause(k as i64, c)).collect();
    solve(list, Variable::from_index(variables).unwrap())
}

/// Whether some assignment of the variables makes every clause true, found by
/// trying them all.
fn satisfiable(clauses: &[Vec<i32>], variables: i32) -> bool {
    (0u32..(1u32 << variables)).any(|bits| {
        clauses.iter().all(|c| {
            c.iter().any(|n| {
                let value = bits >> (n.abs() - 1) & 1 == 1;
                value == (*n > 0)
            })
        })
    })
}

/// A sequence of numbers that looks random and is the same in every run.
struct Numbers(u64);

impl Numbers {
    fn next(&mut self, below: u64) -> u64 {
        self.0 = self.0.wrapping_mul(6364136223846793005).wrapping_add(1442695040888963407);
        (self.0 >> 33) % below
    }
}

fn random_problem(numbers: &mut Numbers) -> (Vec<Vec<i32>>, i32) {
    let variables = 1 + numbers.next(10) as i32;
    let count = numbers.next(5 * variables as u64 + 2);
    let mut clauses = Vec::new();
    for _ in 0..count {
        let len = if numbers.next(12) == 0 { numbers.next(2) } else { 1 + numbers.next(4) };
        let mut c = Vec::new();
        for _ in 0..len {
            let v = 1 + numbers.next(variables as u64) as i32;
            c.push(if numbers.next(2) == 0 { v } else { -v });
        }
        clauses.push(c);
    }
    (clauses, variables)
}

#[test]
fn one_unit_clause_is_satisfiable() {
    assert_eq!(solve_dimacs("p cnf 1 1 \n 1 0"), Ok(Result::Sat));
    assert_eq!(solve_dimacs("p cnf 1 1\n1 0\n"), Ok(Result::Sat));
}

#[test]
fn two_conflicting_unit_clauses_are_unsatisfiable() {
    assert_eq!(solve_dimacs("p cnf 1 2 \n 1 0 \n -1 0"), Ok(Result::Unsat));
}

#[test]
fn three_clauses_over_three_variables_are_satisfiable() {
    assert_eq!(solve_dimacs("p cnf 3 3 \n 1 2 0 \n -1 3 0 \n -2 -3 0"), Ok(Result::Sat));
}

#[test]
fn all_four_clauses_over_two_variables_are_unsatisfiable() {
    assert_eq!(
        solve_dimacs("p cnf 2 4 \n 1 2 0 \n 1 -2 0 \n -1 2 0 \n -1 -2 0"),
        Ok(Result::Unsat)
    );
}

#[test]
fn a_long_clause_and_two_exclusions_are_satisfiable() {
    assert_eq!(solve_dimacs("p cnf 4 3 \n 1 2 3 4 0 \n -1 -2 0 \n -3 -4 0"), Ok(Result::Sat));
}

#[test]
fn an_empty_clause_anywhere_is_unsatisfiable() {
    assert_eq!(solve_dimacs("p cnf 2 2\n0\n1 2 0\n"), Ok(Result::Unsat));
    assert_eq!(solve_dimacs("p cnf 2 2\n1 2 0\n0\n"), Ok(Result::Unsat));
    assert_eq!(solve_dimacs("p cnf 2 3\n1 2 0 0 -1 0\n"), Ok(Result::Unsat));
    assert_eq!(answer(&[vec![1, 2], vec![], vec![-1]], 2), Result::Unsat);
}

#[test]
fn a_problem_without_clauses_is_satisfiable() {
    assert_eq!(solve_dimacs("p cnf 0 0\n"), Ok(Result::Sat));
    assert_eq!(answer(&[], 0), Result::Sat);
    assert_eq!(answer(&[], 5), Result::Sat);
}

#[test]
fn a_clause_with_a_variable_and_its_negation_is_always_true() {
    assert_eq!(answer(&[vec![1, -1]], 1), Result::Sat);
    assert_eq!(answer(&[vec![1, -1], vec![-1]], 1), Result::Sat);
    assert_eq!(answer(&[vec![2, 1, -2], vec![-1], vec![-2]], 2), Result::Sat);
}

#[test]
fn unit_clauses_that_agree_are_consistent() {
    assert_eq!(answer(&[vec![1], vec![2], vec![3], vec![1]], 3), Result::Sat);
    assert_eq!(answer(&[vec![1], vec![2], vec![-1, -2, 3]], 3), Result::Sat);
}

#[test]
fn unit_clauses_are_propagated_before_the_search() {
    assert_eq!(answer(&[vec![1], vec![-1, 2], vec![-2, 3], vec![-3, -1]], 3), Result::Unsat);
    assert_eq!(answer(&[vec![-1], vec![1, 2], vec![1, -2]], 2), Result::Unsat);
}

#[test]
fn a_literal_twice_in_a_clause_counts_once() {
    assert_eq!(answer(&[vec![1, 1], vec![-1, -1]], 1), Result::Unsat);
    assert_eq!(answer(&[vec![-1, -1, 2], vec![1], vec![-2, -2]], 2), Result::Unsat);
    assert_eq!(answer(&[vec![-1, -1, 2], vec![1, 1, 1], vec![2, -1, 2]], 2), Result::Sat);
    assert_eq!(solve_dimacs("p cnf 2 3\n-1 -1 2 0\n1 0\n-2 -2 0\n"), Ok(Result::Unsat));
}

#[test]
fn the_pigeonhole_problem_is_unsatisfiable() {
    // Three pigeons, two holes: variable 2 * p + h + 1 puts pigeon p in hole h.
    let mut clauses: Vec<Vec<i32>> = Vec::new();
    for p in 0..3 {
        clauses.push(vec![2 * p + 1, 2 * p + 2]);
    }
    for h in 0..2 {
        for p in 0..3 {
            for q in (p + 1)..3 {
                clauses.push(vec![-(2 * p + h + 1), -(2 * q + h + 1)]);
            }
        }
    }
    assert!(!satisfiable(&clauses, 6));
    assert_eq!(answer(&clauses, 6), Result::Unsat);
}

#[test]
fn the_answer_is_that_of_trying_all_assignments() {
    let mut numbers = Numbers(2024);
    let mut sat = 0;
    let mut unsat = 0;
    for _ in 0..600 {
        let (clauses, variables) = random_problem(&mut numbers);
        let expected = satisfiable(&clauses, variables);
        let found = answer(&clauses, variables);
        assert_eq!(found == Result::Sat, expected, "{:?}", clauses);
        if expected {
            sat += 1;
        } else {
            unsat += 1;
        }
    }
    assert!(sat > 50);
    assert!(unsat > 50);
}

#[test]
fn a_file_that_cannot_be_read_is_not_solved() {
    assert_eq!(solve_dimacs("1 2 0"), Err(ParseError::MissingProblemLine));
    assert_eq!(solve_dimacs("p cnf 2 1\n1 2"), Err(ParseError::UnterminatedClause));
    assert_eq!(solve_dimacs("p cnf 2 1\n1 two 0"), Err(ParseError::BadToken));
    assert_eq!(solve_dimacs("p cnf 2 1\n1 4294967296 0"), Err(ParseError::NumberTooLarge));
}
