use satirlib::dimacs::{
    blank, clause, comment, dimacs, line_end, literal, number, parse_dimacs, parsed_lit_var,
    problem, to_core_lit, whitespace, CNFProblem, ParseError, ParsedDIMACS, ParsedLit, ParsedVar,
};
use satirlib::literal::Variable;
use satirlib::tagged::TaggedIndexable;

#[test]
fn test_program_decl() {
    let result = problem("p cnf 5 10".as_bytes(), 0).map(|t| t.0);
    let expected = CNFProblem {
        num_variables : 5,
        num_clauses : 10
    };

    assert_eq!(result, Ok(expected));
}

#[test]
fn test_program_decl_extra_ws() {
    let result = problem("p  cnf\t 5 10".as_bytes(), 0).map(|t| t.0);
    let expected = CNFProblem {
        num_variables : 5,
        num_clauses : 10
    };

    assert_eq!(result, Ok(expected));
}

#[test]
fn test_program_decl_extra_line_end() {
    let input = "p cnf 5 10\n".as_bytes();
    let result = problem(input, 0).and_then(|t| line_end(input, t.1).map(|_| t.0));
    let expected = CNFProblem {
        num_variables : 5,
        num_clauses : 10
    };

    assert_eq!(result, Ok(expected));
}

#[test]
fn test_clause() {
    let result = clause("1 -5 \t11   2 0".as_bytes(), 0).map(|t| t.0);
    let expected = vec![ParsedLit::PosLit(ParsedVar(1)),
                        ParsedLit::NegLit(ParsedVar(5)),
                        ParsedLit::PosLit(ParsedVar(11)),
                        ParsedLit::PosLit(ParsedVar(2))
    ];

    assert_eq!(result, Ok(expected));
}

#[test]
fn test_clause_leading_ws() {
    let result = clause("  1 -5 \t11   2 0".as_bytes(), 0).map(|t| t.0);
    let expected = vec![ParsedLit::PosLit(ParsedVar(1)),
                        ParsedLit::NegLit(ParsedVar(5)),
                        ParsedLit::PosLit(ParsedVar(11)),
                        ParsedLit::PosLit(ParsedVar(2))
    ];

    assert_eq!(result, Ok(expected));
}

#[test]
fn test_dimacs1() {
    let result = dimacs("c Header\n\
p cnf 5 2\n\
c commentary\n\
1 5 2 -1 0\n\
-5 3 0\n".as_bytes());
    let expected = ParsedDIMACS {
        cnf_problem : CNFProblem {
            num_variables : 5,
            num_clauses : 2
        },
        clauses : vec![
            vec![ParsedLit::PosLit(ParsedVar(1)),
                 ParsedLit::PosLit(ParsedVar(5)),
                 ParsedLit::PosLit(ParsedVar(2)),
                 ParsedLit::NegLit(ParsedVar(1))],
            vec![ParsedLit::NegLit(ParsedVar(5)),
                 ParsedLit::PosLit(ParsedVar(3))
            ]
        ]
    };

    assert_eq!(result, Ok(expected));
}

#[test]
fn test_dimacs_empty_comment() {
    let result = dimacs("c Header\n\
c\n\
p cnf 5 2\n\
c .commentary\n\
1 5 2     -1 0\n\
-5 3 0\n".as_bytes());
    let expected = ParsedDIMACS {
        cnf_problem : CNFProblem {
            num_variables : 5,
            num_clauses : 2
        },
        clauses : vec![
            vec![ParsedLit::PosLit(ParsedVar(1)),
                 ParsedLit::PosLit(ParsedVar(5)),
                 ParsedLit::PosLit(ParsedVar(2)),
                 ParsedLit::NegLit(ParsedVar(1))],
            vec![ParsedLit::NegLit(ParsedVar(5)),
                 ParsedLit::PosLit(ParsedVar(3))
            ]
        ]
    };

    assert_eq!(result, Ok(expected));
}

#[test]
fn test_dimacs_trailing_newline() {
    let result = dimacs("c Header\n\
p cnf 5 2\n\
c commentary\n\
1 5 2 -1 0\n\
-5 3 0\n\n\n".as_bytes());
    let expected = ParsedDIMACS {
        cnf_problem : CNFProblem {
            num_variables : 5,
            num_clauses : 2
        },
        clauses : vec![
            vec![ParsedLit::PosLit(ParsedVar(1)),
                 ParsedLit::PosLit(ParsedVar(5)),
                 ParsedLit::PosLit(ParsedVar(2)),
                 ParsedLit::NegLit(ParsedVar(1))],
            vec![ParsedLit::NegLit(ParsedVar(5)),
                 ParsedLit::PosLit(ParsedVar(3))
            ]
        ]
    };

    assert_eq!(result, Ok(expected));
}

#[test]
fn whitespace_stops_at_the_first_other_byte() {
    assert_eq!(whitespace(" \t\r\n x".as_bytes(), 0), 5);
    assert_eq!(whitespace("x  ".as_bytes(), 0), 0);
    assert_eq!(whitespace("x  ".as_bytes(), 1), 3);
    assert_eq!(whitespace("".as_bytes(), 0), 0);
}

#[test]
fn line_end_reads_both_forms() {
    assert_eq!(line_end("\nx".as_bytes(), 0), Ok(((), 1)));
    assert_eq!(line_end("\r\nx".as_bytes(), 0), Ok(((), 2)));
    assert_eq!(line_end("\rx".as_bytes(), 0), Err(ParseError::BadToken));
    assert_eq!(line_end("x".as_bytes(), 0), Err(ParseError::BadToken));
    assert_eq!(line_end("".as_bytes(), 0), Err(ParseError::BadToken));
}

#[test]
fn comment_runs_to_the_end_of_the_line() {
    assert_eq!(comment("c one\nc two".as_bytes(), 0), 6);
    assert_eq!(comment("c one\nc two".as_bytes(), 6), 11);
    assert_eq!(comment("c\n".as_bytes(), 0), 2);
}

#[test]
fn blank_skips_white_space_and_comments() {
    assert_eq!(blank("  c x\n c y\r\n 7".as_bytes(), 0), 13);
    assert_eq!(blank("7".as_bytes(), 0), 0);
    assert_eq!(blank("c to the end".as_bytes(), 0), 12);
}

#[test]
fn number_reads_decimal_digits() {
    assert_eq!(number("120 ".as_bytes(), 0), Ok((120, 3)));
    assert_eq!(number("007".as_bytes(), 0), Ok((7, 3)));
    assert_eq!(number("4294967295".as_bytes(), 0), Ok((4294967295, 10)));
    assert_eq!(number("x12".as_bytes(), 1), Ok((12, 3)));
}

#[test]
fn number_rejects_what_is_no_number() {
    assert_eq!(number("x".as_bytes(), 0), Err(ParseError::BadToken));
    assert_eq!(number("".as_bytes(), 0), Err(ParseError::BadToken));
    assert_eq!(number("-1".as_bytes(), 0), Err(ParseError::BadToken));
}

#[test]
fn number_rejects_what_is_too_large() {
    assert_eq!(number("4294967296".as_bytes(), 0), Err(ParseError::NumberTooLarge));
    assert_eq!(number("99999999999999999999999".as_bytes(), 0), Err(ParseError::NumberTooLarge));
}

#[test]
fn literal_reads_signed_integers_and_the_terminator() {
    assert_eq!(literal("12 ".as_bytes(), 0), Ok((Some(ParsedLit::PosLit(ParsedVar(12))), 2)));
    assert_eq!(literal("-12".as_bytes(), 0), Ok((Some(ParsedLit::NegLit(ParsedVar(12))), 3)));
    assert_eq!(literal("0\n".as_bytes(), 0), Ok((None, 1)));
    assert_eq!(literal("-0".as_bytes(), 0), Err(ParseError::BadToken));
    assert_eq!(literal("1-2".as_bytes(), 0), Err(ParseError::BadToken));
    assert_eq!(literal("-".as_bytes(), 0), Err(ParseError::BadToken));
    assert_eq!(literal("x".as_bytes(), 0), Err(ParseError::BadToken));
}

#[test]
fn problem_line_must_be_there() {
    assert_eq!(problem("q cnf 1 1".as_bytes(), 0), Err(ParseError::MissingProblemLine));
    assert_eq!(problem("p dnf 1 1".as_bytes(), 0), Err(ParseError::MissingProblemLine));
    assert_eq!(problem("".as_bytes(), 0), Err(ParseError::MissingProblemLine));
    assert_eq!(problem("p cnf x 1".as_bytes(), 0), Err(ParseError::BadToken));
    assert_eq!(problem("p cnf 1".as_bytes(), 0), Err(ParseError::BadToken));
}

#[test]
fn clause_may_span_lines() {
    let result = clause("1\n-2\n\n3 0 4 0".as_bytes(), 0);
    let expected = vec![
        ParsedLit::PosLit(ParsedVar(1)),
        ParsedLit::NegLit(ParsedVar(2)),
        ParsedLit::PosLit(ParsedVar(3)),
    ];
    assert_eq!(result, Ok((expected, 9)));
}

#[test]
fn clause_without_terminator_is_an_error() {
    assert_eq!(clause("1 2".as_bytes(), 0), Err(ParseError::UnterminatedClause));
    assert_eq!(clause("1 2 ".as_bytes(), 0), Err(ParseError::UnterminatedClause));
    assert_eq!(clause("".as_bytes(), 0), Err(ParseError::UnterminatedClause));
}

#[test]
fn clause_with_a_token_that_is_no_integer_is_an_error() {
    assert_eq!(clause("1 x 0".as_bytes(), 0), Err(ParseError::BadToken));
    assert_eq!(clause("1 c 0".as_bytes(), 0), Err(ParseError::BadToken));
}

#[test]
fn file_without_problem_line_is_an_error() {
    assert_eq!(dimacs("1 2 0\n".as_bytes()), Err(ParseError::MissingProblemLine));
    assert_eq!(dimacs("c only a comment\n".as_bytes()), Err(ParseError::MissingProblemLine));
    assert_eq!(dimacs("".as_bytes()), Err(ParseError::MissingProblemLine));
}

#[test]
fn file_that_ends_within_a_clause_is_an_error() {
    assert_eq!(dimacs("p cnf 2 1\n1 2".as_bytes()), Err(ParseError::UnterminatedClause));
}

#[test]
fn file_with_junk_behind_the_problem_line_is_an_error() {
    assert_eq!(dimacs("p cnf 2 1x\n1 2 0".as_bytes()), Err(ParseError::BadToken));
}

#[test]
fn file_may_have_no_clause() {
    let expected = ParsedDIMACS {
        cnf_problem: CNFProblem { num_variables: 0, num_clauses: 0 },
        clauses: vec![],
    };
    assert_eq!(dimacs("p cnf 0 0".as_bytes()), Ok(expected));
}

#[test]
fn comments_may_stand_between_clauses() {
    let result = dimacs("p cnf 2 2\n1 0\nc between\n-2 0\nc at the end".as_bytes());
    let expected = ParsedDIMACS {
        cnf_problem: CNFProblem { num_variables: 2, num_clauses: 2 },
        clauses: vec![vec![ParsedLit::PosLit(ParsedVar(1))], vec![ParsedLit::NegLit(ParsedVar(2))]],
    };
    assert_eq!(result, Ok(expected));
}

#[test]
fn several_clauses_may_share_a_line() {
    let result = dimacs("p cnf 2 3\n1 0 2 0 0".as_bytes());
    let expected = ParsedDIMACS {
        cnf_problem: CNFProblem { num_variables: 2, num_clauses: 3 },
        clauses: vec![
            vec![ParsedLit::PosLit(ParsedVar(1))],
            vec![ParsedLit::PosLit(ParsedVar(2))],
            vec![],
        ],
    };
    assert_eq!(result, Ok(expected));
}

#[test]
fn variable_of_a_parsed_literal() {
    assert_eq!(parsed_lit_var(&ParsedLit::PosLit(ParsedVar(4))), ParsedVar(4));
    assert_eq!(parsed_lit_var(&ParsedLit::NegLit(ParsedVar(9))), ParsedVar(9));
}

#[test]
fn core_literal_keeps_the_polarity() {
    let v = Variable::from_index(3).unwrap();
    assert_eq!(to_core_lit(&ParsedLit::PosLit(ParsedVar(40)), &v), v.to_positive_literal());
    assert_eq!(to_core_lit(&ParsedLit::NegLit(ParsedVar(40)), &v), v.to_negative_literal());
}

#[test]
fn variables_are_numbered_in_the_order_of_first_sight() {
    let parsed = parse_dimacs("c Header\np cnf 5 2\n1 5 2 -1 0\n-5 3 0\n");
    let problem = match parsed {
        Ok(problem) => problem,
        Err(e) => panic!("unexpected error {:?}", e),
    };
    assert_eq!(problem.next_var, Variable::from_index(4).unwrap());
    assert_eq!(problem.clauses.len(), 2);
    let first: Vec<usize> = (0..4).map(|i| problem.clauses[0].index(i).as_index()).collect();
    let second: Vec<usize> = (0..2).map(|i| problem.clauses[1].index(i).as_index()).collect();
    assert_eq!(first, vec![0, 2, 4, 1]);
    assert_eq!(second, vec![3, 6]);
    assert_eq!(problem.clauses[0].lit_count(), 4);
    assert_eq!(problem.clauses[1].lit_count(), 2);
    assert_eq!(problem.clauses[0].identifier().0, 0);
    assert_eq!(problem.clauses[1].identifier().0, 1);
    assert_eq!(problem.clauses[0].activity(), 0);
}

#[test]
fn parse_dimacs_reports_the_error_of_the_file() {
    assert!(matches!(parse_dimacs("p cnf 1 1\n1"), Err(ParseError::UnterminatedClause)));
    assert!(matches!(parse_dimacs("1 0"), Err(ParseError::MissingProblemLine)));
    assert!(matches!(parse_dimacs("p cnf 1 1\n1 y 0"), Err(ParseError::BadToken)));
    assert!(matches!(
        parse_dimacs("p cnf 1 1\n99999999999 0"),
        Err(ParseError::NumberTooLarge)
    ));
}
