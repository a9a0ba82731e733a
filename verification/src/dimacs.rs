//! The DIMACS format for problems in conjunctive normal form.
//!
//! A file is a sequence of tokens, separated by white space. Where a token
//! may begin, a `c` begins a comment, which runs to the end of its line.
//! The file begins with the problem line: `p`, `cnf`, the number of
//! variables and the number of clauses. The clauses follow: each is a
//! sequence of integers other than 0, closed by a `0`. A negative integer
//! is the negation of a variable.

use crate::clause::{Clause, ClauseHeader, ClauseId};
use crate::literal::{Literal, Variable, MAX_VARIABLES};
use crate::model::codes;
use std::collections::BTreeMap;
use vstd::prelude::*;
use vstd::string::StringSliceAdditionalSpecFns;

verus! {

/// What is wrong with a file.
#[derive(Clone, Copy, Debug, PartialEq, Eq, Structural)]
pub enum ParseError {
    /// The problem line is missing where it has to stand.
    MissingProblemLine,
    /// A token is not an integer where one has to stand.
    BadToken,
    /// The file ends within a clause.
    UnterminatedClause,
    /// A number is too large for a machine integer.
    NumberTooLarge,
    /// The file has more variables than the solver can number.
    TooManyVariables,
    /// The file has more clauses than the solver can number.
    TooManyClauses,
}

/// What the problem line says.
#[derive(Clone, Copy, Debug, PartialEq, Eq, Structural)]
pub struct CNFProblem {
    pub num_variables: u32,
    pub num_clauses: u32,
}

/// A variable as the file numbers it.
#[derive(Clone, Copy, Debug, PartialEq, Eq, Structural, PartialOrd, Ord)]
pub struct ParsedVar(pub u32);

/// A literal as the file writes it.
#[derive(Clone, Copy, Debug, PartialEq, Eq, Structural, PartialOrd, Ord)]
pub enum ParsedLit {
    PosLit(ParsedVar),
    NegLit(ParsedVar),
}

/// A file, read but not yet numbered anew.
#[derive(Debug, PartialEq, Eq)]
pub struct ParsedDIMACS {
    pub cnf_problem: CNFProblem,
    pub clauses: Vec<Vec<ParsedLit>>,
}

/// A problem, ready for the solver.
pub struct DIMACS {
    /// The variable after the last one that the clauses use.
    pub next_var: Variable,
    /// The clauses.
    pub clauses: Vec<Clause>,
}

/// White space: a blank, or one of the control characters from the tabulator
/// to the carriage return.
pub open spec fn is_space(b: u8) -> bool {
    b == 32 || 9 <= b <= 13
}

pub open spec fn is_digit(b: u8) -> bool {
    48 <= b <= 57
}

/// The first position from `at` on where no white space stands.
pub open spec fn after_spaces(s: Seq<u8>, at: int) -> int
    decreases s.len() - at,
{
    if 0 <= at < s.len() && is_space(s[at]) {
        after_spaces(s, at + 1)
    } else {
        at
    }
}

/// The first position from `at` on where no digit stands.
pub open spec fn after_digits(s: Seq<u8>, at: int) -> int
    decreases s.len() - at,
{
    if 0 <= at < s.len() && is_digit(s[at]) {
        after_digits(s, at + 1)
    } else {
        at
    }
}

/// The position behind the end of the line in which `at` lies.
pub open spec fn after_line(s: Seq<u8>, at: int) -> int
    decreases s.len() - at,
{
    if 0 <= at < s.len() {
        if s[at] == 10 {
            at + 1
        } else {
            after_line(s, at + 1)
        }
    } else {
        at
    }
}

/// The first position from `at` on where a token begins that is no comment,
/// or the end of the file.
pub open spec fn after_blank(s: Seq<u8>, at: int) -> int
    decreases s.len() - at,
{
    if 0 <= at < s.len() {
        if is_space(s[at]) {
            after_blank(s, at + 1)
        } else if s[at] == 99 {
            if at < after_line(s, at + 1) <= s.len() {
                after_blank(s, after_line(s, at + 1))
            } else {
                s.len() as int
            }
        } else {
            at
        }
    } else {
        at
    }
}

/// The number that the digits from `from` to `to` write.
pub open spec fn decimal(s: Seq<u8>, from: int, to: int) -> int
    decreases to - from,
{
    if to <= from {
        0
    } else {
        10 * decimal(s, from, to - 1) + (s[to - 1] - 48)
    }
}

/// The number that stands at `at`, and the position behind it.
pub open spec fn number_at(s: Seq<u8>, at: int) -> Result<(u32, int), ParseError> {
    if after_digits(s, at) <= at {
        Err(ParseError::BadToken)
    } else if decimal(s, at, after_digits(s, at)) > u32::MAX {
        Err(ParseError::NumberTooLarge)
    } else {
        Ok((decimal(s, at, after_digits(s, at)) as u32, after_digits(s, at)))
    }
}

/// The bytes of `cnf` stand at `at`.
pub open spec fn cnf_at(s: Seq<u8>, at: int) -> bool {
    0 <= at && at + 3 <= s.len() && s[at] == 99 && s[at + 1] == 110 && s[at + 2] == 102
}

/// The problem line that begins at `at`, and the position behind it.
pub open spec fn problem_at(s: Seq<u8>, at: int) -> Result<(CNFProblem, int), ParseError> {
    if !(0 <= at < s.len() && s[at] == 112) {
        Err(ParseError::MissingProblemLine)
    } else if !cnf_at(s, after_spaces(s, at + 1)) {
        Err(ParseError::MissingProblemLine)
    } else {
        match number_at(s, after_spaces(s, after_spaces(s, at + 1) + 3)) {
            Err(e) => Err(e),
            Ok((variables, middle)) => match number_at(s, after_spaces(s, middle)) {
                Err(e) => Err(e),
                Ok((clauses, end)) => Ok(
                    (CNFProblem { num_variables: variables, num_clauses: clauses }, end),
                ),
            },
        }
    }
}

/// A line end stands at `at`: a line feed, or a carriage return and a line
/// feed. The position behind it.
pub open spec fn line_end_at(s: Seq<u8>, at: int) -> Result<((), int), ParseError> {
    if 0 <= at < s.len() && s[at] == 10 {
        Ok(((), at + 1))
    } else if 0 <= at && at + 1 < s.len() && s[at] == 13 && s[at + 1] == 10 {
        Ok(((), at + 2))
    } else {
        Err(ParseError::BadToken)
    }
}

/// `lits` and then what `rest` holds.
pub open spec fn prepend<T>(lits: Seq<T>, rest: Result<(Seq<T>, int), ParseError>) -> Result<
    (Seq<T>, int),
    ParseError,
> {
    match rest {
        Ok((more, end)) => Ok((lits + more, end)),
        Err(e) => Err(e),
    }
}

/// The token at `at`, where no white space stands: an integer, with the
/// position behind it. `None` stands for the `0` that closes a clause.
pub open spec fn token_at(s: Seq<u8>, at: int) -> Result<(Option<ParsedLit>, int), ParseError> {
    let negative = 0 <= at < s.len() && s[at] == 45;
    let digits = if negative {
        at + 1
    } else {
        at
    };
    match number_at(s, digits) {
        Err(e) => Err(e),
        Ok((value, end)) => if end < s.len() && !is_space(s[end]) {
            Err(ParseError::BadToken)
        } else if value == 0 {
            if negative {
                Err(ParseError::BadToken)
            } else {
                Ok((None, end))
            }
        } else if negative {
            Ok((Some(ParsedLit::NegLit(ParsedVar(value))), end))
        } else {
            Ok((Some(ParsedLit::PosLit(ParsedVar(value))), end))
        },
    }
}

/// The literals of the clause that begins at `at` or behind white space
/// from there, and the position behind the `0` that closes it.
pub open spec fn clause_at(s: Seq<u8>, at: int) -> Result<(Seq<ParsedLit>, int), ParseError>
    decreases s.len() - at,
{
    if after_spaces(s, at) >= s.len() || after_spaces(s, at) < at {
        Err(ParseError::UnterminatedClause)
    } else {
        match token_at(s, after_spaces(s, at)) {
            Err(e) => Err(e),
            Ok((None, end)) => Ok((Seq::empty(), end)),
            Ok((Some(lit), end)) => if at < end <= s.len() {
                prepend(seq![lit], clause_at(s, end))
            } else {
                Err(ParseError::BadToken)
            },
        }
    }
}

/// The clauses from `at` to the end of the file.
pub open spec fn clauses_at(s: Seq<u8>, at: int) -> Result<(Seq<Seq<ParsedLit>>, int), ParseError>
    decreases s.len() - at,
{
    if after_blank(s, at) >= s.len() || after_blank(s, at) < at {
        Ok((Seq::empty(), after_blank(s, at)))
    } else {
        match clause_at(s, after_blank(s, at)) {
            Err(e) => Err(e),
            Ok((lits, end)) => if at < end <= s.len() {
                prepend(seq![lits], clauses_at(s, end))
            } else {
                Err(ParseError::BadToken)
            },
        }
    }
}

/// What a file holds: the problem line and the clauses.
pub open spec fn dimacs_of(s: Seq<u8>) -> Result<(CNFProblem, Seq<Seq<ParsedLit>>), ParseError> {
    match problem_at(s, after_blank(s, 0)) {
        Err(e) => Err(e),
        Ok((problem, end)) => if end < s.len() && !is_space(s[end]) {
            Err(ParseError::BadToken)
        } else {
            match clauses_at(s, end) {
                Err(e) => Err(e),
                Ok((clauses, _)) => Ok((problem, clauses)),
            }
        },
    }
}

/// The views of the clauses of a parsed file.
pub open spec fn parsed_clauses(clauses: Seq<Vec<ParsedLit>>) -> Seq<Seq<ParsedLit>> {
    Seq::new(clauses.len(), |k: int| clauses[k]@)
}

/// Skips white space: the position of the first byte from `at` on that is
/// none.
pub fn whitespace(input: &[u8], at: usize) -> (end: usize)
    requires
        at <= input@.len(),
    ensures
        end == after_spaces(input@, at as int),
        at <= end <= input@.len(),
{
    let mut end = at;
    while end < input.len() && (input[end] == 32 || (9 <= input[end] && input[end] <= 13))
        invariant
            at <= end <= input@.len(),
            after_spaces(input@, end as int) == after_spaces(input@, at as int),
        decreases input@.len() - end,
    {
        end = end + 1;
    }
    end
}

/// Reads a line end at `at`.
pub fn line_end(input: &[u8], at: usize) -> (r: Result<((), usize), ParseError>)
    requires
        at <= input@.len(),
    ensures
        match r {
            Ok((_, end)) => line_end_at(input@, at as int) == Ok::<((), int), ParseError>(
                ((), end as int),
            ) && at < end <= input@.len(),
            Err(e) => line_end_at(input@, at as int) == Err::<((), int), ParseError>(e),
        },
{
    if at < input.len() && input[at] == 10 {
        Ok(((), at + 1))
    } else if at < input.len() && input.len() - at > 1 && input[at] == 13 && input[at + 1] == 10 {
        Ok(((), at + 2))
    } else {
        Err(ParseError::BadToken)
    }
}

/// Skips the comment that begins at `at`: the position behind the end of its
/// line.
pub fn comment(input: &[u8], at: usize) -> (end: usize)
    requires
        at < input@.len(),
        input@[at as int] == 99,
    ensures
        end == after_line(input@, at + 1),
        at < end <= input@.len(),
{
    let total = input.len();
    let mut end = at + 1;
    while end < total && input[end] != 10
        invariant
            total == input@.len(),
            at < end <= input@.len(),
            after_line(input@, end as int) == after_line(input@, at + 1),
        decreases input@.len() - end,
    {
        end = end + 1;
    }
    if end < total {
        end = end + 1;
    }
    end
}

/// Skips white space and comments: the position of the first byte from `at`
/// on that is neither.
pub fn blank(input: &[u8], at: usize) -> (end: usize)
    requires
        at <= input@.len(),
    ensures
        end == after_blank(input@, at as int),
        at <= end <= input@.len(),
{
    let mut end = at;
    while end < input.len() && (input[end] == 32 || (9 <= input[end] && input[end] <= 13)
        || input[end] == 99)
        invariant
            at <= end <= input@.len(),
            after_blank(input@, end as int) == after_blank(input@, at as int),
        decreases input@.len() - end,
    {
        if input[end] == 99 {
            end = comment(input, end);
        } else {
            end = end + 1;
        }
    }
    end
}

/// The number that the digits from `from` to `to` write does not shrink
/// when more digits follow.
pub proof fn lemma_decimal_grows(s: Seq<u8>, from: int, to: int)
    requires
        from <= to,
        forall|i: int| from <= i < to + 1 ==> is_digit(#[trigger] s[i]),
    ensures
        0 <= decimal(s, from, to) <= decimal(s, from, to + 1),
    decreases to - from,
{
    if from < to {
        lemma_decimal_grows(s, from, to - 1);
    }
}

/// Reads the number that stands at `at`.
pub fn number(input: &[u8], at: usize) -> (r: Result<(u32, usize), ParseError>)
    requires
        at <= input@.len(),
    ensures
        match r {
            Ok((value, end)) => number_at(input@, at as int) == Ok::<(u32, int), ParseError>(
                (value, end as int),
            ) && at < end <= input@.len(),
            Err(e) => number_at(input@, at as int) == Err::<(u32, int), ParseError>(e),
        },
{
    let mut end = at;
    let mut value: u32 = 0;
    let mut overflow = false;
    while end < input.len() && 48 <= input[end] && input[end] <= 57
        invariant
            at <= end <= input@.len(),
            after_digits(input@, end as int) == after_digits(input@, at as int),
            forall|i: int| at <= i < end ==> is_digit(#[trigger] input@[i]),
            !overflow ==> value == decimal(input@, at as int, end as int),
            overflow ==> decimal(input@, at as int, end as int) > u32::MAX,
        decreases input@.len() - end,
    {
        let digit: u32 = (input[end] - 48) as u32;
        proof {
            lemma_decimal_grows(input@, at as int, end as int);
        }
        if !overflow {
            if value > (u32::MAX - digit) / 10 {
                overflow = true;
            } else {
                value = value * 10 + digit;
            }
        }
        end = end + 1;
    }
    if end == at {
        Err(ParseError::BadToken)
    } else if overflow {
        Err(ParseError::NumberTooLarge)
    } else {
        Ok((value, end))
    }
}

/// Reads the problem line that begins at `at`: `p`, `cnf` and two numbers,
/// with any white space between them.
pub fn problem(input: &[u8], at: usize) -> (r: Result<(CNFProblem, usize), ParseError>)
    requires
        at <= input@.len(),
    ensures
        match r {
            Ok((p, end)) => problem_at(input@, at as int) == Ok::<(CNFProblem, int), ParseError>(
                (p, end as int),
            ) && at < end <= input@.len(),
            Err(e) => problem_at(input@, at as int) == Err::<(CNFProblem, int), ParseError>(e),
        },
{
    if !(at < input.len() && input[at] == 112) {
        return Err(ParseError::MissingProblemLine);
    }
    let word = whitespace(input, at + 1);
    if !(input.len() - word >= 3 && input[word] == 99 && input[word + 1] == 110 && input[word + 2]
        == 102) {
        return Err(ParseError::MissingProblemLine);
    }
    let first = whitespace(input, word + 3);
    match number(input, first) {
        Err(e) => Err(e),
        Ok((variables, middle)) => {
            let second = whitespace(input, middle);
            match number(input, second) {
                Err(e) => Err(e),
                Ok((clauses, end)) => Ok(
                    (CNFProblem { num_variables: variables, num_clauses: clauses }, end),
                ),
            }
        },
    }
}

/// Reads the token that begins at `at`: a literal, or the `0` that closes a
/// clause, for which `None` stands.
pub fn literal(input: &[u8], at: usize) -> (r: Result<(Option<ParsedLit>, usize), ParseError>)
    requires
        at <= input@.len(),
    ensures
        match r {
            Ok((lit, end)) => token_at(input@, at as int) == Ok::<
                (Option<ParsedLit>, int),
                ParseError,
            >((lit, end as int)) && at < end <= input@.len(),
            Err(e) => token_at(input@, at as int) == Err::<(Option<ParsedLit>, int), ParseError>(
                e,
            ),
        },
{
    let negative = at < input.len() && input[at] == 45;
    let digits = if negative {
        at + 1
    } else {
        at
    };
    match number(input, digits) {
        Err(e) => Err(e),
        Ok((value, end)) => {
            if end < input.len() && !(input[end] == 32 || (9 <= input[end] && input[end] <= 13)) {
                Err(ParseError::BadToken)
            } else if value == 0 {
                if negative {
                    Err(ParseError::BadToken)
                } else {
                    Ok((None, end))
                }
            } else if negative {
                Ok((Some(ParsedLit::NegLit(ParsedVar(value))), end))
            } else {
                Ok((Some(ParsedLit::PosLit(ParsedVar(value))), end))
            }
        },
    }
}

/// Reads the clause that begins at `at`, or behind white space from there:
/// literals up to the `0` that closes it.
pub fn clause(input: &[u8], at: usize) -> (r: Result<(Vec<ParsedLit>, usize), ParseError>)
    requires
        at <= input@.len(),
    ensures
        match r {
            Ok((lits, end)) => clause_at(input@, at as int) == Ok::<
                (Seq<ParsedLit>, int),
                ParseError,
            >((lits@, end as int)) && at < end <= input@.len(),
            Err(e) => clause_at(input@, at as int) == Err::<(Seq<ParsedLit>, int), ParseError>(e),
        },
{
    let mut lits: Vec<ParsedLit> = Vec::new();
    let mut cur = at;
    proof {
        assert(Seq::<ParsedLit>::empty() + Seq::<ParsedLit>::empty() =~= Seq::<ParsedLit>::empty());
        match clause_at(input@, at as int) {
            Ok((more, end)) => {
                assert(lits@ + more =~= more);
            },
            Err(e) => {},
        }
    }
    loop
        invariant
            at <= cur <= input@.len(),
            clause_at(input@, at as int) == prepend(lits@, clause_at(input@, cur as int)),
        decreases input@.len() - cur,
    {
        let start = whitespace(input, cur);
        if start >= input.len() {
            return Err(ParseError::UnterminatedClause);
        }
        match literal(input, start) {
            Err(e) => {
                return Err(e);
            },
            Ok((None, end)) => {
                proof {
                    assert(lits@ + Seq::<ParsedLit>::empty() =~= lits@);
                }
                return Ok((lits, end));
            },
            Ok((Some(lit), end)) => {
                proof {
                    match clause_at(input@, end as int) {
                        Ok((more, last)) => {
                            assert(lits@ + (seq![lit] + more) =~= lits@.push(lit) + more);
                        },
                        Err(e) => {},
                    }
                }
                lits.push(lit);
                cur = end;
            },
        }
    }
}

/// Reads a file: the problem line, after any comments, and the clauses, with
/// any comments between them.
pub fn dimacs(input: &[u8]) -> (r: Result<ParsedDIMACS, ParseError>)
    ensures
        match r {
            Ok(parsed) => dimacs_of(input@) == Ok::<
                (CNFProblem, Seq<Seq<ParsedLit>>),
                ParseError,
            >((parsed.cnf_problem, parsed_clauses(parsed.clauses@))),
            Err(e) => dimacs_of(input@) == Err::<(CNFProblem, Seq<Seq<ParsedLit>>), ParseError>(e),
        },
{
    let begin = blank(input, 0);
    let (cnf_problem, body) = match problem(input, begin) {
        Err(e) => {
            return Err(e);
        },
        Ok(found) => found,
    };
    if body < input.len() && !(input[body] == 32 || (9 <= input[body] && input[body] <= 13)) {
        return Err(ParseError::BadToken);
    }
    let mut clauses: Vec<Vec<ParsedLit>> = Vec::new();
    let mut cur = body;
    proof {
        match clauses_at(input@, body as int) {
            Ok((more, end)) => {
                assert(parsed_clauses(clauses@) + more =~= more);
            },
            Err(e) => {},
        }
    }
    loop
        invariant
            body <= cur <= input@.len(),
            problem_at(input@, after_blank(input@, 0)) == Ok::<(CNFProblem, int), ParseError>(
                (cnf_problem, body as int),
            ),
            body < input@.len() ==> is_space(input@[body as int]),
            clauses_at(input@, body as int) == prepend(
                parsed_clauses(clauses@),
                clauses_at(input@, cur as int),
            ),
        decreases input@.len() - cur,
    {
        let start = blank(input, cur);
        if start >= input.len() {
            proof {
                assert(parsed_clauses(clauses@) + Seq::<Seq<ParsedLit>>::empty() =~= parsed_clauses(
                    clauses@,
                ));
            }
            return Ok(ParsedDIMACS { cnf_problem, clauses });
        }
        match clause(input, start) {
            Err(e) => {
                return Err(e);
            },
            Ok((lits, end)) => {
                proof {
                    match clauses_at(input@, end as int) {
                        Ok((more, last)) => {
                            assert(parsed_clauses(clauses@) + (seq![lits@] + more) =~= parsed_clauses(
                                clauses@.push(lits),
                            ) + more);
                        },
                        Err(e) => {},
                    }
                }
                clauses.push(lits);
                cur = end;
            },
        }
    }
}

/// How the variables of a file are numbered anew: the variables met so far,
/// each with its new number, and the number that the next one gets.
pub struct Numbering {
    pub map: Map<u32, int>,
    pub next: int,
}

/// The variable of a literal, as the file numbers it.
pub open spec fn var_of(l: ParsedLit) -> u32 {
    match l {
        ParsedLit::PosLit(v) => v.0,
        ParsedLit::NegLit(v) => v.0,
    }
}

/// 1 for a negated literal, 0 for another.
pub open spec fn polarity_of(l: ParsedLit) -> int {
    match l {
        ParsedLit::PosLit(_) => 0,
        ParsedLit::NegLit(_) => 1,
    }
}

impl Numbering {
    /// The numbering before any variable has been met.
    pub open spec fn start() -> Numbering {
        Numbering { map: Map::empty(), next: 0 }
    }

    /// The numbering after the variable `var` has been met: a variable that
    /// is met for the first time gets the next number.
    pub open spec fn meet(self, var: u32) -> Numbering {
        if self.map.contains_key(var) {
            self
        } else {
            Numbering { map: self.map.insert(var, self.next), next: self.next + 1 }
        }
    }

    /// The code of the literal `l`, met now.
    pub open spec fn code_of(self, l: ParsedLit) -> int {
        2 * self.meet(var_of(l)).map[var_of(l)] + polarity_of(l)
    }

    /// The numbering after the literals of `c` have been met, in their
    /// order.
    pub open spec fn meet_clause(self, c: Seq<ParsedLit>) -> Numbering
        decreases c.len(),
    {
        if c.len() == 0 {
            self
        } else {
            self.meet_clause(c.drop_last()).meet(var_of(c.last()))
        }
    }

    /// The codes of the literals of `c`, met in their order.
    pub open spec fn codes_of_clause(self, c: Seq<ParsedLit>) -> Seq<int>
        decreases c.len(),
    {
        if c.len() == 0 {
            Seq::empty()
        } else {
            self.codes_of_clause(c.drop_last()).push(
                self.meet_clause(c.drop_last()).code_of(c.last()),
            )
        }
    }

    /// Every number given is below the next one.
    pub open spec fn dense(self) -> bool {
        &&& 0 <= self.next
        &&& forall|var: u32| #[trigger] self.map.contains_key(var) ==> 0 <= self.map[var] < self.next
    }
}

/// The numbering after the clauses of `cs` have been met, in their order.
pub open spec fn numbering_of(cs: Seq<Seq<ParsedLit>>) -> Numbering
    decreases cs.len(),
{
    if cs.len() == 0 {
        Numbering::start()
    } else {
        numbering_of(cs.drop_last()).meet_clause(cs.last())
    }
}

/// The codes of the literals of the clauses of `cs`: each variable gets the
/// number of variables met before it was met first.
pub open spec fn codes_of(cs: Seq<Seq<ParsedLit>>) -> Seq<Seq<int>>
    decreases cs.len(),
{
    if cs.len() == 0 {
        Seq::empty()
    } else {
        codes_of(cs.drop_last()).push(numbering_of(cs.drop_last()).codes_of_clause(cs.last()))
    }
}

/// Meeting a clause keeps a numbering dense, gives no number anew, and
/// yields codes below twice the next number.
pub proof fn lemma_meet_clause(st: Numbering, c: Seq<ParsedLit>)
    requires
        st.dense(),
    ensures
        st.meet_clause(c).dense(),
        st.next <= st.meet_clause(c).next,
        st.codes_of_clause(c).len() == c.len(),
        forall|i: int|
            0 <= i < c.len() ==> 0 <= #[trigger] st.codes_of_clause(c)[i] < 2 * st.meet_clause(
                c,
            ).next,
    decreases c.len(),
{
    if c.len() > 0 {
        let front = c.drop_last();
        lemma_meet_clause(st, front);
        let mid = st.meet_clause(front);
        let after = mid.meet(var_of(c.last()));
        assert(after.dense());
        assert forall|i: int| 0 <= i < c.len() implies 0 <= #[trigger] st.codes_of_clause(c)[i] < 2
            * st.meet_clause(c).next by {
            if i < front.len() {
                assert(st.codes_of_clause(c)[i] == st.codes_of_clause(front)[i]);
            }
        }
    }
}

/// The same for the clauses of a file.
pub proof fn lemma_numbering(cs: Seq<Seq<ParsedLit>>)
    ensures
        numbering_of(cs).dense(),
        codes_of(cs).len() == cs.len(),
        forall|k: int| 0 <= k < cs.len() ==> (#[trigger] codes_of(cs)[k]).len() == cs[k].len(),
        forall|k: int, i: int|
            0 <= k < cs.len() && 0 <= i < cs[k].len() ==> 0 <= #[trigger] codes_of(cs)[k][i] < 2
                * numbering_of(cs).next,
        cs.len() > 0 ==> numbering_of(cs.drop_last()).next <= numbering_of(cs).next,
    decreases cs.len(),
{
    if cs.len() > 0 {
        let front = cs.drop_last();
        lemma_numbering(front);
        lemma_meet_clause(numbering_of(front), cs.last());
        assert forall|k: int| 0 <= k < cs.len() implies (#[trigger] codes_of(cs)[k]).len()
            == cs[k].len() by {
            if k < front.len() {
                assert(codes_of(cs)[k] == codes_of(front)[k]);
                assert(front[k] == cs[k]);
            }
        }
        assert forall|k: int, i: int| 0 <= k < cs.len() && 0 <= i < cs[k].len() implies 0
            <= #[trigger] codes_of(cs)[k][i] < 2 * numbering_of(cs).next by {
            if k < front.len() {
                assert(codes_of(cs)[k] == codes_of(front)[k]);
                assert(front[k] == cs[k]);
                assert(0 <= codes_of(front)[k][i] < 2 * numbering_of(front).next);
            }
        }
    }
}

/// The numbers given do not shrink as more clauses are met.
pub proof fn lemma_numbering_grows(cs: Seq<Seq<ParsedLit>>, upto: int)
    requires
        0 <= upto <= cs.len(),
    ensures
        numbering_of(cs.take(upto)).next <= numbering_of(cs).next,
    decreases cs.len() - upto,
{
    if upto < cs.len() {
        lemma_numbering_grows(cs, upto + 1);
        lemma_numbering(cs.take(upto + 1));
        assert(cs.take(upto + 1).drop_last() =~= cs.take(upto));
    } else {
        assert(cs.take(upto) =~= cs);
    }
}

/// The variable of a literal of a file.
pub fn parsed_lit_var(l: &ParsedLit) -> (v: ParsedVar)
    ensures
        v.0 == var_of(*l),
{
    match l {
        ParsedLit::PosLit(v) => *v,
        ParsedLit::NegLit(v) => *v,
    }
}

/// The literal of the variable `cv` with the polarity of `pl`.
pub fn to_core_lit(pl: &ParsedLit, cv: &Variable) -> (lit: Literal)
    ensures
        lit.code() == 2 * cv.index() + polarity_of(*pl),
{
    match pl {
        ParsedLit::PosLit(_) => cv.to_positive_literal(),
        ParsedLit::NegLit(_) => cv.to_negative_literal(),
    }
}

/// The variables of a file that have been met, each with the variable that
/// stands for it, and what comes next.
pub struct Interner {
    var_map: BTreeMap<u32, Variable>,
    next_var: Variable,
}

impl Interner {
    /// The numbering that the interner has reached.
    pub closed spec fn numbering(&self) -> Numbering {
        Numbering {
            map: Map::new(
                |var: u32| self.var_map@.contains_key(var),
                |var: u32| self.var_map@[var].index(),
            ),
            next: self.next_var.index(),
        }
    }

    /// An interner that has met no variable.
    pub fn new() -> (env: Interner)
        ensures
            env.numbering() == Numbering::start(),
    {
        let env = Interner { var_map: BTreeMap::new(), next_var: Variable::first_variable() };
        assert(env.numbering().map =~= Numbering::start().map);
        env
    }
}

/// The literal that stands for the literal `pl` of a file. A variable that
/// is met for the first time gets the next variable, if there is one left.
pub fn intern_lit(env: &mut Interner, pl: &ParsedLit) -> (r: Result<Literal, ParseError>)
    requires
        old(env).numbering().dense(),
    ensures
        match r {
            Ok(lit) => {
                &&& final(env).numbering() == old(env).numbering().meet(var_of(*pl))
                &&& lit.code() == old(env).numbering().code_of(*pl)
                &&& final(env).numbering().next < MAX_VARIABLES
            },
            Err(e) => {
                &&& e == ParseError::TooManyVariables
                &&& old(env).numbering().meet(var_of(*pl)).next >= MAX_VARIABLES
                &&& final(env).numbering() == old(env).numbering()
            },
        },
        final(env).numbering().dense(),
{
    let var = parsed_lit_var(pl).0;
    proof {
        use_type_invariant(env.next_var);
    }
    let known: Option<Variable> = match env.var_map.get(&var) {
        Some(cv) => Some(*cv),
        None => None,
    };
    match known {
        Some(cv) => Ok(to_core_lit(pl, &cv)),
        None => {
            let this_var = env.next_var;
            if this_var.number() < MAX_VARIABLES - 1 {
                env.next_var = this_var.next_variable();
                let _ = env.var_map.insert(var, this_var);
                assert(env.numbering().map =~= old(env).numbering().meet(var).map);
                Ok(to_core_lit(pl, &this_var))
            } else {
                Err(ParseError::TooManyVariables)
            }
        },
    }
}

/// Reads a file and numbers its variables anew, in the order in which they
/// are met. Each clause gets its position as its identifier.
pub fn parse_dimacs(input: &str) -> (r: Result<DIMACS, ParseError>)
    ensures
        match r {
            Ok(d) => dimacs_of(input.spec_bytes()) matches Ok((_, cs)) && {
                &&& cs.len() <= i64::MAX
                &&& d.next_var.index() == numbering_of(cs).next
                &&& d.clauses@.len() == cs.len()
                &&& forall|k: int|
                    0 <= k < cs.len() ==> codes((#[trigger] d.clauses@[k]).literals()) == codes_of(
                        cs,
                    )[k] && d.clauses@[k].header() == (ClauseHeader {
                        id: ClauseId(k as i64),
                        lit_count: cs[k].len() as usize,
                        activity: 0,
                    }) && d.clauses@[k].well_formed()
            },
            Err(e) => match dimacs_of(input.spec_bytes()) {
                Err(found) => e == found,
                Ok((_, cs)) => if cs.len() > i64::MAX {
                    e == ParseError::TooManyClauses
                } else {
                    e == ParseError::TooManyVariables && numbering_of(cs).next >= MAX_VARIABLES
                },
            },
        },
{
    let parsed = match dimacs(input.as_bytes()) {
        Err(e) => {
            return Err(e);
        },
        Ok(parsed) => parsed,
    };
    let ghost cs = parsed_clauses(parsed.clauses@);
    let total = parsed.clauses.len();
    if total as u64 > 0x7fff_ffff_ffff_ffffu64 {
        return Err(ParseError::TooManyClauses);
    }
    let mut env = Interner::new();
    let mut next_id: i64 = 0;
    let mut interned: Vec<Clause> = Vec::new();
    let mut k: usize = 0;
    assert(cs.take(0) =~= Seq::<Seq<ParsedLit>>::empty());
    while k < total
        invariant
            0 <= k <= total,
            total == parsed.clauses@.len(),
            total <= i64::MAX,
            cs == parsed_clauses(parsed.clauses@),
            dimacs_of(input.spec_bytes()) == Ok::<(CNFProblem, Seq<Seq<ParsedLit>>), ParseError>(
                (parsed.cnf_problem, cs),
            ),
            env.numbering() == numbering_of(cs.take(k as int)),
            env.numbering().dense(),
            next_id == k,
            interned@.len() == k,
            forall|j: int|
                0 <= j < k ==> codes((#[trigger] interned@[j]).literals()) == codes_of(
                    cs.take(k as int),
                )[j] && interned@[j].header() == (ClauseHeader {
                    id: ClauseId(j as i64),
                    lit_count: cs[j].len() as usize,
                    activity: 0,
                }) && interned@[j].well_formed(),
        decreases total - k,
    {
        let parsed_clause = &parsed.clauses[k];
        let ghost c = parsed_clause@;
        let ghost st = env.numbering();
        let hdr = ClauseHeader { id: ClauseId(next_id), lit_count: parsed_clause.len(), activity: 0 };
        next_id = next_id + 1;
        let mut lits: Vec<Literal> = Vec::new();
        let mut i: usize = 0;
        proof {
            assert(cs.take(k + 1).drop_last() =~= cs.take(k as int));
            assert(cs.take(k + 1).last() == c);
            assert(c.take(0) =~= Seq::<ParsedLit>::empty());
            assert(codes(lits@) =~= st.codes_of_clause(c.take(0)));
            lemma_numbering_grows(cs, k + 1);
        }
        while i < parsed_clause.len()
            invariant
                0 <= i <= c.len(),
                c == parsed_clause@,
                st.dense(),
                env.numbering() == st.meet_clause(c.take(i as int)),
                env.numbering().dense(),
                cs.len() <= i64::MAX,
                dimacs_of(input.spec_bytes()) == Ok::<
                    (CNFProblem, Seq<Seq<ParsedLit>>),
                    ParseError,
                >((parsed.cnf_problem, cs)),
                codes(lits@) == st.codes_of_clause(c.take(i as int)),
                lits@.len() == i,
                st.meet_clause(c).next <= numbering_of(cs).next,
            decreases c.len() - i,
        {
            proof {
                assert(c.take(i + 1).drop_last() =~= c.take(i as int));
                assert(c.take(i + 1).last() == c[i as int]);
                lemma_meet_grows(st, c, i + 1);
            }
            match intern_lit(&mut env, &parsed_clause[i]) {
                Err(e) => {
                    return Err(e);
                },
                Ok(core_lit) => {
                    lits.push(core_lit);
                    assert(codes(lits@) =~= st.codes_of_clause(c.take(i + 1)));
                },
            }
            i = i + 1;
        }
        proof {
            assert(c.take(c.len() as int) =~= c);
        }
        interned.push(Clause::new(hdr, lits));
        proof {
            assert(cs.take(k + 1).drop_last() =~= cs.take(k as int));
            assert(cs.take(k + 1).last() == c);
            lemma_numbering(cs.take(k as int));
            assert forall|j: int| 0 <= j < k + 1 implies codes((#[trigger] interned@[j]).literals())
                == codes_of(cs.take(k + 1))[j] && interned@[j].header() == (ClauseHeader {
                id: ClauseId(j as i64),
                lit_count: cs[j].len() as usize,
                activity: 0,
            }) && interned@[j].well_formed() by {
                if j < k {
                    assert(codes_of(cs.take(k + 1))[j] == codes_of(cs.take(k as int))[j]);
                }
            }
        }
        k = k + 1;
    }
    proof {
        assert(cs.take(total as int) =~= cs);
        use_type_invariant(env.next_var);
    }
    Ok(DIMACS { clauses: interned, next_var: env.next_var })
}

/// The numbers given do not shrink as more literals are met.
pub proof fn lemma_meet_grows(st: Numbering, c: Seq<ParsedLit>, upto: int)
    requires
        st.dense(),
        0 <= upto <= c.len(),
    ensures
        st.meet_clause(c.take(upto)).next <= st.meet_clause(c).next,
    decreases c.len() - upto,
{
    if upto < c.len() {
        lemma_meet_grows(st, c, upto + 1);
        assert(c.take(upto + 1).drop_last() =~= c.take(upto));
    } else {
        assert(c.take(upto) =~= c);
    }
}

} // verus!
