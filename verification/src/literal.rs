//! Variables, literals and three-valued truth values.
//!
//! A variable is a dense non-negative index. A literal packs a variable and a
//! polarity into one code: `2v` for the variable `v` itself, `2v + 1` for its
//! negation. A value is true (0), false (1) or unassigned (2), so
//! that the value of a literal under the value of its variable is an
//! exclusive-or with the polarity bit.

use crate::tagged::TaggedIndexable;
use vstd::prelude::*;

verus! {

/// A propositional variable, identified by a dense non-negative index.
#[derive(Clone, Copy, Debug, PartialEq, Eq, Structural, PartialOrd, Ord, Hash)]
pub struct Variable(i32);

/// A variable or its negation.
#[derive(Clone, Copy, Debug, PartialEq, Eq, Structural, PartialOrd, Ord, Hash)]
pub struct Literal(i32);

/// A truth value: true, false, or unassigned.
#[derive(Clone, Copy, Debug, PartialEq, Eq, Structural, PartialOrd, Ord)]
pub struct Value(i8);

/// The answer of the solver.
#[derive(Clone, Copy, Debug, PartialEq, Eq, Structural)]
pub enum Result {
    Unsat,
    Sat,
}

/// Every variable index lies below this bound, so that every literal code
/// fits the machine integer that holds it.
pub const MAX_VARIABLES: i32 = 0x4000_0000;

/// The encoding of the value that the literal with code `code` has when its
/// variable has the value with encoding `raw`: unassigned stays unassigned,
/// and a negated literal exchanges true and false.
pub open spec fn value_under(code: int, raw: int) -> int {
    if raw >= 2 {
        2
    } else if code % 2 == 1 {
        flip(raw)
    } else {
        raw
    }
}

/// The code of the literal that negates the literal with code `code`.
pub open spec fn flip(code: int) -> int {
    if code % 2 == 0 {
        code + 1
    } else {
        code - 1
    }
}

impl Variable {
    /// The index of the variable.
    pub closed spec fn index(self) -> int {
        self.0 as int
    }

    #[verifier::type_invariant]
    pub open spec fn well_formed(self) -> bool {
        0 <= self.index() < MAX_VARIABLES
    }

    /// The variable with index 0.
    pub fn first_variable() -> (v: Variable)
        ensures
            v.index() == 0,
    {
        Variable(0)
    }

    /// The variable with the given index, if the index is one.
    pub fn from_index(index: i32) -> (v: Option<Variable>)
        ensures
            v is Some <==> 0 <= index < MAX_VARIABLES,
            v is Some ==> v->0.index() == index,
    {
        if 0 <= index && index < MAX_VARIABLES {
            Some(Variable(index))
        } else {
            None
        }
    }

    /// The index of the variable, as a number.
    pub fn number(&self) -> (index: i32)
        ensures
            index == self.index(),
    {
        self.0
    }

    /// The variable that follows this one.
    pub fn next_variable(&self) -> (next: Variable)
        requires
            self.index() + 1 < MAX_VARIABLES,
        ensures
            next.index() == self.index() + 1,
    {
        proof {
            use_type_invariant(self);
        }
        Variable(self.0 + 1)
    }

    /// The variable that precedes this one, if there is one.
    pub fn previous_variable(&self) -> (previous: Option<Variable>)
        ensures
            self.index() == 0 ==> previous is None,
            self.index() > 0 ==> previous is Some && previous->0.index() == self.index() - 1,
    {
        proof {
            use_type_invariant(self);
        }
        if self.0 <= 0 {
            None
        } else {
            Some(Variable(self.0 - 1))
        }
    }

    /// The literal that holds when the variable is true.
    pub fn to_positive_literal(&self) -> (lit: Literal)
        ensures
            lit.code() == 2 * self.index(),
    {
        proof {
            use_type_invariant(self);
        }
        let v: i32 = self.0;
        assert(0 <= v < 0x4000_0000 ==> v << 1 == 2 * v) by (bit_vector);
        Literal(v << 1)
    }

    /// The literal that holds when the variable is false.
    pub fn to_negative_literal(&self) -> (lit: Literal)
        ensures
            lit.code() == 2 * self.index() + 1,
    {
        proof {
            use_type_invariant(self);
        }
        let v: i32 = self.0;
        assert(0 <= v < 0x4000_0000 ==> (v << 1) | 1 == 2 * v + 1) by (bit_vector);
        Literal((v << 1) | 1)
    }
}

impl TaggedIndexable for Variable {
    open spec fn indexable(&self) -> bool {
        true
    }

    open spec fn index_value(&self) -> int {
        self.index()
    }

    fn as_index(&self) -> (i: usize) {
        proof {
            use_type_invariant(self);
        }
        self.0 as usize
    }
}

impl Literal {
    /// The code of the literal: twice the index of its variable, plus one if
    /// it is negated.
    pub closed spec fn code(self) -> int {
        self.0 as int
    }

    #[verifier::type_invariant]
    pub open spec fn well_formed(self) -> bool {
        0 <= self.code() < 2 * MAX_VARIABLES
    }

    /// The index of the literal's variable.
    pub open spec fn var_index(self) -> int {
        self.code() / 2
    }

    /// Whether the literal is the negation of its variable.
    pub open spec fn negated(self) -> bool {
        self.code() % 2 == 1
    }

    /// Two literals with the same code are the same literal.
    pub proof fn lemma_code_injective(a: Literal, b: Literal)
        ensures
            a.code() == b.code() <==> a == b,
    {
    }

    /// The variable of the literal.
    pub fn variable(&self) -> (v: Variable)
        ensures
            v.index() == self.var_index(),
    {
        proof {
            use_type_invariant(self);
        }
        let l: i32 = self.0;
        assert(0 <= l ==> l >> 1 == l / 2 && 0 <= l >> 1 < 0x4000_0000) by (bit_vector);
        Variable(l >> 1)
    }

    /// Whether the literal is the negation of its variable.
    pub fn is_negated(&self) -> (b: bool)
        ensures
            b == self.negated(),
    {
        proof {
            use_type_invariant(self);
        }
        let l: i32 = self.0;
        assert(0 <= l ==> l & 1 == l % 2) by (bit_vector);
        l & 1 == 1
    }

    /// The literal of the same variable and the other polarity.
    pub fn negate(&self) -> (lit: Literal)
        ensures
            lit.code() == flip(self.code()),
    {
        proof {
            use_type_invariant(self);
        }
        let l: i32 = self.0;
        assert(0 <= l ==> 0 <= l ^ 1 && l ^ 1 == (if l % 2 == 0 {
            (l + 1) as i32
        } else {
            (l - 1) as i32
        })) by (bit_vector);
        Literal(l ^ 1)
    }

    /// The value of the literal when its variable has the value `v`: the
    /// value of the variable for a positive literal, the opposite for a
    /// negated one, and unassigned when the variable is.
    pub fn under_value(&self, v: Value) -> (value: Value)
        ensures
            value == Value::of_raw(value_under(self.code(), v.raw())),
            value.raw() == value_under(self.code(), v.raw()),
            v.is_unset() ==> value == Value::of_raw(2),
    {
        proof {
            use_type_invariant(self);
            use_type_invariant(v);
        }
        let l: i32 = self.0;
        let x: i8 = v.0;
        assert(0 <= l ==> l & 1 == l % 2) by (bit_vector);
        if x >= 2 {
            Value(2)
        } else if l & 1 == 1 {
            assert(0 <= x <= 1 ==> 0 <= x ^ 1 <= 1 && x ^ 1 == (if x % 2 == 0 {
                (x + 1) as i8
            } else {
                (x - 1) as i8
            })) by (bit_vector);
            Value(x ^ 1)
        } else {
            Value(x)
        }
    }

    /// The value that the literal's variable must take for the literal to be
    /// true.
    pub fn satisfy(&self) -> (value: Value)
        ensures
            value == Value::of_raw(self.code() % 2),
            value.raw() == self.code() % 2,
    {
        proof {
            use_type_invariant(self);
        }
        let l: i32 = self.0;
        assert(0 <= l ==> l & 1 == l % 2 && 0 <= l & 1 <= 1) by (bit_vector);
        let bit: i32 = l & 1;
        if bit == 1 {
            Value(1)
        } else {
            Value(0)
        }
    }
}

impl TaggedIndexable for Literal {
    open spec fn indexable(&self) -> bool {
        true
    }

    open spec fn index_value(&self) -> int {
        self.code()
    }

    fn as_index(&self) -> (i: usize) {
        proof {
            use_type_invariant(self);
        }
        self.0 as usize
    }
}

impl Value {
    /// The number that encodes the value: 0 for true, 1 for false, 2 for
    /// unassigned.
    pub closed spec fn raw(self) -> int {
        self.0 as int
    }

    #[verifier::type_invariant]
    pub open spec fn well_formed(self) -> bool {
        0 <= self.raw() <= 2
    }

    pub open spec fn is_true(self) -> bool {
        self.raw() == 0
    }

    pub open spec fn is_false(self) -> bool {
        self.raw() == 1
    }

    pub open spec fn is_unset(self) -> bool {
        self.raw() >= 2
    }

    /// The value that the number `raw` encodes.
    pub closed spec fn of_raw(raw: int) -> Value {
        Value(raw as i8)
    }

    /// The encoding of the value that `raw` encodes is `raw`.
    pub proof fn lemma_of_raw(raw: int)
        requires
            0 <= raw <= 2,
        ensures
            Value::of_raw(raw).raw() == raw,
    {
    }

    /// Two values with the same encoding are the same value.
    pub proof fn lemma_raw_injective(a: Value, b: Value)
        ensures
            a.raw() == b.raw() <==> a == b,
    {
    }

    /// The value true.
    pub fn lifted_true() -> (v: Value)
        ensures
            v == Value::of_raw(0),
            v.raw() == 0,
    {
        Value(0)
    }

    /// The value false.
    pub fn lifted_false() -> (v: Value)
        ensures
            v == Value::of_raw(1),
            v.raw() == 1,
    {
        Value(1)
    }

    /// The value of a variable that has none.
    pub fn unassigned() -> (v: Value)
        ensures
            v == Value::of_raw(2),
            v.raw() == 2,
    {
        Value(2)
    }

    /// Whether the value is neither true nor false.
    pub fn is_unassigned(&self) -> (b: bool)
        ensures
            b == self.is_unset(),
    {
        self.0 >= 2
    }
}

/// The variable that follows `v`.
pub fn next_variable(v: Variable) -> (next: Variable)
    requires
        v.index() + 1 < MAX_VARIABLES,
    ensures
        next.index() == v.index() + 1,
{
    v.next_variable()
}

/// The variable that precedes `v`, if there is one.
pub fn previous_variable(v: Variable) -> (previous: Option<Variable>)
    ensures
        v.index() == 0 ==> previous is None,
        v.index() > 0 ==> previous is Some && previous->0.index() == v.index() - 1,
{
    v.previous_variable()
}

/// The literal that holds when `v` is true.
pub fn to_positive_literal(v: Variable) -> (lit: Literal)
    ensures
        lit.code() == 2 * v.index(),
{
    v.to_positive_literal()
}

/// The literal that holds when `v` is false.
pub fn to_negative_literal(v: Variable) -> (lit: Literal)
    ensures
        lit.code() == 2 * v.index() + 1,
{
    v.to_negative_literal()
}

/// The literal of the same variable as `l` and the other polarity.
pub fn negate_literal(l: Literal) -> (lit: Literal)
    ensures
        lit.code() == flip(l.code()),
{
    l.negate()
}

/// Whether `l` is the negation of its variable.
pub fn is_negated(l: Literal) -> (b: bool)
    ensures
        b == l.negated(),
{
    l.is_negated()
}

/// The variable of `l`.
pub fn variable(l: Literal) -> (v: Variable)
    ensures
        v.index() == l.var_index(),
{
    l.variable()
}

/// The value of `l` when its variable has the value `v`.
pub fn lit_val(l: Literal, v: Value) -> (value: Value)
    ensures
        value == Value::of_raw(value_under(l.code(), v.raw())),
        value.raw() == value_under(l.code(), v.raw()),
        v.is_unset() ==> value == Value::of_raw(2),
{
    l.under_value(v)
}

/// Whether `v` is neither true nor false.
pub fn is_unassigned(v: Value) -> (b: bool)
    ensures
        b == v.is_unset(),
{
    v.is_unassigned()
}

} // verus!
