//! Preprocessing: what is done to the clauses of a problem before the
//! engine sees them.
//!
//! First a literal that a clause holds more than once is struck but where
//! it stands first, since the engine watches two different literals of each
//! clause. Then a clause without literals makes the problem unsatisfiable; a
//! clause of one literal gives its variable a value, and two such clauses
//! are a conflict if they give one variable both values. Only the clauses of
//! two literals or more go to the engine, as they are.

use crate::clause::{Clause, ClauseHeader};
use crate::literal::{flip, Literal, Value, Variable};
use crate::model::{clause_holds, holds};
use crate::tagged::TaggedVec;
use vstd::prelude::*;

verus! {

/// The literals of `c`, each at the place where it stands first.
pub open spec fn distinct(c: Seq<Literal>) -> Seq<Literal>
    decreases c.len(),
{
    if c.len() == 0 {
        c
    } else if distinct(c.drop_last()).contains(c.last()) {
        distinct(c.drop_last())
    } else {
        distinct(c.drop_last()).push(c.last())
    }
}

/// The literals of each clause of a list.
pub open spec fn formula(clauses: Seq<Clause>) -> Seq<Seq<Literal>> {
    Seq::new(clauses.len(), |k: int| clauses[k].literals())
}

/// The clauses of `f` with two literals or more, in the order of `f`.
pub open spec fn kept(f: Seq<Seq<Literal>>) -> Seq<Seq<Literal>>
    decreases f.len(),
{
    if f.len() == 0 {
        Seq::empty()
    } else if f.last().len() >= 2 {
        kept(f.drop_last()).push(f.last())
    } else {
        kept(f.drop_last())
    }
}

/// The values that the clauses of one literal of `f` give to the `n`
/// variables. Where two of them disagree, the first counts.
pub open spec fn unit_values(f: Seq<Seq<Literal>>, n: int) -> Seq<Value>
    decreases f.len(),
{
    if f.len() == 0 {
        Seq::new(n as nat, |v: int| Value::of_raw(2))
    } else {
        let before = unit_values(f.drop_last(), n);
        let d = f.last();
        if d.len() == 1 && before[d[0].var_index()].is_unset() {
            before.update(d[0].var_index(), Value::of_raw(d[0].code() % 2))
        } else {
            before
        }
    }
}

/// The variables of the clauses of one literal of `f` that give their
/// variable another value than a clause before them, in the order of `f`.
pub open spec fn unit_conflicts(f: Seq<Seq<Literal>>, n: int) -> Seq<int>
    decreases f.len(),
{
    if f.len() == 0 {
        Seq::empty()
    } else {
        let before = unit_values(f.drop_last(), n);
        let d = f.last();
        if d.len() == 1 && !before[d[0].var_index()].is_unset() && before[d[0].var_index()].raw()
            != d[0].code() % 2 {
            unit_conflicts(f.drop_last(), n).push(d[0].var_index())
        } else {
            unit_conflicts(f.drop_last(), n)
        }
    }
}

/// Some clause of `f` has no literal.
pub open spec fn has_empty(f: Seq<Seq<Literal>>) -> bool {
    exists|k: int| 0 <= k < f.len() && (#[trigger] f[k]).len() == 0
}

/// `distinct` keeps every literal, and each once.
pub proof fn lemma_distinct(c: Seq<Literal>)
    ensures
        distinct(c).no_duplicates(),
        distinct(c).len() <= c.len(),
        forall|x: Literal| distinct(c).contains(x) <==> c.contains(x),
        c.no_duplicates() ==> distinct(c) == c,
        c.len() > 0 ==> distinct(c).len() > 0,
    decreases c.len(),
{
    if c.len() > 0 {
        let front = c.drop_last();
        lemma_distinct(front);
        assert forall|x: Literal| distinct(c).contains(x) <==> c.contains(x) by {
            if c.contains(x) {
                let i = choose|i: int| 0 <= i < c.len() && c[i] == x;
                if i < front.len() {
                    assert(front[i] == x);
                    assert(front.contains(x));
                    assert(distinct(front).contains(x));
                    let j = choose|j: int| 0 <= j < distinct(front).len() && distinct(front)[j] == x;
                    assert(distinct(c)[j] == x);
                } else {
                    assert(x == c.last());
                    if !distinct(front).contains(c.last()) {
                        assert(distinct(c)[distinct(front).len() as int] == x);
                    }
                }
            }
            if distinct(c).contains(x) {
                let j = choose|j: int| 0 <= j < distinct(c).len() && distinct(c)[j] == x;
                if j < distinct(front).len() {
                    assert(distinct(front)[j] == x);
                    assert(distinct(front).contains(x));
                    assert(front.contains(x));
                    let i = choose|i: int| 0 <= i < front.len() && front[i] == x;
                    assert(c[i] == x);
                } else {
                    assert(c[c.len() - 1] == x);
                }
            }
        }
        if c.no_duplicates() {
            assert(front.no_duplicates());
            assert(!front.contains(c.last())) by {
                if front.contains(c.last()) {
                    let i = choose|i: int| 0 <= i < front.len() && front[i] == c.last();
                    assert(c[i] == c[c.len() - 1]);
                }
            }
            assert(distinct(c) =~= c);
        }
        if front.len() == 0 {
            assert(!distinct(front).contains(c.last()));
        }
    }
}

/// A clause that has as many distinct literals as literals has each once.
pub proof fn lemma_distinct_full(c: Seq<Literal>)
    requires
        distinct(c).len() == c.len(),
    ensures
        distinct(c) == c,
    decreases c.len(),
{
    if c.len() > 0 {
        let front = c.drop_last();
        lemma_distinct(front);
        lemma_distinct_full(front);
        assert(distinct(c) =~= c);
    }
}

/// A valuation makes a clause true if and only if it makes the clause of its
/// distinct literals true.
pub proof fn lemma_distinct_holds(m: spec_fn(int) -> bool, c: Seq<Literal>)
    ensures
        clause_holds(m, distinct(c)) == clause_holds(m, c),
{
    lemma_distinct(c);
    let d = distinct(c);
    if clause_holds(m, c) {
        let i = choose|i: int| 0 <= i < c.len() && holds(m, #[trigger] c[i]);
        assert(c.contains(c[i]));
        assert(d.contains(c[i]));
        let j = choose|j: int| 0 <= j < d.len() && d[j] == c[i];
        assert(holds(m, d[j]));
    }
    if clause_holds(m, d) {
        let j = choose|j: int| 0 <= j < d.len() && holds(m, #[trigger] d[j]);
        assert(d.contains(d[j]));
        assert(c.contains(d[j]));
        let i = choose|i: int| 0 <= i < c.len() && c[i] == d[j];
        assert(holds(m, c[i]));
    }
}

/// The kept clauses are the clauses of two literals or more.
pub proof fn lemma_kept(f: Seq<Seq<Literal>>)
    ensures
        forall|j: int|
            0 <= j < kept(f).len() ==> exists|k: int|
                0 <= k < f.len() && #[trigger] kept(f)[j] == #[trigger] f[k] && kept(
                    f,
                )[j].len() >= 2,
        forall|k: int|
            0 <= k < f.len() && (#[trigger] f[k]).len() >= 2 ==> exists|j: int|
                0 <= j < kept(f).len() && #[trigger] kept(f)[j] == f[k],
        kept(f).len() <= f.len(),
    decreases f.len(),
{
    if f.len() > 0 {
        let front = f.drop_last();
        lemma_kept(front);
        assert forall|j: int| 0 <= j < kept(f).len() implies exists|k: int|
            0 <= k < f.len() && #[trigger] kept(f)[j] == #[trigger] f[k] && kept(
                f,
            )[j].len() >= 2 by {
            if j < kept(front).len() {
                assert(kept(f)[j] == kept(front)[j]);
                let k = choose|k: int|
                    0 <= k < front.len() && #[trigger] kept(front)[j] == #[trigger] front[k] && kept(front)[j].len() >= 2;
                assert(front[k] == f[k]);
            } else {
                assert(kept(f)[j] == f[f.len() - 1]);
            }
        }
        assert forall|k: int|
            0 <= k < f.len() && (#[trigger] f[k]).len() >= 2 implies exists|j: int|
            0 <= j < kept(f).len() && #[trigger] kept(f)[j] == f[k] by {
            if k < front.len() {
                assert(front[k] == f[k]);
                let j = choose|j: int|
                    0 <= j < kept(front).len() && #[trigger] kept(front)[j] == front[k];
                assert(kept(f)[j] == kept(front)[j]);
            } else {
                assert(kept(f)[kept(front).len() as int] == f[k]);
            }
        }
    }
}

/// A variable is in range for the clauses of `f` if every literal of them
/// speaks of one of the first `n` variables.
pub open spec fn within(f: Seq<Seq<Literal>>, n: int) -> bool {
    forall|k: int, i: int|
        0 <= k < f.len() && 0 <= i < f[k].len() ==> 0 <= (#[trigger] f[k][i]).code() < 2 * n
}

/// What the unit values are: each comes from a clause of one literal, and
/// without conflicts each such clause has its literal true.
pub proof fn lemma_unit_values(f: Seq<Seq<Literal>>, n: int)
    requires
        within(f, n),
        0 <= n,
    ensures
        unit_values(f, n).len() == n,
        forall|v: int| 0 <= v < n ==> 0 <= (#[trigger] unit_values(f, n)[v]).raw() <= 2,
        forall|v: int|
            0 <= v < n && !(#[trigger] unit_values(f, n)[v]).is_unset() ==> exists|k: int|
                0 <= k < f.len() && (#[trigger] f[k]).len() == 1 && f[k][0].var_index() == v
                    && f[k][0].code() % 2 == unit_values(f, n)[v].raw(),
        unit_conflicts(f, n).len() == 0 ==> forall|k: int|
            0 <= k < f.len() && (#[trigger] f[k]).len() == 1 ==> unit_values(
                f,
                n,
            )[f[k][0].var_index()].raw() == f[k][0].code() % 2,
        unit_conflicts(f, n).len() > 0 ==> exists|j: int, k: int|
            0 <= j < f.len() && 0 <= k < f.len() && (#[trigger] f[j]).len() == 1
                && (#[trigger] f[k]).len() == 1 && f[j][0].code() == flip(
                f[k][0].code(),
            ),
    decreases f.len(),
{
    Value::lemma_of_raw(2);
    if f.len() > 0 {
        let front = f.drop_last();
        let last = f.len() - 1;
        assert(within(front, n)) by {
            assert forall|k: int, i: int|
                0 <= k < front.len() && 0 <= i < front[k].len() implies 0 <= (
            #[trigger] front[k][i]).code() < 2 * n by {
                assert(front[k] == f[k]);
                assert(0 <= f[k][i].code() < 2 * n);
            }
        }
        lemma_unit_values(front, n);
        let before = unit_values(front, n);
        let d = f[last];
        if d.len() == 1 {
            assert(0 <= f[last][0].code() < 2 * n);
            Value::lemma_of_raw(d[0].code() % 2);
        }
        let now = unit_values(f, n);
        assert forall|v: int| 0 <= v < n && !(#[trigger] now[v]).is_unset() implies exists|k: int|
            0 <= k < f.len() && (#[trigger] f[k]).len() == 1 && f[k][0].var_index() == v
                && f[k][0].code() % 2 == now[v].raw() by {
            if d.len() == 1 && before[d[0].var_index()].is_unset() && v == d[0].var_index() {
                assert(f[last].len() == 1);
            } else {
                assert(now[v] == before[v]);
                let k = choose|k: int|
                    0 <= k < front.len() && (#[trigger] front[k]).len() == 1 && front[k][0].var_index()
                        == v && front[k][0].code() % 2 == before[v].raw();
                assert(front[k] == f[k]);
            }
        }
        if unit_conflicts(f, n).len() == 0 {
            assert(unit_conflicts(front, n).len() == 0);
            assert forall|k: int|
                0 <= k < f.len() && (#[trigger] f[k]).len() == 1 implies now[f[k][0].var_index()].raw() == f[k][0].code() % 2 by {
                if k < front.len() {
                    assert(front[k] == f[k]);
                    let x = f[k][0];
                    assert(before[x.var_index()].raw() == x.code() % 2);
                    assert(0 <= f[k][0].code() < 2 * n);
                }
            }
        } else {
            if unit_conflicts(front, n).len() > 0 {
                let (j, k) = choose|j: int, k: int|
                    0 <= j < front.len() && 0 <= k < front.len() && (#[trigger] front[j]).len() == 1 && (#[trigger] front[k]).len() == 1 && front[j][0].code() == flip(front[k][0].code());
                assert(front[j] == f[j]);
                assert(front[k] == f[k]);
            } else {
                let v = d[0].var_index();
                let k = choose|k: int|
                    0 <= k < front.len() && (#[trigger] front[k]).len() == 1 && front[k][0].var_index()
                        == v && front[k][0].code() % 2 == before[v].raw();
                assert(front[k] == f[k]);
                assert(f[last][0].code() == flip(f[k][0].code()));
            }
        }
    }
}

} // verus!

verus! {

/// The clauses of a list that have two literals or more, in the order of the
/// list.
pub open spec fn kept_clauses(clauses: Seq<Clause>) -> Seq<Clause>
    decreases clauses.len(),
{
    if clauses.len() == 0 {
        Seq::empty()
    } else if clauses.last().literals().len() >= 2 {
        kept_clauses(clauses.drop_last()).push(clauses.last())
    } else {
        kept_clauses(clauses.drop_last())
    }
}

/// The clause `struck` holds the distinct literals of the clause `given`, and
/// has its identifier and its activity.
pub open spec fn struck_from(struck: Clause, given: Clause) -> bool {
    &&& struck.literals() == distinct(given.literals())
    &&& struck.header().id == given.header().id
    &&& struck.header().activity == given.header().activity
    &&& struck.well_formed()
}

/// What preprocessing found.
pub struct PreprocessResult {
    /// The values that the clauses of one literal give.
    pub initial_assignment: TaggedVec<Variable, Value>,
    /// The variables to which such clauses give both values.
    pub conflict_vars: Vec<Variable>,
    /// Whether a clause has no literal.
    pub empty_clause: bool,
}

/// The literals of `cl`, each at the place where it stands first.
pub fn distinct_literals(cl: &Clause) -> (lits: Vec<Literal>)
    requires
        cl.well_formed(),
    ensures
        lits@ == distinct(cl.literals()),
{
    let ghost c = cl.literals();
    let mut out: Vec<Literal> = Vec::new();
    let count = cl.lit_count();
    let mut i: usize = 0;
    assert(c.take(0) =~= Seq::<Literal>::empty());
    while i < count
        invariant
            0 <= i <= count,
            count == c.len(),
            c == cl.literals(),
            out@ == distinct(c.take(i as int)),
        decreases count - i,
    {
        let l: Literal = *cl.index(i);
        let mut found = false;
        let mut j: usize = 0;
        while j < out.len()
            invariant
                0 <= j <= out.len(),
                found == exists|q: int| 0 <= q < j && out@[q] == l,
            decreases out.len() - j,
        {
            if out[j] == l {
                found = true;
            }
            j = j + 1;
        }
        proof {
            assert(c.take(i + 1).drop_last() =~= c.take(i as int));
            assert(c.take(i + 1).last() == l);
            assert(found == out@.contains(l));
        }
        if !found {
            out.push(l);
        }
        i = i + 1;
    }
    assert(c.take(count as int) =~= c);
    out
}

/// Strikes from each clause the literals that it holds already: each
/// clause keeps its distinct literals, in the order in which they stand
/// first, with its identifier and its activity. A clause that holds no
/// literal twice stays as it is.
pub fn remove_repeated_literals(clauses: &mut Vec<Clause>)
    requires
        forall|k: int| 0 <= k < old(clauses)@.len() ==> (#[trigger] old(clauses)@[k]).well_formed(),
    ensures
        final(clauses)@.len() == old(clauses)@.len(),
        forall|k: int|
            0 <= k < old(clauses)@.len() ==> struck_from(
                #[trigger] final(clauses)@[k],
                old(clauses)@[k],
            ),
        forall|k: int|
            0 <= k < old(clauses)@.len() && old(clauses)@[k].literals().no_duplicates() ==> (
            #[trigger] final(clauses)@[k]) == old(clauses)@[k],
{
    let mut input: Vec<Clause> = Vec::new();
    std::mem::swap(clauses, &mut input);
    for cl in it: input.into_iter()
        invariant
            it.seq() == input@,
            forall|k: int| 0 <= k < input@.len() ==> (#[trigger] input@[k]).well_formed(),
            clauses@.len() == it.index(),
            forall|k: int| 0 <= k < it.index() ==> struck_from(#[trigger] clauses@[k], input@[k]),
            forall|k: int|
                0 <= k < it.index() && input@[k].literals().no_duplicates() ==> (
                #[trigger] clauses@[k]) == input@[k],
    {
        let lits = distinct_literals(&cl);
        proof {
            lemma_distinct(cl.literals());
        }
        if lits.len() == cl.lit_count() {
            proof {
                lemma_distinct_full(cl.literals());
            }
            clauses.push(cl);
        } else {
            let head = ClauseHeader {
                id: cl.identifier(),
                lit_count: lits.len(),
                activity: cl.activity(),
            };
            clauses.push(Clause::new(head, lits));
        }
    }
}

/// Goes through the clauses of a problem whose variables come before
/// `next_var`. Those of two literals or more stay, as they are and in their
/// order; one of a single literal gives the variable its value, or is a
/// conflict where an earlier one gave it the other; one without literals is
/// reported.
pub fn preprocess(clauses: &mut Vec<Clause>, next_var: &Variable) -> (result: PreprocessResult)
    requires
        forall|k: int| 0 <= k < old(clauses)@.len() ==> (#[trigger] old(clauses)@[k]).well_formed(),
        within(formula(old(clauses)@), next_var.index() + 1),
    ensures
        final(clauses)@ == kept_clauses(old(clauses)@),
        formula(final(clauses)@) == kept(formula(old(clauses)@)),
        forall|j: int| 0 <= j < final(clauses)@.len() ==> (#[trigger] final(clauses)@[j]).well_formed(),
        result.initial_assignment@ == unit_values(formula(old(clauses)@), next_var.index() + 1),
        result.conflict_vars@.len() == unit_conflicts(
            formula(old(clauses)@),
            next_var.index() + 1,
        ).len(),
        forall|i: int|
            0 <= i < result.conflict_vars@.len() ==> (#[trigger] result.conflict_vars@[i]).index()
                == unit_conflicts(formula(old(clauses)@), next_var.index() + 1)[i],
        result.empty_clause == has_empty(formula(old(clauses)@)),
{
    let ghost f = formula(clauses@);
    let ghost n = next_var.index() + 1;
    let mut pr = PreprocessResult {
        initial_assignment: TaggedVec::new(),
        conflict_vars: Vec::new(),
        empty_clause: false,
    };
    proof {
        use_type_invariant(next_var);
    }
    pr.initial_assignment.ensure_index(next_var, Value::unassigned());
    assert(pr.initial_assignment@ =~= unit_values(f.take(0), n));
    let mut input: Vec<Clause> = Vec::new();
    std::mem::swap(clauses, &mut input);
    assert(formula(clauses@) =~= kept(f.take(0)));
    assert(clauses@ =~= kept_clauses(input@.take(0)));
    assert(formula(input@) == f);
    for cl in it: input.into_iter()
        invariant
            it.seq() == input@,
            f == formula(input@),
            n == next_var.index() + 1,
            0 < n,
            within(f, n),
            forall|k: int| 0 <= k < input@.len() ==> (#[trigger] input@[k]).well_formed(),
            clauses@ == kept_clauses(input@.take(it.index() as int)),
            formula(clauses@) == kept(f.take(it.index() as int)),
            forall|j: int| 0 <= j < clauses@.len() ==> (#[trigger] clauses@[j]).well_formed(),
            pr.initial_assignment@ == unit_values(f.take(it.index() as int), n),
            pr.conflict_vars@.len() == unit_conflicts(f.take(it.index() as int), n).len(),
            forall|i: int|
                0 <= i < pr.conflict_vars@.len() ==> (#[trigger] pr.conflict_vars@[i]).index()
                    == unit_conflicts(f.take(it.index() as int), n)[i],
            pr.empty_clause == has_empty(f.take(it.index() as int)),
    {
        let ghost at = it.index() as int;
        let ghost front = f.take(at);
        let ghost upto = f.take(at + 1);
        proof {
            assert(cl == input@[at]);
            assert(upto.drop_last() =~= front);
            assert(upto.last() == cl.literals());
            assert(input@.take(at + 1).drop_last() =~= input@.take(at));
            assert(input@.take(at + 1).last() == cl);
            assert(f[at] == cl.literals());
            assert(within(front, n)) by {
                assert forall|k: int, i: int|
                    0 <= k < front.len() && 0 <= i < front[k].len() implies 0 <= (
                #[trigger] front[k][i]).code() < 2 * n by {
                    assert(front[k] == f[k]);
                    assert(0 <= f[k][i].code() < 2 * n);
                }
            }
            lemma_unit_values(front, n);
            assert(has_empty(upto) == (has_empty(front) || cl.literals().len() == 0)) by {
                if has_empty(upto) {
                    let k = choose|k: int| 0 <= k < upto.len() && (#[trigger] upto[k]).len() == 0;
                    if k < at {
                        assert(front[k] == upto[k]);
                    }
                }
                if has_empty(front) {
                    let k = choose|k: int| 0 <= k < front.len() && (#[trigger] front[k]).len() == 0;
                    assert(upto[k] == front[k]);
                }
                if cl.literals().len() == 0 {
                    assert(upto[at].len() == 0);
                }
            }
        }
        let count = cl.lit_count();
        if count == 0 {
            pr.empty_clause = true;
        } else if count == 1 {
            let single: Literal = *cl.index(0);
            proof {
                assert(0 <= f[at][0].code() < 2 * n);
            }
            let var = single.variable();
            let current: Value = *pr.initial_assignment.index(var);
            let wanted = single.satisfy();
            if current.is_unassigned() {
                *pr.initial_assignment.index_mut(var) = wanted;
            } else if wanted != current {
                proof {
                    Value::lemma_raw_injective(wanted, current);
                }
                pr.conflict_vars.push(var);
            } else {
                proof {
                    Value::lemma_raw_injective(wanted, current);
                }
            }
        } else {
            clauses.push(cl);
            assert(formula(clauses@) =~= kept(upto));
        }
    }
    assert(f.take(input@.len() as int) =~= f);
    assert(input@.take(input@.len() as int) =~= input@);
    pr
}

} // verus!
