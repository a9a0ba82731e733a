//! Why the answer of the solver is right for the problem that it was given,
//! and not only for the clauses that the engine saw.

use crate::invariants::lemma_true_on_trail;
use crate::literal::{flip, Literal};
use crate::model::{agrees, clause_holds, holds, models, satisfiable};
use crate::preprocess::{
    distinct, has_empty, kept, lemma_distinct, lemma_distinct_holds, lemma_kept, lemma_unit_values,
    unit_conflicts, within,
};
use crate::propagation::lemma_reordered_holds;
use crate::search::{lemma_holds_negation, lemma_valuation_holds, valuation_of};
use crate::state::{clauses_ok, extends, reordered, StateView};
use vstd::prelude::*;

verus! {

/// The kept clauses can stand in the store of the engine.
pub proof fn lemma_kept_ok(f: Seq<Seq<Literal>>, n: int)
    requires
        within(f, n),
        f.len() <= i64::MAX,
        forall|k: int| 0 <= k < f.len() ==> (#[trigger] f[k]).no_duplicates(),
    ensures
        clauses_ok(kept(f), n),
{
    lemma_kept(f);
    let g = kept(f);
    assert forall|j: int| 0 <= j < g.len() implies (#[trigger] g[j]).len() >= 2 && (forall|i: int|
        0 <= i < g[j].len() ==> 0 <= (#[trigger] g[j][i]).code() < 2 * n) && (forall|
        i: int,
        i2: int,
    | 0 <= i < i2 < g[j].len() ==> (#[trigger] g[j][i]).code() != (#[trigger] g[j][i2]).code()) by {
        let k = choose|k: int|
            0 <= k < f.len() && #[trigger] g[j] == #[trigger] f[k] && g[j].len() >= 2;
        assert forall|i: int| 0 <= i < g[j].len() implies 0 <= (#[trigger] g[j][i]).code() < 2
            * n by {
            assert(0 <= f[k][i].code() < 2 * n);
        }
        assert forall|i: int, i2: int| 0 <= i < i2 < g[j].len() implies (#[trigger] g[j][i]).code()
            != (#[trigger] g[j][i2]).code() by {
            assert(g[j][i] != g[j][i2]);
            Literal::lemma_code_injective(g[j][i], g[j][i2]);
        }
    }
}

/// A problem with a clause without literals, or with two clauses of one
/// literal each that contradict each other, is unsatisfiable.
pub proof fn lemma_unsat_early(f: Seq<Seq<Literal>>, n: int)
    requires
        within(f, n),
        0 <= n,
        has_empty(f) || unit_conflicts(f, n).len() > 0,
    ensures
        !satisfiable(f),
{
    assert forall|m: spec_fn(int) -> bool| !models(m, f) by {
        if has_empty(f) {
            let k = choose|k: int| 0 <= k < f.len() && (#[trigger] f[k]).len() == 0;
            assert(!clause_holds(m, f[k]));
        } else {
            lemma_unit_values(f, n);
            let (j, k) = choose|j: int, k: int|
                0 <= j < f.len() && 0 <= k < f.len() && (#[trigger] f[j]).len() == 1
                    && (#[trigger] f[k]).len() == 1 && f[j][0].code() == flip(
                    f[k][0].code(),
                );
            let a = f[j][0];
            let b = f[k][0];
            assert(0 <= f[k][0].code());
            lemma_holds_negation(m, b, a);
            if models(m, f) {
                assert(clause_holds(m, f[j]));
                assert(clause_holds(m, f[k]));
                let x = choose|x: int|
                    0 <= x < f[j].len() && holds(m, #[trigger] f[j][x]);
                let y = choose|y: int|
                    0 <= y < f[k].len() && holds(m, #[trigger] f[k][y]);
            }
        }
    }
}

/// The trail holds the values that the clauses of one literal give, and
/// nothing else: the state in which the search starts.
pub open spec fn units_asserted(f: Seq<Seq<Literal>>, s: StateView) -> bool {
    &&& forall|i: int|
        0 <= i < s.trail.len() ==> exists|k: int|
            0 <= k < f.len() && (#[trigger] f[k]).len() == 1 && f[k][0]
                == #[trigger] s.trail[i]
    &&& forall|k: int|
        0 <= k < f.len() && (#[trigger] f[k]).len() == 1 ==> s.lit_true(f[k][0])
}

/// Where the search found every kept clause true, the problem is
/// satisfiable.
pub proof fn lemma_sat_answer(
    f: Seq<Seq<Literal>>,
    n: int,
    root: StateView,
    last: StateView,
    clauses: Seq<Seq<Literal>>,
)
    requires
        within(f, n),
        !has_empty(f),
        root.wf(),
        last.wf(),
        root.num_vars() == n,
        last.num_vars() == n,
        units_asserted(f, root),
        extends(root.trail, last.trail),
        reordered(kept(f), clauses),
        clauses_ok(clauses, n),
        forall|j: int| 0 <= j < clauses.len() ==> last.satisfied(#[trigger] clauses[j]),
    ensures
        satisfiable(f),
{
    let m = valuation_of(last);
    lemma_kept(f);
    assert forall|k: int| 0 <= k < f.len() implies clause_holds(m, #[trigger] f[k]) by {
        let d = f[k];
        assert(f[k].len() > 0);
        if d.len() == 1 {
            let l = d[0];
            assert(0 <= f[k][0].code() < 2 * n);
            assert(root.lit_true(l));
            lemma_true_on_trail(root, l);
            let i = choose|i: int| 0 <= i < root.trail.len() && #[trigger] root.trail[i] == l;
            assert(last.trail[i] == last.trail.subrange(0, root.trail.len() as int)[i]);
            assert(last.lit_true(last.trail[i]));
            lemma_valuation_holds(last, l);
            assert(holds(m, d[0]));
        } else {
            let j = choose|j: int| 0 <= j < kept(f).len() && #[trigger] kept(f)[j] == d;
            assert(last.satisfied(clauses[j]));
            let i = choose|i: int|
                0 <= i < clauses[j].len() && last.lit_true(#[trigger] clauses[j][i]);
            assert(last.in_range(clauses[j][i]));
            lemma_valuation_holds(last, clauses[j][i]);
            assert(clause_holds(m, clauses[j]));
            assert(clauses[j].to_multiset() == kept(f)[j].to_multiset());
            lemma_reordered_holds(m, clauses[j], kept(f)[j]);
        }
    }
    assert(models(m, f));
}

/// Where no valuation makes the kept clauses and the literals of the
/// clauses of one literal true, the problem is unsatisfiable.
pub proof fn lemma_unsat_answer(f: Seq<Seq<Literal>>, root: StateView)
    requires
        units_asserted(f, root),
        forall|m: spec_fn(int) -> bool| !(models(m, kept(f)) && agrees(m, root.trail)),
    ensures
        !satisfiable(f),
{
    lemma_kept(f);
    assert forall|m: spec_fn(int) -> bool| !models(m, f) by {
        if models(m, f) {
            assert forall|j: int| 0 <= j < kept(f).len() implies clause_holds(
                m,
                #[trigger] kept(f)[j],
            ) by {
                let k = choose|k: int|
                    0 <= k < f.len() && #[trigger] kept(f)[j] == #[trigger] f[k] && kept(
                        f,
                    )[j].len() >= 2;
                assert(clause_holds(m, f[k]));
            }
            assert forall|i: int| 0 <= i < root.trail.len() implies holds(
                m,
                #[trigger] root.trail[i],
            ) by {
                let k = choose|k: int|
                    0 <= k < f.len() && (#[trigger] f[k]).len() == 1 && f[k][0]
                        == root.trail[i];
                assert(clause_holds(m, f[k]));
                let x = choose|x: int|
                    0 <= x < f[k].len() && holds(m, #[trigger] f[k][x]);
            }
            assert(models(m, kept(f)));
            assert(agrees(m, root.trail));
        }
    }
}

/// Striking the literals that a clause holds already changes nothing for
/// satisfiability, keeps the variables in their range, and leaves clauses
/// that hold no literal twice.
pub proof fn lemma_struck(given: Seq<Seq<Literal>>, f: Seq<Seq<Literal>>, n: int)
    requires
        f.len() == given.len(),
        forall|k: int| 0 <= k < given.len() ==> #[trigger] f[k] == distinct(given[k]),
        within(given, n),
    ensures
        satisfiable(f) == satisfiable(given),
        within(f, n),
        forall|k: int| 0 <= k < f.len() ==> (#[trigger] f[k]).no_duplicates(),
{
    assert forall|m: spec_fn(int) -> bool| models(m, f) == models(m, given) by {
        if models(m, f) {
            assert forall|k: int| 0 <= k < given.len() implies clause_holds(
                m,
                #[trigger] given[k],
            ) by {
                assert(clause_holds(m, f[k]));
                lemma_distinct_holds(m, given[k]);
            }
        }
        if models(m, given) {
            assert forall|k: int| 0 <= k < f.len() implies clause_holds(m, #[trigger] f[k]) by {
                assert(clause_holds(m, given[k]));
                lemma_distinct_holds(m, given[k]);
            }
        }
    }
    if satisfiable(f) {
        let m = choose|m: spec_fn(int) -> bool| models(m, f);
        assert(models(m, given));
    }
    if satisfiable(given) {
        let m = choose|m: spec_fn(int) -> bool| models(m, given);
        assert(models(m, f));
    }
    assert forall|k: int, i: int| 0 <= k < f.len() && 0 <= i < f[k].len() implies 0 <= (
    #[trigger] f[k][i]).code() < 2 * n by {
        lemma_distinct(given[k]);
        assert(f[k].contains(f[k][i]));
        assert(given[k].contains(f[k][i]));
        let o = choose|o: int| 0 <= o < given[k].len() && given[k][o] == f[k][i];
        assert(0 <= given[k][o].code() < 2 * n);
    }
    assert forall|k: int| 0 <= k < f.len() implies (#[trigger] f[k]).no_duplicates() by {
        lemma_distinct(given[k]);
    }
}

} // verus!
