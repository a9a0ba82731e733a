//! What it means for a formula to be satisfied.
//!
//! A formula is a sequence of clauses, a clause a sequence of literals, and a
//! valuation gives every variable index a truth value.

use crate::literal::Literal;
use vstd::prelude::*;

verus! {

/// The literal `l` is true in the valuation `m`.
pub open spec fn holds(m: spec_fn(int) -> bool, l: Literal) -> bool {
    m(l.var_index()) != l.negated()
}

/// Some literal of the clause `c` is true in `m`.
pub open spec fn clause_holds(m: spec_fn(int) -> bool, c: Seq<Literal>) -> bool {
    exists|i: int| 0 <= i < c.len() && holds(m, #[trigger] c[i])
}

/// Every clause of the formula `f` is true in `m`.
pub open spec fn models(m: spec_fn(int) -> bool, f: Seq<Seq<Literal>>) -> bool {
    forall|k: int| 0 <= k < f.len() ==> clause_holds(m, #[trigger] f[k])
}

/// Some valuation makes every clause of `f` true.
pub open spec fn satisfiable(f: Seq<Seq<Literal>>) -> bool {
    exists|m: spec_fn(int) -> bool| models(m, f)
}

/// Every literal of `lits` is true in `m`.
pub open spec fn agrees(m: spec_fn(int) -> bool, lits: Seq<Literal>) -> bool {
    forall|i: int| 0 <= i < lits.len() ==> holds(m, #[trigger] lits[i])
}

/// The literal with the code `code` is true in the valuation `m`.
pub open spec fn code_holds(m: spec_fn(int) -> bool, code: int) -> bool {
    m(code / 2) != (code % 2 == 1)
}

/// Some literal of the clause with the codes `c` is true in `m`.
pub open spec fn clause_codes_hold(m: spec_fn(int) -> bool, c: Seq<int>) -> bool {
    exists|i: int| 0 <= i < c.len() && code_holds(m, #[trigger] c[i])
}

/// Every clause of the formula with the codes `f` is true in `m`.
pub open spec fn models_codes(m: spec_fn(int) -> bool, f: Seq<Seq<int>>) -> bool {
    forall|k: int| 0 <= k < f.len() ==> clause_codes_hold(m, #[trigger] f[k])
}

/// Some valuation makes every clause true, the clauses given by the codes
/// of their literals.
pub open spec fn satisfiable_codes(f: Seq<Seq<int>>) -> bool {
    exists|m: spec_fn(int) -> bool| models_codes(m, f)
}

/// The codes of the literals of a clause.
pub open spec fn codes(c: Seq<Literal>) -> Seq<int> {
    Seq::new(c.len(), |i: int| c[i].code())
}

/// A formula is satisfiable if and only if the codes of its literals say
/// so.
pub proof fn lemma_satisfiable_codes(f: Seq<Seq<Literal>>, g: Seq<Seq<int>>)
    requires
        g.len() == f.len(),
        forall|k: int| 0 <= k < f.len() ==> codes(#[trigger] f[k]) == g[k],
    ensures
        satisfiable(f) == satisfiable_codes(g),
{
    if satisfiable(f) {
        let m = choose|m: spec_fn(int) -> bool| models(m, f);
        assert forall|k: int| 0 <= k < g.len() implies clause_codes_hold(m, #[trigger] g[k]) by {
            assert(clause_holds(m, f[k]));
            let i = choose|i: int| 0 <= i < f[k].len() && holds(m, #[trigger] f[k][i]);
            assert(codes(f[k])[i] == f[k][i].code());
            assert(code_holds(m, g[k][i]));
        }
        assert(models_codes(m, g));
    }
    if satisfiable_codes(g) {
        let m = choose|m: spec_fn(int) -> bool| models_codes(m, g);
        assert forall|k: int| 0 <= k < f.len() implies clause_holds(m, #[trigger] f[k]) by {
            assert(codes(f[k]) == g[k]);
            assert(clause_codes_hold(m, g[k]));
            let i = choose|i: int| 0 <= i < g[k].len() && code_holds(m, #[trigger] g[k][i]);
            assert(codes(f[k])[i] == f[k][i].code());
            assert(holds(m, f[k][i]));
        }
        assert(models(m, f));
    }
}

} // verus!
