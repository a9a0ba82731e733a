//! What holds of the engine in every state, stated for its users.

use crate::backtrack::{lemma_close_level, lemma_cut_step, lemma_cut_step_full, lemma_pop_step_wf};
use crate::literal::{Literal, Value};
use crate::search::lemma_quiescent_no_conflict;
use crate::state::{clauses_ok, quiescent, watches_ok, StateView};
use vstd::prelude::*;

verus! {

/// Watch well-formedness: a clause is among the watchers of its first two
/// literals, and of no other literal.
pub proof fn law_watch_well_formed(
    clauses: Seq<Seq<Literal>>,
    watches: Seq<Set<i64>>,
    id: i64,
    code: int,
)
    requires
        watches_ok(clauses, watches),
        0 <= id < clauses.len(),
        0 <= code < watches.len(),
    ensures
        watches[code].contains(id) <==> (clauses[id as int][0].code() == code
            || clauses[id as int][1].code() == code),
{
}

/// Trail consistency: a variable has a value if and only if the trail holds
/// a literal of it.
pub proof fn law_trail_consistency(s: StateView, v: int)
    requires
        s.wf(),
        0 <= v < s.num_vars(),
    ensures
        !s.assignment[v].is_unset() <==> s.var_on_trail(v),
{
    if s.var_on_trail(v) {
        let i = choose|i: int| 0 <= i < s.trail.len() && (#[trigger] s.trail[i]).var_index() == v;
        assert(s.lit_true(s.trail[i]));
    }
}

/// Conflict detection is complete: when all consequences are drawn, no
/// clause has all its literals false.
pub proof fn law_conflict_detection(clauses: Seq<Seq<Literal>>, s: StateView, k: int)
    requires
        s.wf(),
        clauses_ok(clauses, s.num_vars()),
        quiescent(clauses, s),
        0 <= k < clauses.len(),
    ensures
        !s.falsified(clauses[k]),
{
    lemma_quiescent_no_conflict(clauses, s, k);
}

/// The trail cut to `k` literals, where no boundary lies behind them, keeps
/// the invariant of the state.
proof fn lemma_cut_wf(s: StateView, k: int)
    requires
        s.wf(),
        s.queue.len() == 0,
        0 <= k <= s.trail.len(),
        forall|b: int| 0 <= b < s.boundaries.len() ==> #[trigger] s.boundaries[b] <= k,
    ensures
        s.cut_to(k).wf(),
    decreases s.trail.len() - k,
{
    if k == s.trail.len() {
        lemma_cut_step_full(s);
    } else {
        lemma_cut_wf(s, k + 1);
        lemma_cut_step(s, k + 1);
        lemma_pop_step_wf(s.cut_to(k + 1));
    }
}

/// Undoing a decision keeps the invariant of the state.
pub proof fn lemma_undone_wf(s: StateView)
    requires
        s.wf(),
    ensures
        s.undone().wf(),
{
    if s.trail.len() > 0 {
        lemma_close_level(s);
        lemma_cut_wf(s.close_level(), s.level_start());
    }
}

/// The state after the last `n` decisions have been undone.
pub open spec fn undone_times(s: StateView, n: nat) -> StateView
    decreases n,
{
    if n == 0 {
        s
    } else {
        undone_times(s.undone(), (n - 1) as nat)
    }
}

/// The length that the trail had when the first decision was made; its
/// length where none has been.
pub open spec fn root_len(s: StateView) -> int {
    if s.boundaries.len() == 0 {
        s.trail.len() as int
    } else {
        s.boundaries[0]
    }
}

/// Backtracking is reversible, one decision at a time: in whatever state
/// the engine is after a decision, undoing the decision gives back the trail
/// and the values that stood when it was made, and leaves the watchers
/// alone. An empty trail is left out: there undoing changes nothing, and the
/// level that was opened stays open.
pub proof fn law_undo_restores(before: StateView, after: StateView)
    requires
        before.wf(),
        after.wf(),
        after.num_vars() == before.num_vars(),
        after.boundaries == before.boundaries.push(before.trail.len() as int),
        before.trail.len() <= after.trail.len(),
        after.trail.subrange(0, before.trail.len() as int) == before.trail,
        after.trail.len() > 0,
    ensures
        after.undone().trail == before.trail,
        after.undone().boundaries == before.boundaries,
        after.undone().assignment == before.assignment,
        after.undone().watches == after.watches,
        after.undone().queue.len() == 0,
{
    let b = before.trail.len() as int;
    let u = after.undone();
    assert(after.boundaries.last() == b);
    assert(after.boundaries.drop_last() =~= before.boundaries);
    lemma_undone_wf(after);
    Value::lemma_of_raw(2);
    assert forall|v: int| 0 <= v < before.num_vars() implies u.assignment[v]
        == before.assignment[v] by {
        if after.popped(b, v) {
            let i = choose|i: int|
                b <= i < after.trail.len() && (#[trigger] after.trail[i]).var_index() == v;
            if !before.assignment[v].is_unset() {
                assert(before.var_on_trail(v));
                let j = choose|j: int|
                    0 <= j < before.trail.len() && (#[trigger] before.trail[j]).var_index() == v;
                assert(after.trail[j] == after.trail.subrange(0, b)[j]);
                assert(after.trail[j].var_index() != after.trail[i].var_index());
            }
            assert(0 <= before.assignment[v].raw() <= 2);
            Value::lemma_raw_injective(u.assignment[v], before.assignment[v]);
        } else {
            assert(u.assignment[v] == after.assignment[v]);
            if !after.assignment[v].is_unset() {
                assert(after.var_on_trail(v));
                let i = choose|i: int|
                    0 <= i < after.trail.len() && (#[trigger] after.trail[i]).var_index() == v;
                assert(i < b);
                assert(after.trail[i] == after.trail.subrange(0, b)[i]);
                assert(before.lit_true(before.trail[i]));
                assert(after.lit_true(after.trail[i]));
                assert(before.assignment[v].raw() == after.assignment[v].raw());
            } else {
                if !before.assignment[v].is_unset() {
                    assert(before.var_on_trail(v));
                    let j = choose|j: int|
                        0 <= j < before.trail.len() && (#[trigger] before.trail[j]).var_index()
                            == v;
                    assert(after.trail[j] == after.trail.subrange(0, b)[j]);
                    assert(after.lit_true(after.trail[j]));
                }
                assert(0 <= before.assignment[v].raw() <= 2);
                assert(0 <= after.assignment[v].raw() <= 2);
            }
            Value::lemma_raw_injective(after.assignment[v], before.assignment[v]);
        }
    }
    assert(u.assignment =~= before.assignment);
}

/// Every decision but the first was made on a trail that held a literal,
/// and the trail holds one now if a decision has been made: so each step back
/// finds a trail to cut.
pub open spec fn undoable(s: StateView) -> bool {
    &&& s.boundaries.len() > 0 ==> s.trail.len() > 0
    &&& forall|b: int| 1 <= b < s.boundaries.len() ==> #[trigger] s.boundaries[b] > 0
}

/// Backtracking is reversible, all the way: when every decision has been
/// undone, the decision level is 0, the trail is what it was when the first
/// decision was made, every variable asserted since is unassigned, and the
/// watchers are those of before the backtracking.
pub proof fn law_backtrack_to_root(s: StateView)
    requires
        s.wf(),
        undoable(s),
    ensures
        undone_times(s, s.boundaries.len()).wf(),
        undone_times(s, s.boundaries.len()).level() == 0,
        undone_times(s, s.boundaries.len()).trail == s.trail.subrange(0, root_len(s)),
        undone_times(s, s.boundaries.len()).watches == s.watches,
        forall|v: int|
            0 <= v < s.num_vars() ==> (#[trigger] undone_times(
                s,
                s.boundaries.len(),
            ).assignment[v]).is_unset() == !(exists|i: int|
                0 <= i < root_len(s) && (#[trigger] s.trail[i]).var_index() == v),
    decreases s.boundaries.len(),
{
    let r = undone_times(s, s.boundaries.len());
    if s.boundaries.len() == 0 {
        assert(s.trail.subrange(0, s.trail.len() as int) =~= s.trail);
        assert forall|v: int| 0 <= v < s.num_vars() implies (#[trigger] r.assignment[v]).is_unset()
            == !(exists|i: int| 0 <= i < root_len(s) && (#[trigger] s.trail[i]).var_index() == v) by {
            law_trail_consistency(s, v);
        }
    } else {
        let u = s.undone();
        lemma_undone_wf(s);
        lemma_close_level(s);
        assert(u.boundaries =~= s.boundaries.drop_last());
        assert(undoable(u)) by {
            if u.boundaries.len() > 0 {
                assert(s.boundaries[s.boundaries.len() - 1] > 0);
            }
        }
        law_backtrack_to_root(u);
        assert(0 <= s.boundaries[0] <= s.boundaries[s.boundaries.len() - 1]) by {
            if s.boundaries.len() > 1 {
                assert(s.boundaries[0] <= s.boundaries[s.boundaries.len() - 1]);
            }
        }
        assert(root_len(u) == root_len(s)) by {
            if u.boundaries.len() > 0 {
                assert(u.boundaries[0] == s.boundaries[0]);
            }
        }
        assert(u.trail.subrange(0, root_len(u)) =~= s.trail.subrange(0, root_len(s)));
        assert forall|v: int| 0 <= v < s.num_vars() implies (#[trigger] r.assignment[v]).is_unset()
            == !(exists|i: int| 0 <= i < root_len(s) && (#[trigger] s.trail[i]).var_index() == v) by {
            assert(r.assignment[v].is_unset() == !(exists|i: int|
                0 <= i < root_len(u) && (#[trigger] u.trail[i]).var_index() == v));
            if exists|i: int| 0 <= i < root_len(s) && (#[trigger] s.trail[i]).var_index() == v {
                let i = choose|i: int|
                    0 <= i < root_len(s) && (#[trigger] s.trail[i]).var_index() == v;
                assert(u.trail[i].var_index() == v);
            }
            if exists|i: int| 0 <= i < root_len(u) && (#[trigger] u.trail[i]).var_index() == v {
                let i = choose|i: int|
                    0 <= i < root_len(u) && (#[trigger] u.trail[i]).var_index() == v;
                assert(s.trail[i].var_index() == v);
            }
        }
    }
}

} // verus!
