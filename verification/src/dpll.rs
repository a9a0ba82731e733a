//! The propagation engine and the search that drives it.

use crate::ascending::{ascending, lemma_members_ascend};
use crate::answer::{
    lemma_kept_ok, lemma_sat_answer, lemma_struck, lemma_unsat_answer, lemma_unsat_early,
    units_asserted,
};
use crate::backtrack::{
    lemma_close_level, lemma_cut_step, lemma_cut_step_full, lemma_empty_quiescent,
    lemma_open_level, lemma_pop_step_wf,
    lemma_undone_quiescent,
};
use crate::clause::{Clause, ClauseId, PropagateResult, PropagationResult};
use crate::dimacs::{codes_of, dimacs_of, lemma_numbering, numbering_of, parse_dimacs, ParseError};
use crate::invariants::{
    lemma_assert_lit_wf, lemma_first_open_is, lemma_flip_in_range, lemma_frame_wf, lemma_reorder_wf,
    lemma_requeue_wf, lemma_restore_watching, lemma_trail_bounded, lemma_visit_clauses_ok,
    lemma_visit_reorders, lemma_visit_watching,
};
use crate::literal::{flip, Literal, Value, Variable, MAX_VARIABLES};
use crate::model::{
    agrees, clause_holds, codes, lemma_satisfiable_codes, models, satisfiable, satisfiable_codes,
};
use crate::preprocess::{
    formula, kept, lemma_unit_values, preprocess, remove_repeated_literals, unit_values, within,
};
use crate::setup::{
    first_seen, initial_variable_order, initialize_watchlist, intern_clauses, lemma_first_seen,
    ranked, watchers_among,
};
use crate::order::{queue_entries, queue_pop, queue_push, VariableQueue};
use crate::propagation::{
    lemma_visit_upto_next, next_id,
    lemma_propagated_monotone, lemma_queue_follows, lemma_remaining_step, lemma_reordered_models,
    lemma_settled_end, lemma_settled_frame, lemma_settled_start, lemma_visit_asserts,
    lemma_visit_conflict, lemma_visit_settled, lemma_visit_sound,
};
use crate::search::{
    consistent, grounded, lemma_assert_pending, lemma_complete_satisfies, lemma_covers_decide,
    lemma_covers_flip, lemma_covers_propagate, lemma_grounded_propagate, lemma_justified_decide,
    lemma_justified_flip, lemma_justified_start, lemma_quiescent_no_conflict,
    lemma_satisfied_consistent, lemma_root_conflict_reordered, lemma_weight_bound,
    lemma_weight_decision, lemma_weight_flip, lemma_weight_range, levels_nonempty, order_covers,
    pow3, ready, weight,
};
use crate::state::{
    propagate_all, visit_below, visit_watchers, Drawn,
    asserted_more, bump, bump_by, empty_statistics, clauses_ok, extends, normalized, pending_ok,
    propagated_upto, quiescent, remaining, reordered, settled, visit_clause, visit_moves,
    visit_result, visit_state, watched, watches_ok, watching, StateView, Statistics,
};
use crate::tagged::{TaggedIndexable, TaggedVec};
use std::collections::{BTreeSet, VecDeque};
use vstd::prelude::*;
use vstd::std_specs::iter::IteratorSpec;
use vstd::string::StringSliceAdditionalSpecFns;

verus! {

/// A position of the decision stack.
#[derive(Clone, Copy, Debug, PartialEq, Eq, Structural)]
pub struct DecisionIndex(pub usize);

impl TaggedIndexable for DecisionIndex {
    open spec fn indexable(&self) -> bool {
        true
    }

    open spec fn index_value(&self) -> int {
        self.0 as int
    }

    fn as_index(&self) -> (i: usize) {
        self.0
    }
}

/// What the engine knows in the course of a search.
pub struct SolverState {
    /// The literals asserted so far, in order.
    decision_stack: Vec<Literal>,
    /// For each open decision level, the length of the decision stack when
    /// it was entered.
    decision_boundaries: Vec<DecisionIndex>,
    /// The value of each variable.
    assignment: TaggedVec<Variable, Value>,
    /// For each literal, the clauses that watch it.
    watchlist: TaggedVec<Literal, BTreeSet<i64>>,
    /// The variables to decide, by priority.
    variable_order: VariableQueue,
    /// The asserted literals whose consequences are still to be drawn.
    propagation_queue: VecDeque<Literal>,
    /// What the run has done so far.
    statistics: Statistics,
}

impl View for SolverState {
    type V = StateView;

    closed spec fn view(&self) -> StateView {
        StateView {
            trail: self.decision_stack@,
            boundaries: Seq::new(
                self.decision_boundaries@.len(),
                |k: int| self.decision_boundaries@[k].0 as int,
            ),
            assignment: self.assignment@,
            watches: Seq::new(self.watchlist@.len(), |code: int| self.watchlist@[code]@),
            queue: self.propagation_queue@,
            order: queue_entries(self.variable_order),
            statistics: self.statistics,
        }
    }
}

impl SolverState {
    /// The value of `lit` under the current assignment.
    pub fn value_of(&self, lit: Literal) -> (value: Value)
        requires
            self@.in_range(lit),
        ensures
            value == Value::of_raw(self@.value(lit)),
            value.raw() == self@.value(lit),
            self@.lit_unset(lit) ==> value == Value::of_raw(2),
    {
        lit.under_value(*self.assignment.index(lit.variable()))
    }

    /// The value of `lit` under the current assignment.
    pub fn literal_value(&self, lit: Literal) -> (value: Value)
        requires
            self@.in_range(lit),
        ensures
            value == Value::of_raw(self@.value(lit)),
            value.raw() == self@.value(lit),
            self@.lit_unset(lit) ==> value == Value::of_raw(2),
    {
        self.value_of(lit)
    }

    /// The current decision level: the number of decisions that stand.
    pub fn decision_level(&self) -> (level: usize)
        ensures
            level == self@.level(),
    {
        self.decision_boundaries.len()
    }

    /// The number of variables of the problem.
    pub fn variable_count(&self) -> (count: usize)
        ensures
            count == self@.num_vars(),
    {
        self.assignment.len()
    }

    /// The literals asserted so far, in the order in which they were
    /// asserted.
    pub fn trail(&self) -> (trail: Vec<Literal>)
        ensures
            trail@ == self@.trail,
    {
        let mut trail: Vec<Literal> = Vec::new();
        let mut i: usize = 0;
        while i < self.decision_stack.len()
            invariant
                0 <= i <= self.decision_stack@.len(),
                trail@ == self.decision_stack@.take(i as int),
            decreases self.decision_stack@.len() - i,
        {
            trail.push(self.decision_stack[i]);
            assert(self.decision_stack@.take(i + 1) =~= self.decision_stack@.take(i as int).push(
                self.decision_stack@[i as int],
            ));
            i = i + 1;
        }
        assert(self.decision_stack@.take(i as int) =~= self.decision_stack@);
        trail
    }

    /// The number of literals whose consequences are still to be drawn.
    pub fn pending(&self) -> (count: usize)
        ensures
            count == self@.queue.len(),
    {
        self.propagation_queue.len()
    }

    /// The clauses that watch `lit`, by their identifiers in ascending
    /// order.
    pub fn watchers(&self, lit: Literal) -> (ids: Vec<ClauseId>)
        requires
            self@.in_range(lit),
            self@.watches.len() == 2 * self@.num_vars(),
        ensures
            ids@.no_duplicates(),
            forall|id: i64|
                self@.watches[lit.code()].contains(id) <==> ids@.contains(ClauseId(id)),
            forall|i: int, j: int| 0 <= i < j < ids@.len() ==> ids@[i].0 < ids@[j].0,
    {
        let numbers = watcher_ids(self.watchlist.index(lit));
        let mut ids: Vec<ClauseId> = Vec::new();
        let mut i: usize = 0;
        while i < numbers.len()
            invariant
                0 <= i <= numbers@.len(),
                ids@.len() == i,
                forall|j: int| 0 <= j < i ==> (#[trigger] ids@[j]).0 == numbers@[j],
            decreases numbers@.len() - i,
        {
            ids.push(ClauseId(numbers[i]));
            i = i + 1;
        }
        proof {
            assert forall|id: i64|
                self@.watches[lit.code()].contains(id) <==> ids@.contains(ClauseId(id)) by {
                if self@.watches[lit.code()].contains(id) {
                    assert(numbers@.to_set().contains(id));
                    let j = choose|j: int| 0 <= j < numbers@.len() && numbers@[j] == id;
                    assert(ids@[j] == ClauseId(id));
                }
                if ids@.contains(ClauseId(id)) {
                    let j = choose|j: int| 0 <= j < ids@.len() && ids@[j] == ClauseId(id);
                    assert(numbers@[j] == id);
                    assert(numbers@.contains(id));
                }
            }
        }
        ids
    }

    /// The counters of the run.
    pub fn statistics(&self) -> (statistics: Statistics)
        ensures
            statistics == self@.statistics,
    {
        self.statistics
    }
}

/// Asserts `lit`. An unassigned literal becomes true, goes on the trail and
/// on the propagation queue; a true one changes nothing; a false one is a
/// conflict, and changes nothing either.
pub fn enqueue(env: &mut SolverState, lit: Literal) -> (result: PropagateResult)
    requires
        old(env)@.wf(),
        old(env)@.in_range(lit),
    ensures
        old(env)@.lit_unset(lit) ==> final(env)@ == old(env)@.assert_lit(lit),
        !old(env)@.lit_unset(lit) ==> final(env)@ == old(env)@,
        result == (if old(env)@.lit_false(lit) {
            PropagateResult::Conflict
        } else {
            PropagateResult::NoConflict
        }),
        result is NoConflict ==> final(env)@.lit_true(lit),
        final(env)@.wf(),
{
    let val = env.value_of(lit);
    if val.is_unassigned() {
        proof {
            lemma_assert_lit_wf(env@, lit);
        }
        env.decision_stack.push(lit);
        *env.assignment.index_mut(lit.variable()) = lit.satisfy();
        env.propagation_queue.push_back(lit);
        assert(env@ =~= old(env)@.assert_lit(lit));
        PropagateResult::NoConflict
    } else if val == Value::lifted_false() {
        proof {
            Value::lemma_raw_injective(val, Value::of_raw(1));
        }
        PropagateResult::Conflict
    } else {
        proof {
            Value::lemma_raw_injective(val, Value::of_raw(1));
            Value::lemma_of_raw(1);
        }
        PropagateResult::NoConflict
    }
}

/// Enters the clause `id` among the watchers of `lit`.
pub fn watch_literal(env: &mut SolverState, id: ClauseId, lit: Literal)
    requires
        old(env)@.wf(),
        old(env)@.in_range(lit),
    ensures
        final(env)@ == old(env)@.watch(lit.code(), id.0),
        final(env)@.wf(),
{
    let watchers = env.watchlist.index_mut(lit);
    let _ = watchers.insert(id.0);
    assert(env@.watches =~= old(env)@.watch(lit.code(), id.0).watches);
    assert(env@.boundaries =~= old(env)@.boundaries);
    proof {
        lemma_frame_wf(old(env)@, env@);
    }
}

/// Takes the clause `id` from the watchers of `lit`, where it must be.
pub fn unwatch_literal(env: &mut SolverState, id: ClauseId, lit: Literal)
    requires
        old(env)@.wf(),
        old(env)@.in_range(lit),
        old(env)@.watches[lit.code()].contains(id.0),
    ensures
        final(env)@ == old(env)@.unwatch(lit.code(), id.0),
        final(env)@.wf(),
{
    let watchers = env.watchlist.index_mut(lit);
    let _ = watchers.remove(&id.0);
    assert(env@.watches =~= old(env)@.unwatch(lit.code(), id.0).watches);
    assert(env@.boundaries =~= old(env)@.boundaries);
    proof {
        lemma_frame_wf(old(env)@, env@);
    }
}

/// Counts one application of the unit rule.
fn count_propagation(env: &mut SolverState)
    requires
        old(env)@.wf(),
    ensures
        final(env)@ == old(env)@.count_propagation(),
        final(env)@.wf(),
{
    if env.statistics.propagations < usize::MAX {
        env.statistics.propagations = env.statistics.propagations + 1;
    }
    assert(env@ =~= old(env)@.count_propagation());
    proof {
        lemma_frame_wf(old(env)@, env@);
    }
}

/// Visits the clause `cl`, which watches the negation of `lit`, after `lit`
/// has been asserted. The falsified watch is brought to the second place.
/// If the first literal is true, the watch stays. Else the first literal
/// from the third on that is not false becomes the second, and is watched
/// from now on. If there is none, the watch stays and the first literal is
/// asserted, which is a conflict if it is false.
#[verifier::loop_isolation(false)]
pub fn propagate(solver_state: &mut SolverState, cl: &mut Clause, lit: Literal) -> (result:
    PropagationResult)
    requires
        old(solver_state)@.wf(),
        old(solver_state)@.in_range(lit),
        old(cl).well_formed(),
        old(cl).literals().len() >= 2,
        forall|i: int|
            0 <= i < old(cl).literals().len() ==> old(solver_state)@.in_range(
                #[trigger] old(cl).literals()[i],
            ),
    ensures
        final(cl).header() == old(cl).header(),
        final(cl).literals() == visit_clause(old(solver_state)@, old(cl).literals(), lit),
        final(solver_state)@ == visit_state(
            old(solver_state)@,
            old(cl).literals(),
            old(cl).header().id.0,
            lit,
        ),
        result == (if visit_result(old(solver_state)@, old(cl).literals(), lit) {
            PropagationResult::Conflict
        } else if visit_moves(old(solver_state)@, old(cl).literals(), lit) {
            PropagationResult::NewWatch
        } else {
            PropagationResult::KeepWatch
        }),
        final(solver_state)@.wf(),
{
    let ghost s0 = solver_state@;
    let ghost c0 = cl.literals();
    let ghost n = normalized(c0, flip(lit.code()));
    let id = cl.identifier();
    let false_lit = lit.negate();
    let second: Literal = *cl.index(1);
    proof {
        Literal::lemma_code_injective(second, false_lit);
    }
    if second != false_lit {
        cl.swap_literals(0, 1);
    }
    assert(cl.literals() == n);
    let first: Literal = *cl.index(0);
    let first_value = solver_state.value_of(first);
    proof {
        Value::lemma_raw_injective(first_value, Value::of_raw(0));
        Value::lemma_of_raw(0);
    }
    if first_value == Value::lifted_true() {
        watch_literal(solver_state, id, false_lit);
        return PropagationResult::KeepWatch;
    }
    let count = cl.lit_count();
    let mut lit_num: usize = 2;
    while lit_num < count
        invariant
            2 <= lit_num <= count,
            count == n.len(),
            cl.literals() == n,
            cl.header() == old(cl).header(),
            solver_state@ == s0,
            s0.wf(),
            forall|i: int| 0 <= i < n.len() ==> s0.in_range(#[trigger] n[i]),
            forall|i: int| 2 <= i < lit_num ==> s0.lit_false(#[trigger] n[i]),
        decreases count - lit_num,
    {
        let candidate: Literal = *cl.index(lit_num);
        let candidate_value = solver_state.value_of(candidate);
        proof {
            Value::lemma_raw_injective(candidate_value, Value::of_raw(1));
            Value::lemma_of_raw(1);
        }
        if candidate_value != Value::lifted_false() {
            proof {
                lemma_first_open_is(s0, n, 2, lit_num as int);
            }
            cl.swap_literals(1, lit_num);
            watch_literal(solver_state, id, candidate);
            return PropagationResult::NewWatch;
        }
        lit_num = lit_num + 1;
    }
    proof {
        lemma_first_open_is(s0, n, 2, n.len() as int);
    }
    watch_literal(solver_state, id, false_lit);
    if first_value.is_unassigned() {
        proof {
            lemma_assert_lit_wf(solver_state@, first);
        }
        let _ = enqueue(solver_state, first);
        count_propagation(solver_state);
        PropagationResult::KeepWatch
    } else {
        match enqueue(solver_state, first) {
            PropagateResult::Conflict => PropagationResult::Conflict,
            PropagateResult::NoConflict => PropagationResult::KeepWatch,
        }
    }
}

/// Visits the clause `cl` as `propagate` does, and tells only whether that was
/// a conflict.
pub fn propagate_clause(solver_state: &mut SolverState, cl: &mut Clause, lit: Literal) -> (result:
    PropagateResult)
    requires
        old(solver_state)@.wf(),
        old(solver_state)@.in_range(lit),
        old(cl).well_formed(),
        old(cl).literals().len() >= 2,
        forall|i: int|
            0 <= i < old(cl).literals().len() ==> old(solver_state)@.in_range(
                #[trigger] old(cl).literals()[i],
            ),
    ensures
        final(cl).header() == old(cl).header(),
        final(cl).literals() == visit_clause(old(solver_state)@, old(cl).literals(), lit),
        final(solver_state)@ == visit_state(
            old(solver_state)@,
            old(cl).literals(),
            old(cl).header().id.0,
            lit,
        ),
        result == (if visit_result(old(solver_state)@, old(cl).literals(), lit) {
            PropagateResult::Conflict
        } else {
            PropagateResult::NoConflict
        }),
        final(solver_state)@.wf(),
{
    match propagate(solver_state, cl, lit) {
        PropagationResult::Conflict => PropagateResult::Conflict,
        PropagationResult::KeepWatch => PropagateResult::NoConflict,
        PropagationResult::NewWatch => PropagateResult::NoConflict,
    }
}

/// Takes out the watchers of `lit`, leaving it none.
fn take_watchers(env: &mut SolverState, lit: Literal) -> (watchers: BTreeSet<i64>)
    requires
        old(env)@.wf(),
        old(env)@.in_range(lit),
    ensures
        watchers@ == old(env)@.watches[lit.code()],
        final(env)@ == old(env)@.unwatch_all(lit.code()),
        final(env)@.wf(),
{
    let mut watchers: BTreeSet<i64> = BTreeSet::new();
    let held = env.watchlist.index_mut(lit);
    std::mem::swap(held, &mut watchers);
    assert(env@.watches =~= old(env)@.unwatch_all(lit.code()).watches);
    assert(env@.boundaries =~= old(env)@.boundaries);
    proof {
        lemma_frame_wf(old(env)@, env@);
    }
    watchers
}

/// The members of `watchers`, in ascending order.
fn watcher_ids(watchers: &BTreeSet<i64>) -> (ids: Vec<i64>)
    ensures
        ids@.no_duplicates(),
        ids@.to_set() == watchers@,
        ascending(ids@),
{
    let mut ids: Vec<i64> = Vec::new();
    for id in members: watchers.iter()
        invariant
            members.seq() == watchers.iter().remaining(),
            ids@ == members.seq().take(members.index() as int).unref(),
    {
        ids.push(*id);
    }
    proof {
        let all = watchers.iter().remaining();
        assert(all.take(all.len() as int) == all);
        assert(ids@ == all.unref());
        lemma_members_ascend(watchers);
        assert forall|i: int, j: int| 0 <= i < j < ids@.len() implies ids@[i] != ids@[j] by {
            assert(all[i] != all[j]);
        }
    }
    ids
}

/// Each clause is well formed, and its identifier is its position.
pub open spec fn numbered(problem: Seq<Clause>) -> bool {
    forall|k: int|
        0 <= k < problem.len() ==> (#[trigger] problem[k]).well_formed() && problem[k].header().id.0
            == k
}

/// A problem and the state of the engine that works on it.
pub struct Env {
    /// The clauses of the problem, each at the position that its identifier
    /// names.
    problem: TaggedVec<ClauseId, Clause>,
    /// The state of the engine.
    solver_state: SolverState,
}

impl Env {
    /// The literals of each clause of the store, in their current order.
    pub closed spec fn clauses(&self) -> Seq<Seq<Literal>> {
        Seq::new(self.problem@.len(), |k: int| self.problem@[k].literals())
    }

    /// The state of the engine.
    pub closed spec fn state(&self) -> StateView {
        self.solver_state@
    }

    /// Each clause of the store is well formed, and its identifier is its
    /// position.
    pub closed spec fn store_ok(&self) -> bool {
        numbered(self.problem@)
    }

    /// The invariant that every operation keeps: the state is consistent,
    /// the clauses fit it, and each clause is among the watchers of its first
    /// two literals and of no others.
    pub open spec fn wf(&self) -> bool {
        &&& self.store_ok()
        &&& self.state().wf()
        &&& clauses_ok(self.clauses(), self.state().num_vars())
        &&& watches_ok(self.clauses(), self.state().watches)
    }
}

/// Draws the consequences that the assertion of `lit` has for the clauses
/// that watch its negation. Their set is taken out and each of them is
/// visited in ascending order of its identifier; after a conflict the
/// clauses not yet visited go back among the watchers as they are.
pub fn propagate_literal(env: &mut Env, lit: Literal) -> (result: PropagateResult)
    requires
        old(env).wf(),
        old(env).state().in_range(lit),
        old(env).state().lit_true(lit),
    ensures
        final(env).clauses() == visit_watchers(old(env).clauses(), old(env).state(), lit).clauses,
        final(env).state() == visit_watchers(old(env).clauses(), old(env).state(), lit).state,
        (result is Conflict) == visit_watchers(old(env).clauses(), old(env).state(), lit).conflict,
        final(env).wf(),
        reordered(old(env).clauses(), final(env).clauses()),
        asserted_more(old(env).state(), final(env).state()),
        forall|m: spec_fn(int) -> bool|
            models(m, old(env).clauses()) && agrees(m, old(env).state().trail) ==> agrees(
                m,
                final(env).state().trail,
            ),
        result is Conflict ==> exists|k: int|
            0 <= k < final(env).clauses().len() && final(env).state().falsified(
                #[trigger] final(env).clauses()[k],
            ),
        forall|p: int|
            0 <= p < old(env).state().trail.len() && old(env).state().trail[p] == lit
                && propagated_upto(old(env).clauses(), old(env).state(), p) ==> propagated_upto(
                final(env).clauses(),
                final(env).state(),
                if result is Conflict {
                    p
                } else {
                    p + 1
                },
            ),
{
    let ghost c0 = env.clauses();
    let ghost s0 = env.state();
    let ghost held = flip(lit.code());
    let false_lit = lit.negate();
    proof {
        lemma_flip_in_range(lit.code(), s0.num_vars());
    }
    let watchers = take_watchers(&mut env.solver_state, false_lit);
    let ids = watcher_ids(&watchers);
    let ghost taken = env.state();
    proof {
        let s1 = env.state();
        assert(c0.len() - 1 <= i64::MAX) by {
            if c0.len() > 0 {
                assert(env.problem@[c0.len() - 1].header().id.0 == c0.len() - 1);
            }
        }
        assert forall|q: int| 0 <= q < ids@.len() implies 0 <= #[trigger] ids@[q] < c0.len() by {
            assert(ids@.to_set().contains(ids@[q]));
            assert(s0.watches[held].contains(ids@[q]));
        }
        lemma_visit_upto_next(c0, taken, watchers@, lit, ids@, 0);
        assert(remaining(ids@, 0) =~= watchers@) by {
            assert forall|id: i64| remaining(ids@, 0).contains(id) == watchers@.contains(id) by {
                if watchers@.contains(id) {
                    assert(ids@.to_set().contains(id));
                    let q = choose|q: int| 0 <= q < ids@.len() && ids@[q] == id;
                    assert(ids@[q] == id);
                }
                if remaining(ids@, 0).contains(id) {
                    let q = choose|q: int| 0 <= q < ids@.len() && #[trigger] ids@[q] == id;
                    assert(ids@.contains(id));
                }
            }
        }
        assert(watching(c0, s1.watches, held, remaining(ids@, 0))) by {
            assert forall|code: int, id: i64| 0 <= code < s1.watches.len() implies (
            #[trigger] s1.watches[code].contains(id) <==> 0 <= id < c0.len() && watched(
                c0[id as int],
                code,
            ) && !(code == held && remaining(ids@, 0).contains(id))) by {
                assert(s0.watches[code].contains(id) <==> 0 <= id < c0.len() && watched(
                    c0[id as int],
                    code,
                ));
            }
            assert forall|id: i64| #[trigger] remaining(ids@, 0).contains(id) implies 0 <= id
                < c0.len() && watched(c0[id as int], held) by {
                assert(s0.watches[held].contains(id));
            }
        }
        assert forall|p: int|
            0 <= p < s0.trail.len() && s0.trail[p] == lit && propagated_upto(c0, s0, p) implies settled(
            c0,
            s1,
            p,
            remaining(ids@, 0),
        ) by {
            lemma_settled_frame(c0, s0, s1, p, Set::empty());
            assert forall|id: i64|
                0 <= id < c0.len() && watched(c0[id as int], flip(s1.trail[p].code())) implies remaining(
                ids@,
                0,
            ).contains(id) by {
                assert(s0.watches[held].contains(id));
            }
            lemma_settled_start(c0, s1, p, remaining(ids@, 0));
        }
        assert(s1.trail.subrange(0, s0.trail.len() as int) == s0.trail);
        assert(s1.queue.subrange(0, s0.queue.len() as int) == s0.queue);
        assert(s1.trail.subrange(s0.trail.len() as int, s1.trail.len() as int) == s1.queue.subrange(
            s0.queue.len() as int,
            s1.queue.len() as int,
        ));
        assert(reordered(c0, c0));
    }
    let mut conflict = false;
    let mut at: usize = 0;
    while at < ids.len()
        invariant
            0 <= at <= ids.len(),
            ids@.no_duplicates(),
            ascending(ids@),
            ids@.to_set() == watchers@,
            c0.len() - 1 <= i64::MAX,
            forall|q: int| 0 <= q < ids@.len() ==> 0 <= #[trigger] ids@[q] < c0.len(),
            (Drawn { clauses: env.clauses(), state: env.state(), conflict }) == visit_below(
                c0,
                taken,
                watchers@,
                lit,
                next_id(ids@, at as int, c0.len() as int),
            ),
            false_lit.code() == held,
            held == flip(lit.code()),
            env.store_ok(),
            env.state().wf(),
            env.state().num_vars() == s0.num_vars(),
            clauses_ok(env.clauses(), env.state().num_vars()),
            env.state().in_range(lit),
            env.state().in_range(false_lit),
            env.state().lit_true(lit),
            watching(env.clauses(), env.state().watches, held, remaining(ids@, at as int)),
            reordered(c0, env.clauses()),
            asserted_more(s0, env.state()),
            forall|m: spec_fn(int) -> bool|
                models(m, c0) && agrees(m, s0.trail) ==> agrees(m, env.state().trail),
            conflict ==> exists|k: int|
                0 <= k < env.clauses().len() && env.state().falsified(#[trigger] env.clauses()[k]),
            forall|p: int|
                0 <= p < s0.trail.len() && s0.trail[p] == lit && propagated_upto(c0, s0, p)
                    ==> propagated_upto(env.clauses(), env.state(), p) && (!conflict ==> settled(
                    env.clauses(),
                    env.state(),
                    p,
                    remaining(ids@, at as int),
                )),
        decreases ids.len() - at,
    {
        let id = ids[at];
        let ghost cs = env.clauses();
        let ghost ss = env.state();
        let ghost was = conflict;
        let ghost pend = remaining(ids@, at as int);
        proof {
            lemma_remaining_step(ids@, at as int);
            assert(pend.contains(id));
            assert(0 <= id < cs.len() && watched(cs[id as int], held));
        }
        if conflict {
            watch_literal(&mut env.solver_state, ClauseId(id), false_lit);
            proof {
                let st = env.state();
                lemma_restore_watching(cs, ss.watches, held, pend, id);
                let k = choose|k: int| 0 <= k < cs.len() && ss.falsified(#[trigger] cs[k]);
                assert(st.falsified(cs[k])) by {
                    assert forall|i: int| 0 <= i < cs[k].len() implies st.lit_false(
                        #[trigger] cs[k][i],
                    ) by {
                        assert(ss.lit_false(cs[k][i]));
                    }
                }
                assert forall|p: int|
                    0 <= p < s0.trail.len() && s0.trail[p] == lit && propagated_upto(
                        c0,
                        s0,
                        p,
                    ) implies propagated_upto(cs, st, p) by {
                    lemma_settled_frame(cs, ss, st, p, Set::empty());
                }
            }
        } else {
            proof {
                assert(cs[id as int] == env.problem@[id as int].literals());
                lemma_visit_clauses_ok(cs, ss, id as int, lit);
                lemma_visit_watching(cs, ss, id, lit, pend);
                lemma_visit_reorders(ss, cs[id as int], lit);
                lemma_visit_asserts(s0, ss, cs[id as int], id, lit);
            }
            let total = env.problem.len();
            assert(id < total);
            let cl = env.problem.index_mut(ClauseId(id));
            let step = propagate_clause(&mut env.solver_state, cl, lit);
            proof {
                let st = env.state();
                let ct = env.clauses();
                assert(ct =~= cs.update(id as int, visit_clause(ss, cs[id as int], lit)));
                assert(st == visit_state(ss, cs[id as int], id, lit));
                assert(reordered(c0, ct)) by {
                    assert forall|k: int| 0 <= k < c0.len() implies (#[trigger] ct[k]).to_multiset()
                        == c0[k].to_multiset() by {
                        assert(cs[k].to_multiset() == c0[k].to_multiset());
                    }
                }
                assert forall|m: spec_fn(int) -> bool|
                    models(m, c0) && agrees(m, s0.trail) implies agrees(m, st.trail) by {
                    lemma_reordered_models(m, c0, cs);
                    assert(clause_holds(m, cs[id as int]));
                    lemma_visit_sound(ss, cs[id as int], id, lit, m);
                }
                if step is Conflict {
                    lemma_visit_conflict(ss, cs[id as int], id, lit);
                    assert(st.falsified(ct[id as int]));
                }
                assert forall|p: int|
                    0 <= p < s0.trail.len() && s0.trail[p] == lit && propagated_upto(
                        c0,
                        s0,
                        p,
                    ) implies propagated_upto(ct, st, p) && (!(step is Conflict) ==> settled(
                    ct,
                    st,
                    p,
                    remaining(ids@, at + 1),
                )) by {
                    assert(ss.trail[p] == ss.trail.subrange(0, s0.trail.len() as int)[p]);
                    lemma_visit_settled(cs, ss, id, lit, pend, p);
                }
            }
            if step == PropagateResult::Conflict {
                conflict = true;
            }
        }
        proof {
            let before = visit_below(c0, taken, watchers@, lit, id as int);
            assert(before == (Drawn { clauses: cs, state: ss, conflict: was }));
            assert(ids@.to_set().contains(id));
            assert(env.clauses() =~= if was {
                cs
            } else {
                cs.update(id as int, visit_clause(ss, cs[id as int], lit))
            });
            assert(visit_below(c0, taken, watchers@, lit, id + 1) == (Drawn {
                clauses: env.clauses(),
                state: env.state(),
                conflict,
            }));
            lemma_visit_upto_next(c0, taken, watchers@, lit, ids@, at + 1);
        }
        at = at + 1;
    }
    proof {
        let st = env.state();
        let ct = env.clauses();
        assert(taken == s0.unwatch_all(held));
        assert(watchers@ == s0.watches[held]);
        assert forall|id: i64| !remaining(ids@, at as int).contains(id) by {}
        assert(watches_ok(ct, st.watches));
        assert forall|p: int|
            0 <= p < s0.trail.len() && s0.trail[p] == lit && propagated_upto(
                c0,
                s0,
                p,
            ) implies propagated_upto(
            ct,
            st,
            if conflict {
                p
            } else {
                p + 1
            },
        ) by {
            if !conflict {
                lemma_settled_end(ct, st, p, remaining(ids@, at as int));
            }
        }
    }
    if conflict {
        PropagateResult::Conflict
    } else {
        PropagateResult::NoConflict
    }
}

/// Draws the consequences of every literal on the propagation queue, and of
/// those that this asserts in turn, first in first out, until the queue is
/// empty or a clause is found false. After a conflict the queue is emptied
/// and the conflict counted.
pub fn propagate_units(env: &mut Env) -> (result: PropagateResult)
    requires
        old(env).wf(),
    ensures
        final(env).clauses() == propagate_all(
            old(env).clauses(),
            old(env).state(),
            old(env).state().rounds(),
        ).clauses,
        final(env).state() == propagate_all(
            old(env).clauses(),
            old(env).state(),
            old(env).state().rounds(),
        ).state,
        (result is Conflict) == propagate_all(
            old(env).clauses(),
            old(env).state(),
            old(env).state().rounds(),
        ).conflict,
        final(env).wf(),
        reordered(old(env).clauses(), final(env).clauses()),
        extends(old(env).state().trail, final(env).state().trail),
        final(env).state().boundaries == old(env).state().boundaries,
        final(env).state().order == old(env).state().order,
        final(env).state().num_vars() == old(env).state().num_vars(),
        final(env).state().queue.len() == 0,
        final(env).state().statistics == (Statistics {
            conflicts: if result is Conflict {
                bump(old(env).state().statistics.conflicts)
            } else {
                old(env).state().statistics.conflicts
            },
            decisions: old(env).state().statistics.decisions,
            propagations: bump_by(
                old(env).state().statistics.propagations,
                final(env).state().trail.len() - old(env).state().trail.len(),
            ),
        }),
        forall|m: spec_fn(int) -> bool|
            models(m, old(env).clauses()) && agrees(m, old(env).state().trail) ==> agrees(
                m,
                final(env).state().trail,
            ),
        result is Conflict ==> exists|k: int|
            0 <= k < final(env).clauses().len() && final(env).state().falsified(
                #[trigger] final(env).clauses()[k],
            ),
        pending_ok(old(env).clauses(), old(env).state()) ==> (if result is Conflict {
            propagated_upto(
                final(env).clauses(),
                final(env).state(),
                old(env).state().trail.len() - old(env).state().queue.len(),
            )
        } else {
            quiescent(final(env).clauses(), final(env).state())
        }),
        pending_ok(old(env).clauses(), old(env).state()) && result is NoConflict ==> forall|
            k: int,
        |
            0 <= k < final(env).clauses().len() ==> !final(env).state().falsified(
                #[trigger] final(env).clauses()[k],
            ),
{
    let ghost c0 = env.clauses();
    let ghost s0 = env.state();
    let ghost ok0 = pending_ok(c0, s0);
    let ghost drawn = s0.trail.len() - s0.queue.len();
    proof {
        assert(reordered(c0, c0));
        assert(s0.trail.subrange(0, s0.trail.len() as int) == s0.trail);
        lemma_trail_bounded(s0);
    }
    loop
        invariant
            env.wf(),
            reordered(c0, env.clauses()),
            extends(s0.trail, env.state().trail),
            env.state().boundaries == s0.boundaries,
            env.state().order == s0.order,
            env.state().num_vars() == s0.num_vars(),
            env.state().trail.len() <= env.state().num_vars(),
            env.state().statistics == (Statistics {
                propagations: bump_by(
                    s0.statistics.propagations,
                    env.state().trail.len() - s0.trail.len(),
                ),
                ..s0.statistics
            }),
            forall|m: spec_fn(int) -> bool|
                models(m, c0) && agrees(m, s0.trail) ==> agrees(m, env.state().trail),
            propagate_all(c0, s0, s0.rounds()) == propagate_all(
                env.clauses(),
                env.state(),
                env.state().rounds(),
            ),
            ok0 ==> pending_ok(env.clauses(), env.state()),
            ok0 ==> drawn <= env.state().trail.len() - env.state().queue.len(),
            ok0 == pending_ok(c0, s0),
            drawn == s0.trail.len() - s0.queue.len(),
            c0 == old(env).clauses(),
            s0 == old(env).state(),
        decreases 2 * (env.state().num_vars() - env.state().trail.len()) + env.state().queue.len(),
    {
        let ghost cs = env.clauses();
        let ghost ss = env.state();
        let next = env.solver_state.propagation_queue.pop_front();
        match next {
            None => {
                assert(env.state() == ss) by {
                    assert(env.state().queue =~= ss.queue);
                }
                proof {
                    if ok0 {
                        assert forall|k: int| 0 <= k < cs.len() implies !ss.falsified(
                            #[trigger] cs[k],
                        ) by {
                            lemma_quiescent_no_conflict(cs, ss, k);
                        }
                    }
                }
                return PropagateResult::NoConflict;
            },
            Some(lit) => {
                proof {
                    let sd = env.state();
                    assert(sd.queue =~= ss.queue.drop_first());
                    assert(sd == ss.dequeue());
                    assert(lit == ss.queue[0]);
                    assert forall|i: int| 0 <= i < sd.queue.len() implies ss.queue.contains(
                        #[trigger] sd.queue[i],
                    ) by {
                        assert(sd.queue[i] == ss.queue[i + 1]);
                    }
                    lemma_requeue_wf(ss, sd);
                    assert(ss.lit_true(ss.queue[0]));
                }
                let ghost sd = env.state();
                let step = propagate_literal(env, lit);
                proof {
                    let st = env.state();
                    let ct = env.clauses();
                    lemma_trail_bounded(st);
                    assert(st.trail.len() - sd.trail.len() == st.queue.len() - sd.queue.len()) by {
                        assert(st.trail.subrange(
                            sd.trail.len() as int,
                            st.trail.len() as int,
                        ).len() == st.queue.subrange(
                            sd.queue.len() as int,
                            st.queue.len() as int,
                        ).len());
                    }
                    assert(ss.rounds() > 0 && st.rounds() == ss.rounds() - 1);
                    assert(propagate_all(cs, ss, ss.rounds()) == (if step is Conflict {
                        Drawn { clauses: ct, state: st.count_conflict(), conflict: true }
                    } else {
                        propagate_all(ct, st, st.rounds())
                    }));
                    assert(reordered(c0, ct)) by {
                        assert forall|k: int| 0 <= k < c0.len() implies (
                        #[trigger] ct[k]).to_multiset() == c0[k].to_multiset() by {
                            assert(cs[k].to_multiset() == c0[k].to_multiset());
                        }
                    }
                    assert(extends(s0.trail, st.trail)) by {
                        assert(st.trail.subrange(0, s0.trail.len() as int) =~= sd.trail.subrange(
                            0,
                            sd.trail.len() as int,
                        ).subrange(0, s0.trail.len() as int));
                        assert(sd.trail.subrange(0, sd.trail.len() as int) =~= sd.trail);
                    }
                    assert forall|m: spec_fn(int) -> bool|
                        models(m, c0) && agrees(m, s0.trail) implies agrees(m, st.trail) by {
                        lemma_reordered_models(m, c0, cs);
                    }
                    if ok0 {
                        let p = ss.trail.len() - ss.queue.len();
                        assert(ss.trail[p] == ss.trail.subrange(p, ss.trail.len() as int)[0]);
                        assert(sd.queue_from(p + 1)) by {
                            assert(sd.queue =~= sd.trail.subrange(p + 1, sd.trail.len() as int));
                        }
                        lemma_settled_frame(cs, ss, sd, p, Set::empty());
                        lemma_queue_follows(sd, st, p + 1);
                        if step is Conflict {
                            lemma_propagated_monotone(ct, st, p, drawn);
                        }
                    }
                }
                if step == PropagateResult::Conflict {
                    let ghost st = env.state();
                    env.solver_state.propagation_queue.clear();
                    if env.solver_state.statistics.conflicts < usize::MAX {
                        env.solver_state.statistics.conflicts =
                            env.solver_state.statistics.conflicts + 1;
                    }
                    proof {
                        let se = env.state();
                        assert(se.queue =~= Seq::<Literal>::empty());
                        assert(se.boundaries =~= st.boundaries);
                        assert(se.watches =~= st.watches);
                        assert(se == st.count_conflict());
                        lemma_requeue_wf(st, se);
                        let k = choose|k: int|
                            0 <= k < env.clauses().len() && st.falsified(
                                #[trigger] env.clauses()[k],
                            );
                        assert(se.falsified(env.clauses()[k])) by {
                            assert forall|i: int| 0 <= i < env.clauses()[k].len() implies se.lit_false(
                                #[trigger] env.clauses()[k][i],
                            ) by {
                                assert(st.lit_false(env.clauses()[k][i]));
                            }
                        }
                        if ok0 {
                            lemma_settled_frame(env.clauses(), st, se, drawn, Set::empty());
                        }
                    }
                    return PropagateResult::Conflict;
                }
            },
        }
    }
}

/// Opens a decision level: what is asserted from now on is undone together.
pub fn increment_decision_level(env: &mut SolverState)
    requires
        old(env)@.wf(),
    ensures
        final(env)@ == old(env)@.open_level(),
        final(env)@.wf(),
{
    proof {
        lemma_open_level(Seq::empty(), env@);
    }
    let dl = env.decision_stack.len();
    env.decision_boundaries.push(DecisionIndex(dl));
    assert(env@.boundaries =~= old(env)@.open_level().boundaries);
    assert(env@.watches =~= old(env)@.watches);
}

/// Undoes the last decision: the literals asserted since the current
/// decision level was opened leave the trail, last first, their variables
/// become unassigned and go back into the variable order with priority 0,
/// and the level is closed. The propagation queue is emptied, since what it
/// held belonged to that level; the watchers stay as they are. At the root
/// level everything asserted is undone. On an empty trail nothing changes.
pub fn undo_last_decision(env: &mut Env)
    requires
        old(env).wf(),
    ensures
        final(env).state() == old(env).state().undone(),
        final(env).clauses() == old(env).clauses(),
        final(env).wf(),
        propagated_upto(old(env).clauses(), old(env).state(), old(env).state().level_start())
            ==> quiescent(final(env).clauses(), final(env).state()),
{
    let ghost s0 = env.state();
    if env.solver_state.decision_stack.len() == 0 {
        proof {
            if propagated_upto(env.clauses(), s0, s0.level_start()) {
                lemma_empty_quiescent(env.clauses(), s0);
            }
        }
        return ;
    }
    let target: usize = match env.solver_state.decision_boundaries.pop() {
        Some(boundary) => boundary.0,
        None => 0,
    };
    env.solver_state.propagation_queue.clear();
    let ghost s1 = env.state();
    proof {
        assert(s1.boundaries =~= s0.close_level().boundaries);
        assert(s1.watches =~= s0.watches);
        assert(s1.queue =~= s0.close_level().queue);
        assert(s1 == s0.close_level());
        lemma_close_level(s0);
        assert(target == s0.level_start());
        lemma_cut_step_full(s1);
        if propagated_upto(env.clauses(), s0, s0.level_start()) {
            lemma_undone_quiescent(env.clauses(), s0);
        }
    }
    while env.solver_state.decision_stack.len() > target
        invariant
            s1.wf(),
            s1 == s0.close_level(),
            target <= env.state().trail.len() <= s1.trail.len(),
            env.state() == s1.cut_to(env.state().trail.len() as int),
            env.state().wf(),
            env.state().queue.len() == 0,
            forall|k: int|
                0 <= k < env.state().boundaries.len() ==> #[trigger] env.state().boundaries[k]
                    <= target,
            env.clauses() == old(env).clauses(),
            env.store_ok(),
        decreases env.state().trail.len(),
    {
        let ghost sc = env.state();
        match env.solver_state.decision_stack.pop() {
            Some(lit) => {
                let var = lit.variable();
                assert(sc.in_range(sc.trail[sc.trail.len() - 1]));
                *env.solver_state.assignment.index_mut(var) = Value::unassigned();
                let _ = queue_push(&mut env.solver_state.variable_order, var.number(), 0);
                proof {
                    let st = env.state();
                    assert(st.trail =~= sc.pop_step().trail);
                    assert(st.boundaries =~= sc.boundaries);
                    assert(st.watches =~= sc.watches);
                    assert(st == sc.pop_step());
                    lemma_pop_step_wf(sc);
                    lemma_cut_step(s1, sc.trail.len() as int);
                }
            },
            None => {},
        }
    }
    proof {
        let st = env.state();
        assert(st == s0.undone());
        assert(watches_ok(env.clauses(), st.watches));
    }
}

/// Takes variables from the variable order, greatest priority first, until
/// one is unassigned: its positive literal is the next decision. A variable
/// that is assigned already is dropped. When the order is exhausted there is
/// nothing left to decide.
pub fn next_decision(env: &mut Env) -> (decision: Option<Literal>)
    requires
        old(env).wf(),
    ensures
        final(env).wf(),
        final(env).clauses() == old(env).clauses(),
        final(env).state() == (StateView { order: final(env).state().order, ..old(env).state() }),
        forall|u: i32| #[trigger]
            final(env).state().order.contains_key(u) ==> old(env).state().order.contains_key(u)
                && final(env).state().order[u] == old(env).state().order[u],
        match decision {
            Some(lit) => {
                &&& lit.code() % 2 == 0
                &&& old(env).state().in_range(lit)
                &&& old(env).state().lit_unset(lit)
                &&& old(env).state().order.contains_key(lit.var_index() as i32)
                &&& !final(env).state().order.contains_key(lit.var_index() as i32)
                &&& forall|u: i32| #[trigger]
                    old(env).state().order.contains_key(u) && old(env).state().assignment[u as int].is_unset()
                        ==> old(env).state().order[u] <= old(env).state().order[lit.var_index() as i32]
                &&& forall|u: i32| #[trigger]
                    old(env).state().order.contains_key(u) && !final(env).state().order.contains_key(
                        u,
                    ) && u != lit.var_index() ==> !old(env).state().assignment[u as int].is_unset()
                        && old(env).state().order[u] >= old(env).state().order[lit.var_index() as i32]
                &&& forall|u: i32| #[trigger]
                    final(env).state().order.contains_key(u) ==> old(env).state().order[u] <= old(
                        env,
                    ).state().order[lit.var_index() as i32]
            },
            None => {
                &&& final(env).state().order.dom() == Set::<i32>::empty()
                &&& forall|u: i32| #[trigger]
                    old(env).state().order.contains_key(u)
                        ==> !old(env).state().assignment[u as int].is_unset()
            },
        },
{
    let ghost s0 = env.state();
    loop
        invariant
            env.wf(),
            env.clauses() == old(env).clauses(),
            s0 == old(env).state(),
            env.state() == (StateView { order: env.state().order, ..s0 }),
            forall|u: i32| #[trigger]
                env.state().order.contains_key(u) ==> s0.order.contains_key(u)
                    && env.state().order[u] == s0.order[u],
            forall|u: i32| #[trigger]
                s0.order.contains_key(u) && !env.state().order.contains_key(u)
                    ==> !s0.assignment[u as int].is_unset(),
            forall|u: i32, w: i32|
                s0.order.contains_key(u) && !env.state().order.contains_key(u)
                    && #[trigger] env.state().order.contains_key(w) ==> #[trigger] s0.order[u]
                    >= s0.order[w],
        decreases env.state().order.dom().len(),
    {
        let ghost sc = env.state();
        let top = queue_pop(&mut env.solver_state.variable_order);
        proof {
            let st = env.state();
            assert(st.boundaries =~= sc.boundaries);
            assert(st.watches =~= sc.watches);
            assert(st == (StateView { order: st.order, ..s0 }));
            if let Some((index, _)) = top {
                assert(st.order.dom() =~= sc.order.dom().remove(index));
            }
            lemma_reorder_wf(sc, st);
            assert(watches_ok(env.clauses(), st.watches));
        }
        match top {
            Some((index, _)) => {
                match Variable::from_index(index) {
                    Some(var) => {
                        if env.solver_state.assignment.index(var).is_unassigned() {
                            return Some(var.to_positive_literal());
                        }
                    },
                    None => {},
                }
            },
            None => {
                return None;
            },
        }
    }
}

/// Counts one decision.
fn count_decision(env: &mut SolverState)
    requires
        old(env)@.wf(),
    ensures
        final(env)@ == old(env)@.count_decision(),
        final(env)@.wf(),
{
    if env.statistics.decisions < usize::MAX {
        env.statistics.decisions = env.statistics.decisions + 1;
    }
    assert(env@ =~= old(env)@.count_decision());
    proof {
        lemma_frame_wf(old(env)@, env@);
    }
}

/// One round of the search: the consequences of what is asserted are drawn,
/// and then a decision is made or taken back. After a propagation without
/// conflict the next variable of the variable order is decided, at a new
/// decision level, and the search has succeeded when none is left. After a
/// conflict the last decision is undone and its negation asserted in its
/// place, as a consequence of the decisions before it; a conflict with no
/// decision left to undo means that no assignment makes every clause true.
/// `None` says that the search goes on; each such round brings it forward.
pub fn search_step(env: &mut Env) -> (outcome: Option<crate::literal::Result>)
    requires
        old(env).wf(),
        ready(old(env).clauses(), old(env).state()),
    ensures
        final(env).wf(),
        final(env).state().num_vars() == old(env).state().num_vars(),
        final(env).state().trail.len() <= final(env).state().num_vars(),
        outcome is None ==> ready(final(env).clauses(), final(env).state()) && weight(
            final(env).state().boundaries,
            final(env).state().trail.len() as int,
            final(env).state().num_vars(),
        ) > weight(
            old(env).state().boundaries,
            old(env).state().trail.len() as int,
            old(env).state().num_vars(),
        ),
        outcome == Some(crate::literal::Result::Sat) ==> forall|k: int|
            0 <= k < final(env).clauses().len() ==> final(env).state().satisfied(
                #[trigger] final(env).clauses()[k],
            ),
        forall|clauses: Seq<Seq<Literal>>, root: Seq<Literal>| #[trigger]
            grounded(clauses, root, old(env).clauses(), old(env).state()) ==> grounded(
                clauses,
                root,
                final(env).clauses(),
                final(env).state(),
            ) && (outcome == Some(crate::literal::Result::Sat) ==> consistent(clauses, root)) && (
            outcome == Some(crate::literal::Result::Unsat) ==> !consistent(clauses, root)),
        final(env).state().statistics.conflicts >= old(env).state().statistics.conflicts,
        final(env).state().statistics.decisions >= old(env).state().statistics.decisions,
        final(env).state().statistics.propagations >= old(env).state().statistics.propagations,
{
    let ghost s_in = env.state();
    let ghost c_in = env.clauses();
    let ghost n = s_in.num_vars();
    let ghost drawn = s_in.trail.len() - s_in.queue.len();
    let outcome = propagate_units(env);
    let ghost s1 = env.state();
    let ghost c1 = env.clauses();
    proof {
        lemma_trail_bounded(s_in);
        lemma_trail_bounded(s1);
        lemma_covers_propagate(c_in, c1, s_in, s1);
        lemma_weight_range(s_in.boundaries, s_in.trail.len() as int, s1.trail.len() as int, n);
        assert(levels_nonempty(s1.trail, s1.boundaries));
        assert forall|c0: Seq<Seq<Literal>>, root: Seq<Literal>| #[trigger]
            grounded(c0, root, c_in, s_in) implies grounded(c0, root, c1, s1) by {
            lemma_grounded_propagate(c0, root, c_in, s_in, c1, s1);
        }
    }
    match outcome {
        PropagateResult::Conflict => {
            let level = env.solver_state.decision_level();
            if level == 0 {
                proof {
                    let k = choose|k: int| 0 <= k < c1.len() && s1.falsified(#[trigger] c1[k]);
                    assert forall|c0: Seq<Seq<Literal>>, root: Seq<Literal>| #[trigger]
                        grounded(c0, root, c_in, s_in) implies !consistent(c0, root) by {
                        assert(grounded(c0, root, c1, s1));
                        assert forall|m: spec_fn(int) -> bool|
                            !(models(m, c0) && agrees(m, root)) by {
                            lemma_root_conflict_reordered(c0, c1, s1, k, root, m);
                        }
                    }
                }
                return Some(crate::literal::Result::Unsat);
            }
            let at = env.solver_state.decision_boundaries[level - 1].0;
            assert(at == s1.boundaries[level - 1]);
            let decision = env.solver_state.decision_stack[at];
            let flipped = decision.negate();
            undo_last_decision(env);
            let ghost s2 = env.state();
            proof {
                assert(s1.in_range(s1.trail[at as int]));
                lemma_flip_in_range(decision.code(), n);
                lemma_propagated_monotone(c1, s1, drawn, at as int);
                assert(s1.popped(at as int, decision.var_index())) by {
                    assert(s1.trail[at as int].var_index() == decision.var_index());
                }
                Value::lemma_of_raw(2);
                assert(s2.lit_unset(flipped));
                assert(s2.queue_from(s2.trail.len() as int)) by {
                    assert(s2.queue =~= s2.trail.subrange(
                        s2.trail.len() as int,
                        s2.trail.len() as int,
                    ));
                }
                lemma_assert_pending(c1, s2, flipped);
                lemma_covers_flip(c1, s1, flipped);
                lemma_weight_flip(s1.boundaries, s1.trail.len() as int, n);
            }
            let _ = enqueue(&mut env.solver_state, flipped);
            proof {
                let s3 = env.state();
                assert(s3 == s2.assert_lit(flipped));
                assert(s3.trail =~= s1.trail.subrange(0, at as int).push(flipped));
                assert(s3.boundaries =~= s1.boundaries.drop_last());
                lemma_trail_bounded(s3);
                assert(watches_ok(env.clauses(), s3.watches));
                assert(s3.trail.len() == at + 1);
                let k = choose|k: int| 0 <= k < c1.len() && s1.falsified(#[trigger] c1[k]);
                assert forall|i: int| 0 <= i < c1[k].len() implies s1.in_range(
                    #[trigger] c1[k][i],
                ) by {}
                assert(levels_nonempty(s3.trail, s3.boundaries)) by {
                    assert forall|j: int| 0 <= j < s3.boundaries.len() implies 0
                        <= #[trigger] s3.boundaries[j] < s3.trail.len() by {
                        assert(s1.boundaries[j] < s1.boundaries[level - 1]);
                        assert(0 <= s1.boundaries[j]);
                    }
                    assert forall|i: int, j: int|
                        0 <= i < j < s3.boundaries.len() implies #[trigger] s3.boundaries[i]
                        < #[trigger] s3.boundaries[j] by {
                        assert(s1.boundaries[i] < s1.boundaries[j]);
                    }
                }
                assert forall|c0: Seq<Seq<Literal>>, root: Seq<Literal>| #[trigger]
                    grounded(c0, root, c_in, s_in) implies grounded(c0, root, c1, s3) by {
                    assert(grounded(c0, root, c1, s1));
                    assert forall|m: spec_fn(int) -> bool| models(m, c0) implies clause_holds(
                        m,
                        c1[k],
                    ) by {
                        lemma_reordered_models(m, c0, c1);
                    }
                    lemma_justified_flip(c0, s1, c1[k], root, flipped);
                    assert(extends(root, s3.trail)) by {
                        assert(s3.trail.subrange(0, root.len() as int) =~= s1.trail.subrange(
                            0,
                            root.len() as int,
                        ));
                    }
                    assert forall|j: int| 0 <= j < s3.boundaries.len() implies #[trigger] s3.boundaries[j]
                        >= root.len() by {
                        assert(s3.boundaries[j] == s1.boundaries[j]);
                    }
                }
            }
            None
        },
        PropagateResult::NoConflict => {
            let choice = next_decision(env);
            let ghost s2 = env.state();
            proof {
                assert(quiescent(c1, s2)) by {
                    lemma_settled_frame(c1, s1, s2, s1.trail.len() as int, Set::empty());
                }
                assert(s2 == (StateView { order: s2.order, ..s1 }));
            }
            match choice {
                None => {
                    proof {
                        assert(order_covers(c1, s2)) by {
                            assert forall|k: int, i: int|
                                0 <= k < c1.len() && 0 <= i < c1[k].len() && s2.lit_unset(
                                    #[trigger] c1[k][i],
                                ) implies s2.order.contains_key(c1[k][i].var_index() as i32) by {
                                assert(s1.lit_unset(c1[k][i]));
                                assert(s1.order.contains_key(c1[k][i].var_index() as i32));
                                assert(s1.in_range(c1[k][i]));
                            }
                        }
                        assert forall|k: int| 0 <= k < c1.len() implies s2.satisfied(
                            #[trigger] c1[k],
                        ) by {
                            lemma_complete_satisfies(c1, s2, k);
                        }
                        assert forall|c0: Seq<Seq<Literal>>, root: Seq<Literal>| #[trigger]
                            grounded(c0, root, c_in, s_in) implies grounded(c0, root, c1, s2)
                            && consistent(c0, root) by {
                            assert(grounded(c0, root, c1, s1));
                            lemma_satisfied_consistent(c0, c1, s2, root);
                        }
                    }
                    Some(crate::literal::Result::Sat)
                },
                Some(lit) => {
                    proof {
                        lemma_open_level(c1, s2);
                        let s3 = s2.open_level();
                        assert(s3.queue_from(s3.trail.len() as int)) by {
                            assert(s3.queue =~= s3.trail.subrange(
                                s3.trail.len() as int,
                                s3.trail.len() as int,
                            ));
                        }
                        assert(s3.lit_unset(lit) && s3.in_range(lit));
                        lemma_assert_pending(c1, s3, lit);
                        lemma_assert_lit_wf(s3, lit);
                        lemma_settled_frame(
                            c1,
                            s3.assert_lit(lit),
                            s3.assert_lit(lit).count_decision(),
                            s3.trail.len() as int,
                            Set::empty(),
                        );
                        lemma_covers_decide(c1, s1, s2.order, lit);
                    }
                    increment_decision_level(&mut env.solver_state);
                    let _ = enqueue(&mut env.solver_state, lit);
                    count_decision(&mut env.solver_state);
                    proof {
                        let s5 = env.state();
                        assert(s5 == s2.open_level().assert_lit(lit).count_decision());
                        lemma_trail_bounded(s5);
                        lemma_weight_decision(s1.boundaries, s1.trail.len() as int, n);
                        assert(watches_ok(env.clauses(), s5.watches));
                        assert(s5.queue_from(s5.trail.len() - s5.queue.len())) by {
                            assert(s5.queue == s2.open_level().assert_lit(lit).queue);
                        }
                        assert(s5.boundaries =~= s1.boundaries.push(s1.trail.len() as int));
                        assert(s5.trail =~= s1.trail.push(lit));
                        assert(levels_nonempty(s5.trail, s5.boundaries)) by {
                            assert forall|j: int| 0 <= j < s5.boundaries.len() implies 0
                                <= #[trigger] s5.boundaries[j] < s5.trail.len() by {
                                if j < s1.boundaries.len() {
                                    assert(0 <= s1.boundaries[j] < s1.trail.len());
                                }
                            }
                            assert forall|i: int, j: int|
                                0 <= i < j < s5.boundaries.len() implies #[trigger] s5.boundaries[i]
                                < #[trigger] s5.boundaries[j] by {
                                if j < s1.boundaries.len() {
                                    assert(s1.boundaries[i] < s1.boundaries[j]);
                                } else {
                                    assert(s1.boundaries[i] < s1.trail.len());
                                }
                            }
                        }
                        assert forall|c0: Seq<Seq<Literal>>, root: Seq<Literal>| #[trigger]
                            grounded(c0, root, c_in, s_in) implies grounded(c0, root, c1, s5) by {
                            assert(grounded(c0, root, c1, s1));
                            lemma_justified_decide(c0, s1.trail, s1.boundaries, root, lit);
                            assert(extends(root, s5.trail)) by {
                                assert(s5.trail.subrange(0, root.len() as int)
                                    =~= s1.trail.subrange(0, root.len() as int));
                            }
                            assert forall|j: int| 0 <= j < s5.boundaries.len() implies #[trigger] s5.boundaries[j]
                                >= root.len() by {
                                if j < s1.boundaries.len() {
                                    assert(s5.boundaries[j] == s1.boundaries[j]);
                                }
                            }
                        }
                    }
                    None
                },
            }
        },
    }
}

/// Searches for an assignment that makes every clause true, round by round
/// until a round has the answer.
pub fn search(env: &mut Env) -> (result: crate::literal::Result)
    requires
        old(env).wf(),
        old(env).state().level() == 0,
        pending_ok(old(env).clauses(), old(env).state()),
        order_covers(old(env).clauses(), old(env).state()),
    ensures
        final(env).wf(),
        reordered(old(env).clauses(), final(env).clauses()),
        final(env).state().num_vars() == old(env).state().num_vars(),
        extends(old(env).state().trail, final(env).state().trail),
        result is Sat ==> forall|k: int|
            0 <= k < final(env).clauses().len() ==> final(env).state().satisfied(
                #[trigger] final(env).clauses()[k],
            ),
        (result is Sat) == consistent(old(env).clauses(), old(env).state().trail),
        final(env).state().statistics.conflicts >= old(env).state().statistics.conflicts,
        final(env).state().statistics.decisions >= old(env).state().statistics.decisions,
        final(env).state().statistics.propagations >= old(env).state().statistics.propagations,
{
    let ghost c0 = env.clauses();
    let ghost s0 = env.state();
    let ghost root = s0.trail;
    let ghost n = s0.num_vars();
    proof {
        lemma_justified_start(c0, root);
        assert(s0.boundaries =~= Seq::<int>::empty());
        assert(root.subrange(0, root.len() as int) =~= root);
        assert(reordered(c0, c0));
        lemma_trail_bounded(s0);
        lemma_weight_bound(s0.boundaries, s0.trail.len() as int, n);
    }
    loop
        invariant
            env.wf(),
            c0 == old(env).clauses(),
            s0 == old(env).state(),
            root == s0.trail,
            n == s0.num_vars(),
            env.state().num_vars() == n,
            env.state().trail.len() <= n,
            ready(env.clauses(), env.state()),
            grounded(c0, root, env.clauses(), env.state()),
            env.state().statistics.conflicts >= s0.statistics.conflicts,
            env.state().statistics.decisions >= s0.statistics.decisions,
            env.state().statistics.propagations >= s0.statistics.propagations,
        decreases pow3(n) - weight(env.state().boundaries, env.state().trail.len() as int, n),
    {
        let ghost before = env.state();
        let ghost held = env.clauses();
        let outcome = search_step(env);
        proof {
            assert(grounded(c0, root, held, before));
            lemma_weight_bound(env.state().boundaries, env.state().trail.len() as int, n);
        }
        match outcome {
            Some(result) => {
                return result;
            },
            None => {},
        }
    }
}

impl Env {
    /// The state of the engine.
    pub fn solver_state(&self) -> (state: &SolverState)
        ensures
            state@ == self.state(),
    {
        &self.solver_state
    }

    /// The state of the engine, to be changed in place. The clauses stay as
    /// they are.
    pub fn solver_state_mut(&mut self) -> (state: &mut SolverState)
        ensures
            state@ == old(self).state(),
            final(self).state() == final(state)@,
            final(self).clauses() == old(self).clauses(),
            final(self).store_ok() == old(self).store_ok(),
    {
        &mut self.solver_state
    }

    /// The number of clauses in the store.
    pub fn clause_count(&self) -> (count: usize)
        ensures
            count == self.clauses().len(),
    {
        self.problem.len()
    }

    /// The clause with the identifier `id`.
    pub fn clause(&self, id: ClauseId) -> (clause: &Clause)
        requires
            0 <= id.0 < self.clauses().len(),
        ensures
            clause.literals() == self.clauses()[id.0 as int],
            self.store_ok() ==> clause.header().id == id && clause.well_formed(),
    {
        let _ = self.problem.len();
        self.problem.index(id)
    }

    /// An engine for the clauses `clauses`, whose variables come before
    /// `next_var`: nothing is asserted yet, each clause is among the
    /// watchers of its first two literals, and the variable order holds every
    /// variable of the clauses.
    pub fn new(clauses: Vec<Clause>, next_var: Variable) -> (env: Env)
        requires
            forall|k: int| 0 <= k < clauses@.len() ==> (#[trigger] clauses@[k]).well_formed(),
            clauses_ok(formula(clauses@), next_var.index() + 1),
        ensures
            env.wf(),
            env.clauses() == formula(clauses@),
            env.state().num_vars() == next_var.index() + 1,
            env.state().trail.len() == 0,
            env.state().boundaries.len() == 0,
            env.state().queue.len() == 0,
            forall|v: int|
                0 <= v < env.state().num_vars() ==> (#[trigger] env.state().assignment[v]).raw() == 2,
            env.state().statistics == (Statistics { conflicts: 0, decisions: 0, propagations: 0 }),
            ranked(env.state().order, first_seen(formula(clauses@))),
            pending_ok(env.clauses(), env.state()),
            order_covers(env.clauses(), env.state()),
    {
        let ghost f = formula(clauses@);
        let ghost n = next_var.index() + 1;
        proof {
            use_type_invariant(next_var);
            Value::lemma_of_raw(2);
            lemma_first_seen(f);
        }
        let variable_order = initial_variable_order(&clauses);
        let problem = intern_clauses(clauses);
        proof {
            assert forall|k: int| 0 <= k < problem@.len() implies (#[trigger] problem@[k]).well_formed()
                && problem@[k].literals().len() >= 2 && problem@[k].literals()[0].code() < 2 * (
            next_var.index() + 1) && problem@[k].literals()[1].code() < 2 * (next_var.index()
                + 1) by {
                assert(problem@[k].literals() == f[k]);
                assert(f[k].len() >= 2);
                assert(0 <= f[k][0].code() < 2 * n);
                assert(0 <= f[k][1].code() < 2 * n);
            }
        }
        let mut watchlist: TaggedVec<Literal, BTreeSet<i64>> = TaggedVec::new();
        initialize_watchlist(&next_var, &problem, &mut watchlist);
        let mut assignment: TaggedVec<Variable, Value> = TaggedVec::new();
        assignment.ensure_index(&next_var, Value::unassigned());
        let env = Env {
            problem,
            solver_state: SolverState {
                decision_stack: Vec::new(),
                decision_boundaries: Vec::new(),
                assignment,
                watchlist,
                variable_order,
                propagation_queue: VecDeque::new(),
                statistics: empty_statistics(),
            },
        };
        proof {
            let s = env.state();
            assert(env.clauses() =~= f);
            assert(s.boundaries =~= Seq::<int>::empty());
            assert(s.trail =~= Seq::<Literal>::empty());
            assert(s.queue =~= Seq::<Literal>::empty());
            assert forall|code: int| 0 <= code < s.watches.len() implies #[trigger] s.watches[code]
                == watchers_among(env.problem@, env.problem@.len() as int, code) by {
                assert(s.watches[code] =~= watchers_among(
                    env.problem@,
                    env.problem@.len() as int,
                    code,
                ));
            }
            lemma_initial_state(env.problem@, f, s, n);
        }
        env
    }
}

/// The state in which nothing is asserted, each clause is among the
/// watchers of its first two literals and the variable order holds the
/// variables of the clauses: it is consistent, and it has no consequences
/// left to draw but those of clauses that are false or unit as they stand.
proof fn lemma_initial_state(problem: Seq<Clause>, f: Seq<Seq<Literal>>, s: StateView, n: int)
    requires
        problem.len() == f.len(),
        forall|k: int|
            0 <= k < problem.len() ==> (#[trigger] problem[k]).literals() == f[k]
                && problem[k].header().id.0 == k,
        clauses_ok(f, n),
        0 <= n <= MAX_VARIABLES,
        s.trail.len() == 0,
        s.boundaries.len() == 0,
        s.queue.len() == 0,
        s.assignment.len() == n,
        forall|v: int| 0 <= v < n ==> (#[trigger] s.assignment[v]).raw() == 2,
        s.watches.len() == 2 * n,
        forall|code: int|
            0 <= code < s.watches.len() ==> #[trigger] s.watches[code] == watchers_among(
                problem,
                problem.len() as int,
                code,
            ),
        ranked(s.order, first_seen(f)),
    ensures
        s.wf(),
        watches_ok(f, s.watches),
        pending_ok(f, s),
        order_covers(f, s),
{
    let c = f;
    lemma_first_seen(f);
    assert forall|v: i32| #[trigger] s.order.contains_key(v) implies 0 <= v < s.num_vars() by {
        assert(first_seen(f).contains(v as int));
        let (k, i) = choose|k: int, i: int|
            0 <= k < f.len() && 0 <= i < f[k].len() && (#[trigger] f[k][i]).var_index() == v as int;
        assert(0 <= f[k][i].code() < 2 * n);
    }
    assert(watches_ok(c, s.watches)) by {
        assert forall|code: int, id: i64| 0 <= code < s.watches.len() implies (
        #[trigger] s.watches[code].contains(id) <==> 0 <= id < c.len() && watched(
            c[id as int],
            code,
        ) && !(code == 0 && Set::<i64>::empty().contains(id))) by {
            let among = watchers_among(problem, problem.len() as int, code);
            assert(s.watches[code] == among);
            if among.contains(id) {
                let k = choose|k: int|
                    0 <= k < problem.len() && (#[trigger] problem[k]).header().id.0 == id
                        && watched(problem[k].literals(), code);
                assert(k == id);
            }
            if 0 <= id < c.len() && watched(c[id as int], code) {
                assert(problem[id as int].header().id.0 == id);
            }
        }
    }
    assert(s.queue_from(0)) by {
        assert(s.queue =~= s.trail.subrange(0, 0));
    }
    assert(order_covers(c, s)) by {
        assert forall|k: int, i: int|
            0 <= k < c.len() && 0 <= i < c[k].len() && s.lit_unset(
                #[trigger] c[k][i],
            ) implies s.order.contains_key(c[k][i].var_index() as i32) by {
            let v = c[k][i].var_index();
            assert(0 <= f[k][i].code() < 2 * n);
            assert(first_seen(f).contains(v));
            let q = choose|q: int| 0 <= q < first_seen(f).len() && first_seen(f)[q] == v;
            assert(s.order.contains_key(first_seen(f)[q] as i32));
        }
    }
}

/// Decides whether the clauses `clauses`, whose variables come before
/// `next_var`, can all be made true. A literal that a clause holds more than
/// once is struck but for its first occurrence; the clauses are
/// preprocessed; what the clauses of one literal demand is asserted; the
/// search does the rest.
pub fn solve(clauses: Vec<Clause>, next_var: Variable) -> (result: crate::literal::Result)
    requires
        clauses@.len() <= i64::MAX,
        forall|k: int| 0 <= k < clauses@.len() ==> (#[trigger] clauses@[k]).well_formed(),
        within(formula(clauses@), next_var.index()),
    ensures
        (result is Sat) == satisfiable(formula(clauses@)),
{
    let ghost given = formula(clauses@);
    let ghost n = next_var.index() + 1;
    let mut clauses = clauses;
    remove_repeated_literals(&mut clauses);
    let ghost f = formula(clauses@);
    proof {
        use_type_invariant(next_var);
        lemma_struck(given, f, next_var.index());
        assert(within(f, n));
        lemma_unit_values(f, n);
        lemma_kept_ok(f, n);
    }
    let pp = preprocess(&mut clauses, &next_var);
    if pp.empty_clause || pp.conflict_vars.len() > 0 {
        proof {
            lemma_unsat_early(f, n);
        }
        return crate::literal::Result::Unsat;
    }
    let mut env = Env::new(clauses, next_var);
    let ghost values = pp.initial_assignment@;
    let total = pp.initial_assignment.len();
    let mut at: usize = 0;
    while at < total
        invariant
            0 <= at <= total,
            total == n,
            n == next_var.index() + 1,
            n <= 0x4000_0000,
            values == pp.initial_assignment@,
            values == unit_values(f, n),
            values.len() == n,
            forall|v: int| 0 <= v < n ==> 0 <= (#[trigger] values[v]).raw() <= 2,
            env.wf(),
            env.clauses() == kept(f),
            env.state().num_vars() == n,
            env.state().boundaries.len() == 0,
            pending_ok(env.clauses(), env.state()),
            order_covers(env.clauses(), env.state()),
            forall|v: int| 0 <= v < at ==> (#[trigger] env.state().assignment[v]).raw() == values[v].raw(),
            forall|v: int| at <= v < n ==> (#[trigger] env.state().assignment[v]).raw() == 2,
        decreases total - at,
    {
        match Variable::from_index(at as i32) {
            Some(var) => {
                let value: Value = *pp.initial_assignment.index(var);
                if !value.is_unassigned() {
                    proof {
                        Value::lemma_raw_injective(value, Value::of_raw(0));
                        Value::lemma_of_raw(0);
                    }
                    let lit = if value == Value::lifted_true() {
                        var.to_positive_literal()
                    } else {
                        var.to_negative_literal()
                    };
                    let ghost before = env.state();
                    proof {
                        assert(lit.var_index() == at);
                        assert(lit.code() % 2 == value.raw());
                        assert(before.lit_unset(lit));
                        assert(before.in_range(lit));
                        lemma_assert_pending(env.clauses(), before, lit);
                        lemma_assert_lit_wf(before, lit);
                        Value::lemma_of_raw(lit.code() % 2);
                    }
                    let _ = enqueue(&mut env.solver_state, lit);
                    proof {
                        let after = env.state();
                        assert(after == before.assert_lit(lit));
                        assert(watches_ok(env.clauses(), after.watches));
                        assert(order_covers(env.clauses(), after)) by {
                            assert forall|k: int, i: int|
                                0 <= k < env.clauses().len() && 0 <= i < env.clauses()[k].len()
                                    && after.lit_unset(
                                    #[trigger] env.clauses()[k][i],
                                ) implies after.order.contains_key(
                                env.clauses()[k][i].var_index() as i32,
                            ) by {
                                let x = env.clauses()[k][i];
                                assert(before.in_range(x));
                                if x.var_index() != lit.var_index() {
                                    assert(after.value(x) == before.value(x));
                                }
                                assert(before.lit_unset(x));
                            }
                        }
                    }
                }
            },
            None => {},
        }
        at = at + 1;
    }
    let ghost root = env.state();
    proof {
        assert(units_asserted(f, root)) by {
            assert forall|i: int| 0 <= i < root.trail.len() implies exists|k: int|
                0 <= k < f.len() && (#[trigger] f[k]).len() == 1 && f[k][0]
                    == #[trigger] root.trail[i] by {
                let l = root.trail[i];
                let v = l.var_index();
                assert(root.in_range(l) && root.lit_true(l));
                assert(!values[v].is_unset());
                let k = choose|k: int|
                    0 <= k < f.len() && (#[trigger] f[k]).len() == 1 && f[k][0].var_index() == v
                        && f[k][0].code() % 2 == values[v].raw();
                assert(0 <= f[k][0].code());
                Literal::lemma_code_injective(f[k][0], l);
            }
            assert forall|k: int|
                0 <= k < f.len() && (#[trigger] f[k]).len() == 1 implies root.lit_true(
                f[k][0],
            ) by {
                let l = f[k][0];
                assert(0 <= f[k][0].code() < 2 * next_var.index());
                assert(values[l.var_index()].raw() == l.code() % 2);
            }
        }
    }
    let result = search(&mut env);
    proof {
        match result {
            crate::literal::Result::Sat => {
                lemma_sat_answer(f, n, root, env.state(), env.clauses());
            },
            crate::literal::Result::Unsat => {
                lemma_unsat_answer(f, root);
            },
        }
    }
    result
}

/// Reads a problem in the DIMACS format and decides whether its clauses can
/// all be made true.
pub fn solve_dimacs(input: &str) -> (r: Result<crate::literal::Result, ParseError>)
    ensures
        match r {
            Ok(answer) => dimacs_of(input.spec_bytes()) matches Ok((_, cs)) && cs.len() <= i64::MAX
                && numbering_of(cs).next < MAX_VARIABLES && (answer is Sat) == satisfiable_codes(
                codes_of(cs),
            ),
            Err(e) => match dimacs_of(input.spec_bytes()) {
                Err(found) => e == found,
                Ok((_, cs)) => if cs.len() > i64::MAX {
                    e == ParseError::TooManyClauses
                } else {
                    e == ParseError::TooManyVariables && numbering_of(cs).next >= MAX_VARIABLES
                },
            },
        },
{
    match parse_dimacs(input) {
        Err(e) => Err(e),
        Ok(problem) => {
            proof {
                let cs = dimacs_of(input.spec_bytes())->Ok_0.1;
                let f = formula(problem.clauses@);
                lemma_numbering(cs);
                use_type_invariant(problem.next_var);
                assert forall|k: int, i: int|
                    0 <= k < f.len() && 0 <= i < f[k].len() implies 0 <= (#[trigger] f[k][i]).code()
                    < 2 * problem.next_var.index() by {
                    assert(codes(problem.clauses@[k].literals())[i] == f[k][i].code());
                    assert(0 <= codes_of(cs)[k][i] < 2 * numbering_of(cs).next);
                }
                assert forall|k: int| 0 <= k < f.len() implies codes(#[trigger] f[k]) == codes_of(
                    cs,
                )[k] by {
                    assert(codes(problem.clauses@[k].literals()) == codes_of(cs)[k]);
                }
                lemma_satisfiable_codes(f, codes_of(cs));
            }
            Ok(solve(problem.clauses, problem.next_var))
        },
    }
}

} // verus!
