//! The state of the propagation engine as plain mathematical data, and the
//! invariants that the engine keeps.

use crate::literal::{flip, value_under, Literal, Value, MAX_VARIABLES};
use vstd::prelude::*;

verus! {

/// Counters of what a run of the solver did. A counter that has reached the
/// largest machine integer stays there.
#[derive(Clone, Copy, Debug, PartialEq, Eq, Structural)]
pub struct Statistics {
    /// The number of conflicts that propagation reported.
    pub conflicts: usize,
    /// The number of decisions made.
    pub decisions: usize,
    /// The number of literals asserted by the unit rule.
    pub propagations: usize,
}

/// Statistics of a run in which nothing has happened yet.
pub fn empty_statistics() -> (s: Statistics)
    ensures
        s == (Statistics { conflicts: 0, decisions: 0, propagations: 0 }),
{
    Statistics { conflicts: 0, decisions: 0, propagations: 0 }
}

/// `count` and one more, as far as a machine integer goes.
pub open spec fn bump(count: usize) -> usize {
    if count < usize::MAX {
        (count + 1) as usize
    } else {
        count
    }
}

/// The state of the engine.
pub struct StateView {
    /// The literals asserted so far, in the order in which they were asserted.
    pub trail: Seq<Literal>,
    /// For each open decision level, the length of the trail when it was
    /// entered.
    pub boundaries: Seq<int>,
    /// The value of each variable.
    pub assignment: Seq<Value>,
    /// For each literal code, the identifiers of the clauses that watch the
    /// literal.
    pub watches: Seq<Set<i64>>,
    /// The asserted literals whose consequences are still to be drawn.
    pub queue: Seq<Literal>,
    /// The variables that may be decided next, each with its priority.
    pub order: Map<i32, u64>,
    /// The counters.
    pub statistics: Statistics,
}

/// The two watched literals of `c` are its first two.
pub open spec fn watched(c: Seq<Literal>, code: int) -> bool {
    c[0].code() == code || c[1].code() == code
}

/// No boundary separates the positions `i` and `j` of the trail in such a way
/// that backtracking could remove the literal at `j` and keep the one at `i`.
pub open spec fn not_undone_before(boundaries: Seq<int>, i: int, j: int) -> bool {
    forall|k: int| 0 <= k < boundaries.len() ==> #[trigger] boundaries[k] <= i || j < boundaries[k]
}

impl StateView {
    /// The number of variables.
    pub open spec fn num_vars(self) -> int {
        self.assignment.len() as int
    }

    /// The current decision level.
    pub open spec fn level(self) -> int {
        self.boundaries.len() as int
    }

    /// The literal `l` speaks of a variable of the problem.
    pub open spec fn in_range(self, l: Literal) -> bool {
        0 <= l.code() < 2 * self.num_vars()
    }

    /// The value of `l` under the assignment: 0 if it is true, 1 if it is
    /// false, 2 if its variable is unassigned.
    pub open spec fn value(self, l: Literal) -> int {
        value_under(l.code(), self.assignment[l.var_index()].raw())
    }

    pub open spec fn lit_true(self, l: Literal) -> bool {
        self.value(l) == 0
    }

    pub open spec fn lit_false(self, l: Literal) -> bool {
        self.value(l) == 1
    }

    pub open spec fn lit_unset(self, l: Literal) -> bool {
        self.value(l) >= 2
    }

    /// The trail holds a literal of the variable `v`.
    pub open spec fn var_on_trail(self, v: int) -> bool {
        exists|i: int| 0 <= i < self.trail.len() && (#[trigger] self.trail[i]).var_index() == v
    }

    /// The trail holds the literal `l`.
    pub open spec fn on_trail(self, l: Literal) -> bool {
        exists|i: int| 0 <= i < self.trail.len() && #[trigger] self.trail[i] == l
    }

    /// Every literal of the clause `c` is false.
    pub open spec fn falsified(self, c: Seq<Literal>) -> bool {
        forall|i: int| 0 <= i < c.len() ==> self.lit_false(#[trigger] c[i])
    }

    /// Some literal of the clause `c` is true.
    pub open spec fn satisfied(self, c: Seq<Literal>) -> bool {
        exists|i: int| 0 <= i < c.len() && self.lit_true(#[trigger] c[i])
    }

    /// The trail and the assignment say the same: a variable has a value if
    /// and only if a literal of it is on the trail, and that literal is true.
    pub open spec fn trail_consistent(self) -> bool {
        &&& forall|v: int|
            0 <= v < self.num_vars() ==> 0 <= (#[trigger] self.assignment[v]).raw() <= 2
        &&& forall|i: int|
            0 <= i < self.trail.len() ==> self.in_range(#[trigger] self.trail[i]) && self.lit_true(
                self.trail[i],
            )
        &&& forall|i: int, j: int|
            0 <= i < j < self.trail.len() ==> (#[trigger] self.trail[i]).var_index() != (
            #[trigger] self.trail[j]).var_index()
        &&& forall|v: int|
            0 <= v < self.num_vars() && !(#[trigger] self.assignment[v]).is_unset()
                ==> self.var_on_trail(v)
    }

    /// The boundaries are positions of the trail, in ascending order.
    pub open spec fn boundaries_ordered(self) -> bool {
        &&& forall|k: int|
            0 <= k < self.boundaries.len() ==> 0 <= #[trigger] self.boundaries[k]
                <= self.trail.len()
        &&& forall|j: int, k: int|
            0 <= j < k < self.boundaries.len() ==> #[trigger] self.boundaries[j]
                <= #[trigger] self.boundaries[k]
    }

    /// Every literal on the queue has been asserted.
    pub open spec fn queue_asserted(self) -> bool {
        forall|i: int|
            0 <= i < self.queue.len() ==> self.in_range(#[trigger] self.queue[i]) && self.lit_true(
                self.queue[i],
            )
    }

    /// The variable order holds finitely many variables of the problem.
    pub open spec fn order_in_range(self) -> bool {
        &&& self.order.dom().finite()
        &&& forall|v: i32| #[trigger] self.order.contains_key(v) ==> 0 <= v < self.num_vars()
    }

    /// The invariant of the state that every operation keeps.
    pub open spec fn wf(self) -> bool {
        &&& self.watches.len() == 2 * self.assignment.len()
        &&& self.assignment.len() <= MAX_VARIABLES
        &&& self.trail_consistent()
        &&& self.boundaries_ordered()
        &&& self.queue_asserted()
        &&& self.order_in_range()
    }

    /// The state after the unassigned literal `l` has been asserted.
    pub open spec fn assert_lit(self, l: Literal) -> StateView {
        StateView {
            trail: self.trail.push(l),
            assignment: self.assignment.update(l.var_index(), Value::of_raw(l.code() % 2)),
            queue: self.queue.push(l),
            ..self
        }
    }

    /// The state after the clause `id` has been entered as a watcher of the
    /// literal with code `code`.
    pub open spec fn watch(self, code: int, id: i64) -> StateView {
        StateView { watches: self.watches.update(code, self.watches[code].insert(id)), ..self }
    }

    /// The state after the clause `id` has been taken from the watchers of
    /// the literal with code `code`.
    pub open spec fn unwatch(self, code: int, id: i64) -> StateView {
        StateView { watches: self.watches.update(code, self.watches[code].remove(id)), ..self }
    }

    /// The state after the watchers of the literal with code `code` have
    /// been taken out.
    pub open spec fn unwatch_all(self, code: int) -> StateView {
        StateView { watches: self.watches.update(code, Set::empty()), ..self }
    }

    /// The state after the first literal of the queue has left it.
    pub open spec fn dequeue(self) -> StateView {
        StateView { queue: self.queue.drop_first(), ..self }
    }

    /// The state after a decision level has been opened.
    pub open spec fn open_level(self) -> StateView {
        StateView { boundaries: self.boundaries.push(self.trail.len() as int), ..self }
    }

    /// The trail holds a literal of the variable `v` at position `from` or
    /// behind it.
    pub open spec fn popped(self, from: int, v: int) -> bool {
        exists|i: int|
            from <= i < self.trail.len() && (#[trigger] self.trail[i]).var_index() == v
    }

    /// The state after the trail has been cut to its first `b` literals: the
    /// variables of the others are unassigned, and are in the variable order
    /// with priority 0.
    pub open spec fn cut_to(self, b: int) -> StateView {
        StateView {
            trail: self.trail.subrange(0, b),
            assignment: Seq::new(
                self.assignment.len(),
                |v: int|
                    if self.popped(b, v) {
                        Value::of_raw(2)
                    } else {
                        self.assignment[v]
                    },
            ),
            order: Map::new(
                |v: i32| self.order.contains_key(v) || self.popped(b, v as int),
                |v: i32|
                    if self.popped(b, v as int) {
                        0u64
                    } else {
                        self.order[v]
                    },
            ),
            ..self
        }
    }

    /// The state after the last literal of the trail has been taken back.
    pub open spec fn pop_step(self) -> StateView {
        StateView {
            trail: self.trail.drop_last(),
            assignment: self.assignment.update(self.trail.last().var_index(), Value::of_raw(2)),
            order: self.order.insert(self.trail.last().var_index() as i32, 0u64),
            ..self
        }
    }

    /// The length that the trail had when the current decision level was
    /// entered; 0 at the root level.
    pub open spec fn level_start(self) -> int {
        if self.boundaries.len() == 0 {
            0
        } else {
            self.boundaries.last()
        }
    }

    /// The state without the current decision level.
    pub open spec fn close_level(self) -> StateView {
        StateView {
            boundaries: if self.boundaries.len() == 0 {
                self.boundaries
            } else {
                self.boundaries.drop_last()
            },
            queue: Seq::empty(),
            ..self
        }
    }

    /// The state after the last decision has been undone: the trail is what
    /// it was when the decision was made, the variables asserted since are
    /// unassigned and back in the variable order, and the queue is empty.
    /// Where the trail is empty there is nothing to undo, and the state stays
    /// as it is.
    pub open spec fn undone(self) -> StateView {
        if self.trail.len() == 0 {
            self
        } else {
            self.close_level().cut_to(self.level_start())
        }
    }

    /// The queue holds exactly the literals of the trail from position `p`
    /// on.
    pub open spec fn queue_from(self, p: int) -> bool {
        &&& 0 <= p <= self.trail.len()
        &&& self.queue == self.trail.subrange(p, self.trail.len() as int)
    }
}

/// The clauses can stand in the store of a problem of `n` variables: each has
/// two literals or more, all of them of variables of the problem, and no
/// literal twice.
pub open spec fn clauses_ok(clauses: Seq<Seq<Literal>>, n: int) -> bool {
    &&& clauses.len() <= i64::MAX
    &&& forall|k: int|
        0 <= k < clauses.len() ==> (#[trigger] clauses[k]).len() >= 2
    &&& forall|k: int, i: int|
        0 <= k < clauses.len() && 0 <= i < clauses[k].len() ==> 0 <= (
        #[trigger] clauses[k][i]).code() < 2 * n
    &&& forall|k: int, i: int, j: int|
        0 <= k < clauses.len() && 0 <= i < j < clauses[k].len() ==> (
        #[trigger] clauses[k][i]).code() != (#[trigger] clauses[k][j]).code()
}

/// The clauses of `new` are those of `old`, each with its literals in some
/// order.
pub open spec fn reordered(old: Seq<Seq<Literal>>, new: Seq<Seq<Literal>>) -> bool {
    &&& new.len() == old.len()
    &&& forall|k: int|
        0 <= k < old.len() ==> (#[trigger] new[k]).to_multiset() == old[k].to_multiset()
}

/// Watch well-formedness, in the course of a visit to the watchers of the
/// literal with code `held`: a clause is among the watchers of a literal if
/// and only if the literal is one of its first two, but for the clauses of
/// `pending`, which watch `held` and have been taken out of its watchers.
pub open spec fn watching(
    clauses: Seq<Seq<Literal>>,
    watches: Seq<Set<i64>>,
    held: int,
    pending: Set<i64>,
) -> bool {
    &&& forall|code: int, id: i64|
        0 <= code < watches.len() ==> (#[trigger] watches[code].contains(id) <==> 0 <= id
            < clauses.len() && watched(clauses[id as int], code) && !(code == held
            && pending.contains(id)))
    &&& forall|id: i64| #[trigger]
        pending.contains(id) ==> 0 <= id < clauses.len() && watched(clauses[id as int], held)
}

/// Watch well-formedness: a clause is among the watchers of a literal if and
/// only if the literal is one of its first two.
pub open spec fn watches_ok(clauses: Seq<Seq<Literal>>, watches: Seq<Set<i64>>) -> bool {
    watching(clauses, watches, 0, Set::empty())
}

/// The clause `k` has been attended to for its watched literal number `w`, as
/// far as the literal at position `i` of the trail falsifies it: the other
/// watched literal is then true, and stays so as long as that one is false.
pub open spec fn watch_settled(
    clauses: Seq<Seq<Literal>>,
    s: StateView,
    k: int,
    w: int,
    i: int,
) -> bool {
    s.trail[i].code() == flip(clauses[k][w].code()) ==> exists|j: int|
        0 <= j < s.trail.len() && #[trigger] s.trail[j] == clauses[k][1 - w] && not_undone_before(
            s.boundaries,
            i,
            j,
        )
}

/// The consequences of the first `p` literals of the trail have been drawn,
/// and those of the literal at position `p` for the clauses that watch its
/// negation and are not in `pending`.
pub open spec fn settled(
    clauses: Seq<Seq<Literal>>,
    s: StateView,
    p: int,
    pending: Set<i64>,
) -> bool {
    &&& 0 <= p <= s.trail.len()
    &&& forall|b: int| 0 <= b < s.boundaries.len() ==> #[trigger] s.boundaries[b] <= p
    &&& forall|k: int, w: int, i: int|
        0 <= k < clauses.len() && 0 <= w <= 1 && 0 <= i < p ==> #[trigger] watch_settled(
            clauses,
            s,
            k,
            w,
            i,
        )
    &&& forall|k: int, w: int|
        0 <= k < clauses.len() && 0 <= w <= 1 && p < s.trail.len() && !pending.contains(k as i64)
            ==> #[trigger] watch_settled(clauses, s, k, w, p)
}

/// The consequences of the first `p` literals of the trail have been drawn:
/// where one of them falsifies a watched literal of a clause, the other
/// watched literal of that clause is true. No decision was made before they
/// were drawn.
pub open spec fn propagated_upto(clauses: Seq<Seq<Literal>>, s: StateView, p: int) -> bool {
    &&& 0 <= p <= s.trail.len()
    &&& forall|b: int| 0 <= b < s.boundaries.len() ==> #[trigger] s.boundaries[b] <= p
    &&& forall|k: int, w: int, i: int|
        0 <= k < clauses.len() && 0 <= w <= 1 && 0 <= i < p ==> #[trigger] watch_settled(
            clauses,
            s,
            k,
            w,
            i,
        )
}

/// The queue holds the literals whose consequences have not been drawn, and
/// those of all others have.
pub open spec fn pending_ok(clauses: Seq<Seq<Literal>>, s: StateView) -> bool {
    &&& s.queue.len() <= s.trail.len()
    &&& s.queue_from(s.trail.len() - s.queue.len())
    &&& propagated_upto(clauses, s, s.trail.len() - s.queue.len())
}

/// All consequences have been drawn.
pub open spec fn quiescent(clauses: Seq<Seq<Literal>>, s: StateView) -> bool {
    &&& s.queue.len() == 0
    &&& propagated_upto(clauses, s, s.trail.len() as int)
}

} // verus!

verus! {

/// The literals of the clause `c`, its first two exchanged unless the second
/// has the code `held`.
pub open spec fn normalized(c: Seq<Literal>, held: int) -> Seq<Literal> {
    if c[1].code() != held {
        c.update(0, c[1]).update(1, c[0])
    } else {
        c
    }
}

/// The first position of `c`, from `from` on, whose literal is not false
/// under the assignment of `s`; the length of `c` if there is none.
pub open spec fn first_open(s: StateView, c: Seq<Literal>, from: int) -> int
    decreases c.len() - from,
{
    if from >= c.len() {
        c.len() as int
    } else if !s.lit_false(c[from]) {
        from
    } else {
        first_open(s, c, from + 1)
    }
}

/// The literals of the clause `c` after the visit that the assertion of `l`
/// brings: the falsified watched literal stands second, and has changed
/// places with the first literal from the third on that is not false, if the
/// first literal is not true and there is such a literal.
pub open spec fn visit_clause(s: StateView, c: Seq<Literal>, l: Literal) -> Seq<Literal> {
    let n = normalized(c, flip(l.code()));
    let j = first_open(s, n, 2);
    if !s.lit_true(n[0]) && j < n.len() {
        n.update(1, n[j]).update(j, n[1])
    } else {
        n
    }
}

/// Whether the visit of the clause `c` moves its watch: the first literal is
/// not true, and a literal from the third on is not false.
pub open spec fn visit_moves(s: StateView, c: Seq<Literal>, l: Literal) -> bool {
    let n = normalized(c, flip(l.code()));
    !s.lit_true(n[0]) && first_open(s, n, 2) < n.len()
}

/// What the visit of the clause `c` finds: a conflict if no literal of `c`
/// but the first two might still be true, the first is false and the second
/// is the negation of `l`.
pub open spec fn visit_result(s: StateView, c: Seq<Literal>, l: Literal) -> bool {
    let n = normalized(c, flip(l.code()));
    first_open(s, n, 2) >= n.len() && s.lit_false(n[0])
}

/// The state after the visit of the clause `c`, whose identifier is `id`: the
/// clause is among the watchers of its second literal again, and its first
/// literal has been asserted if it was unassigned and no literal from the
/// third on could take the place of the second.
pub open spec fn visit_state(s: StateView, c: Seq<Literal>, id: i64, l: Literal) -> StateView {
    let n = normalized(c, flip(l.code()));
    let j = first_open(s, n, 2);
    if s.lit_true(n[0]) {
        s.watch(flip(l.code()), id)
    } else if j < n.len() {
        s.watch(n[j].code(), id)
    } else if s.lit_unset(n[0]) {
        s.watch(flip(l.code()), id).assert_lit(n[0]).count_propagation()
    } else {
        s.watch(flip(l.code()), id)
    }
}

impl StateView {
    /// The state after one more application of the unit rule has been
    /// counted.
    pub open spec fn count_propagation(self) -> StateView {
        StateView {
            statistics: Statistics {
                propagations: bump(self.statistics.propagations),
                ..self.statistics
            },
            ..self
        }
    }

    /// The state after one more decision has been counted.
    pub open spec fn count_decision(self) -> StateView {
        StateView {
            statistics: Statistics { decisions: bump(self.statistics.decisions), ..self.statistics },
            ..self
        }
    }

    /// The state after a conflict has been counted and the queue emptied.
    pub open spec fn count_conflict(self) -> StateView {
        StateView {
            queue: Seq::empty(),
            statistics: Statistics { conflicts: bump(self.statistics.conflicts), ..self.statistics },
            ..self
        }
    }

    /// How many literals can at most leave the queue before it is empty:
    /// those that it holds and one for each variable without a value.
    pub open spec fn rounds(self) -> nat {
        if self.trail.len() <= self.num_vars() {
            (self.queue.len() + self.num_vars() - self.trail.len()) as nat
        } else {
            self.queue.len()
        }
    }
}

/// The clauses and the state that propagation has reached, and whether it
/// found a clause false.
pub struct Drawn {
    /// The literals of each clause, in their order.
    pub clauses: Seq<Seq<Literal>>,
    /// The state of the engine.
    pub state: StateView,
    /// Whether a clause has been found false.
    pub conflict: bool,
}

/// What the visits of the clauses of `pending` with an identifier below `n`
/// make of `clauses` and `s`, after `l` has been asserted. The clauses are
/// visited in ascending order of their identifiers; once one of them has
/// been found false, the others go back among the watchers of the negation of
/// `l` unvisited.
pub open spec fn visit_below(
    clauses: Seq<Seq<Literal>>,
    s: StateView,
    pending: Set<i64>,
    l: Literal,
    n: int,
) -> Drawn
    decreases n,
{
    if n <= 0 {
        Drawn { clauses, state: s, conflict: false }
    } else {
        let before = visit_below(clauses, s, pending, l, n - 1);
        let id = (n - 1) as i64;
        if !pending.contains(id) {
            before
        } else if before.conflict {
            Drawn { state: before.state.watch(flip(l.code()), id), ..before }
        } else {
            Drawn {
                clauses: before.clauses.update(
                    n - 1,
                    visit_clause(before.state, before.clauses[n - 1], l),
                ),
                state: visit_state(before.state, before.clauses[n - 1], id, l),
                conflict: visit_result(before.state, before.clauses[n - 1], l),
            }
        }
    }
}

/// What the assertion of `l` makes of `clauses` and `s`: the watchers of the
/// negation of `l` are taken out and visited in ascending order of their
/// identifiers.
pub open spec fn visit_watchers(clauses: Seq<Seq<Literal>>, s: StateView, l: Literal) -> Drawn {
    let held = flip(l.code());
    visit_below(clauses, s.unwatch_all(held), s.watches[held], l, clauses.len() as int)
}

/// What propagation makes of `clauses` and `s` in at most `rounds` rounds.
/// A round takes the first literal from the queue and visits the watchers of
/// its negation; the literals that this asserts join the queue at its end.
/// Propagation ends with an empty queue, or with the first clause found
/// false: then the queue is emptied and the conflict counted.
pub open spec fn propagate_all(clauses: Seq<Seq<Literal>>, s: StateView, rounds: nat) -> Drawn
    decreases rounds,
{
    if s.queue.len() == 0 || rounds == 0 {
        Drawn { clauses, state: s, conflict: false }
    } else {
        let round = visit_watchers(clauses, s.dequeue(), s.queue[0]);
        if round.conflict {
            Drawn { state: round.state.count_conflict(), ..round }
        } else {
            propagate_all(round.clauses, round.state, (rounds - 1) as nat)
        }
    }
}

} // verus!

verus! {

/// `count` and `k` more, as far as a machine integer goes.
pub open spec fn bump_by(count: usize, k: int) -> usize {
    if count + k <= usize::MAX {
        (count + k) as usize
    } else {
        usize::MAX
    }
}

/// The identifiers of `ids` from position `at` on.
pub open spec fn remaining(ids: Seq<i64>, at: int) -> Set<i64> {
    Set::new(|id: i64| exists|q: int| at <= q < ids.len() && #[trigger] ids[q] == id)
}

/// The sequence `long` begins with the sequence `short`.
pub open spec fn extends<T>(short: Seq<T>, long: Seq<T>) -> bool {
    short.len() <= long.len() && long.subrange(0, short.len() as int) == short
}

/// From `s` to `t` the engine has only asserted literals: the trail and the
/// queue have grown by the same literals, and the unit rule has been counted
/// once for each of them.
pub open spec fn asserted_more(s: StateView, t: StateView) -> bool {
    &&& extends(s.trail, t.trail)
    &&& extends(s.queue, t.queue)
    &&& t.trail.subrange(s.trail.len() as int, t.trail.len() as int) == t.queue.subrange(
        s.queue.len() as int,
        t.queue.len() as int,
    )
    &&& t.boundaries == s.boundaries
    &&& t.order == s.order
    &&& t.assignment.len() == s.assignment.len()
    &&& t.statistics == (Statistics {
        propagations: bump_by(s.statistics.propagations, t.trail.len() - s.trail.len()),
        ..s.statistics
    })
}

} // verus!
