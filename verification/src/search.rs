//! Why the search ends, and why its answer is right.

use crate::literal::{flip, Literal, Value};
use crate::model::{agrees, clause_holds, holds, models};
use crate::propagation::lemma_false_not_held;
use crate::state::{
    clauses_ok, extends, not_undone_before, pending_ok, quiescent, reordered, watch_settled,
    StateView,
};
use vstd::prelude::*;

verus! {

/// Every unassigned variable of a clause is in the variable order.
pub open spec fn order_covers(clauses: Seq<Seq<Literal>>, s: StateView) -> bool {
    forall|k: int, i: int|
        0 <= k < clauses.len() && 0 <= i < clauses[k].len() && s.lit_unset(
            #[trigger] clauses[k][i],
        ) ==> s.order.contains_key(clauses[k][i].var_index() as i32)
}

/// Every open decision level holds its decision: the boundaries ascend
/// strictly and lie within the trail.
pub open spec fn levels_nonempty(trail: Seq<Literal>, boundaries: Seq<int>) -> bool {
    &&& forall|k: int| 0 <= k < boundaries.len() ==> 0 <= #[trigger] boundaries[k] < trail.len()
    &&& forall|j: int, k: int|
        0 <= j < k < boundaries.len() ==> #[trigger] boundaries[j] < #[trigger] boundaries[k]
}

/// The valuation `m` makes the decisions true that stand at the positions
/// before `i` of the trail.
pub open spec fn follows_decisions(
    m: spec_fn(int) -> bool,
    trail: Seq<Literal>,
    boundaries: Seq<int>,
    i: int,
) -> bool {
    forall|k: int|
        0 <= k < boundaries.len() && #[trigger] boundaries[k] < i ==> holds(m, trail[boundaries[k]])
}

/// Whatever is on the trail follows from the clauses, the literals of `root`
/// and the decisions before it: a valuation that makes those true makes it
/// true.
pub open spec fn justified(
    clauses: Seq<Seq<Literal>>,
    trail: Seq<Literal>,
    boundaries: Seq<int>,
    root: Seq<Literal>,
) -> bool {
    forall|m: spec_fn(int) -> bool, i: int|
        0 <= i <= trail.len() && models(m, clauses) && agrees(m, root) && #[trigger] follows_decisions(
            m,
            trail,
            boundaries,
            i,
        ) ==> agrees(m, trail.subrange(0, i))
}

/// 3 to the power `e`.
pub open spec fn pow3(e: int) -> int
    decreases e,
{
    if e <= 0 {
        1
    } else {
        3 * pow3(e - 1)
    }
}

/// The progress of the search, read off the first `len` literals of the
/// trail of a problem of `n` variables: a number in base 3 with one digit for
/// each position, 1 where a decision stands and 2 where a consequence does.
pub open spec fn weight(boundaries: Seq<int>, len: int, n: int) -> int
    decreases len,
{
    if len <= 0 {
        0
    } else {
        weight(boundaries, len - 1, n) + (if boundaries.contains(len - 1) {
            1int
        } else {
            2int
        }) * pow3(n - len)
    }
}

pub proof fn lemma_pow3_positive(e: int)
    ensures
        pow3(e) >= 1,
    decreases e,
{
    if e > 0 {
        lemma_pow3_positive(e - 1);
    }
}

/// What the positions from `lo` to `hi` add to the weight.
pub proof fn lemma_weight_range(boundaries: Seq<int>, lo: int, hi: int, n: int)
    requires
        0 <= lo <= hi <= n,
    ensures
        weight(boundaries, hi, n) - weight(boundaries, lo, n) <= pow3(n - lo) - pow3(n - hi),
        weight(boundaries, hi, n) >= weight(boundaries, lo, n),
        hi > lo ==> weight(boundaries, hi, n) > weight(boundaries, lo, n),
    decreases hi - lo,
{
    if lo < hi {
        lemma_weight_range(boundaries, lo, hi - 1, n);
        lemma_pow3_positive(n - hi);
        assert(pow3(n - hi + 1) == 3 * pow3(n - hi));
    }
}

/// The weight depends on the boundaries within the positions counted alone.
pub proof fn lemma_weight_frame(a: Seq<int>, b: Seq<int>, len: int, n: int)
    requires
        forall|i: int| 0 <= i < len ==> a.contains(i) == b.contains(i),
    ensures
        weight(a, len, n) == weight(b, len, n),
    decreases len,
{
    if len > 0 {
        lemma_weight_frame(a, b, len - 1, n);
    }
}

/// A decision adds to the weight.
pub proof fn lemma_weight_decision(boundaries: Seq<int>, len: int, n: int)
    requires
        0 <= len < n,
        forall|k: int| 0 <= k < boundaries.len() ==> #[trigger] boundaries[k] < len,
    ensures
        weight(boundaries.push(len), len + 1, n) > weight(boundaries, len, n),
        weight(boundaries.push(len), len + 1, n) <= pow3(n) - pow3(n - len - 1),
{
    let after = boundaries.push(len);
    assert forall|i: int| 0 <= i < len implies boundaries.contains(i) == after.contains(i) by {
        if boundaries.contains(i) {
            let k = choose|k: int| 0 <= k < boundaries.len() && boundaries[k] == i;
            assert(after[k] == i);
        }
        if after.contains(i) {
            let k = choose|k: int| 0 <= k < after.len() && after[k] == i;
            assert(boundaries[k] == i);
        }
    }
    lemma_weight_frame(boundaries, after, len, n);
    lemma_pow3_positive(n - len - 1);
    lemma_weight_range(after, 0, len + 1, n);
}

/// Taking back a decision and asserting its negation in its place, as a
/// consequence, adds to the weight, whatever stood behind the decision.
pub proof fn lemma_weight_flip(boundaries: Seq<int>, len: int, n: int)
    requires
        boundaries.len() > 0,
        0 <= boundaries.last() < len <= n,
        forall|j: int, k: int|
            0 <= j < k < boundaries.len() ==> #[trigger] boundaries[j] < #[trigger] boundaries[k],
    ensures
        weight(boundaries.drop_last(), boundaries.last() + 1, n) > weight(boundaries, len, n),
        weight(boundaries.drop_last(), boundaries.last() + 1, n) <= pow3(n) - pow3(
            n - boundaries.last() - 1,
        ),
{
    let b = boundaries.last();
    let after = boundaries.drop_last();
    assert forall|i: int| 0 <= i < b implies boundaries.contains(i) == after.contains(i) by {
        if boundaries.contains(i) {
            let k = choose|k: int| 0 <= k < boundaries.len() && boundaries[k] == i;
            assert(after[k] == i);
        }
        if after.contains(i) {
            let k = choose|k: int| 0 <= k < after.len() && after[k] == i;
            assert(boundaries[k] == i);
        }
    }
    lemma_weight_frame(boundaries, after, b, n);
    assert(!after.contains(b)) by {
        if after.contains(b) {
            let k = choose|k: int| 0 <= k < after.len() && after[k] == b;
            assert(boundaries[k] < boundaries[boundaries.len() - 1]);
        }
    }
    assert(boundaries.contains(b)) by {
        assert(boundaries[boundaries.len() - 1] == b);
    }
    lemma_pow3_positive(n - len);
    lemma_weight_range(boundaries, b + 1, len, n);
    lemma_weight_range(after, 0, b + 1, n);
}

/// The weight stays below 3 to the number of variables.
pub proof fn lemma_weight_bound(boundaries: Seq<int>, len: int, n: int)
    requires
        0 <= len <= n,
    ensures
        0 <= weight(boundaries, len, n) < pow3(n),
{
    lemma_weight_range(boundaries, 0, len, n);
    lemma_pow3_positive(n - len);
}

/// A literal and its negation: a valuation makes exactly one of them true.
pub proof fn lemma_holds_negation(m: spec_fn(int) -> bool, l: Literal, other: Literal)
    requires
        other.code() == flip(l.code()),
        0 <= l.code(),
    ensures
        holds(m, other) == !holds(m, l),
{
}

/// A valuation that agrees with the trail makes no falsified clause true.
pub proof fn lemma_falsified_not_held(s: StateView, c: Seq<Literal>, m: spec_fn(int) -> bool)
    requires
        s.trail_consistent(),
        forall|i: int| 0 <= i < c.len() ==> s.in_range(#[trigger] c[i]),
        s.falsified(c),
        agrees(m, s.trail),
    ensures
        !clause_holds(m, c),
{
    assert forall|i: int| 0 <= i < c.len() implies !holds(m, #[trigger] c[i]) by {
        assert(s.lit_false(c[i]));
        lemma_false_not_held(s, c[i], m);
    }
}

/// Asserting a literal leaves the queue in step with the trail.
pub proof fn lemma_assert_pending(clauses: Seq<Seq<Literal>>, s: StateView, l: Literal)
    requires
        s.wf(),
        s.in_range(l),
        s.lit_unset(l),
        pending_ok(clauses, s),
    ensures
        pending_ok(clauses, s.assert_lit(l)),
{
    let t = s.assert_lit(l);
    let p = s.trail.len() - s.queue.len();
    assert(t.queue =~= t.trail.subrange(p, t.trail.len() as int));
    assert forall|k: int, w: int, i: int|
        0 <= k < clauses.len() && 0 <= w <= 1 && 0 <= i < p implies #[trigger] watch_settled(
        clauses,
        t,
        k,
        w,
        i,
    ) by {
        assert(watch_settled(clauses, s, k, w, i));
        assert(t.trail[i] == s.trail[i]);
        if t.trail[i].code() == flip(clauses[k][w].code()) {
            let j = choose|j: int|
                0 <= j < s.trail.len() && #[trigger] s.trail[j] == clauses[k][1 - w]
                    && not_undone_before(s.boundaries, i, j);
            assert(t.trail[j] == s.trail[j]);
        }
    }
}

/// When all consequences are drawn, no clause is false: if one of its
/// watched literals is, the other is true.
pub proof fn lemma_quiescent_no_conflict(clauses: Seq<Seq<Literal>>, s: StateView, k: int)
    requires
        s.wf(),
        clauses_ok(clauses, s.num_vars()),
        quiescent(clauses, s),
        0 <= k < clauses.len(),
    ensures
        !s.falsified(clauses[k]),
        s.lit_false(clauses[k][0]) ==> s.lit_true(clauses[k][1]),
        s.lit_false(clauses[k][1]) ==> s.lit_true(clauses[k][0]),
{
    let c = clauses[k];
    assert(s.in_range(c[0]) && s.in_range(c[1]));
    assert forall|w: int| 0 <= w <= 1 && s.lit_false(#[trigger] c[w]) implies s.lit_true(
        c[1 - w],
    ) by {
        let v = c[w].var_index();
        assert(!s.assignment[v].is_unset());
        assert(s.var_on_trail(v));
        let i = choose|i: int| 0 <= i < s.trail.len() && (#[trigger] s.trail[i]).var_index() == v;
        assert(s.lit_true(s.trail[i]));
        assert(s.trail[i].code() == flip(c[w].code()));
        assert(watch_settled(clauses, s, k, w, i));
        let j = choose|j: int| 0 <= j < s.trail.len() && #[trigger] s.trail[j] == c[1 - w];
        assert(s.lit_true(s.trail[j]));
    }
    if s.falsified(c) {
        assert(s.lit_false(c[0]));
        assert(s.lit_false(c[1]));
    }
}

/// When all consequences are drawn and nothing is left to decide, every
/// clause is true.
pub proof fn lemma_complete_satisfies(clauses: Seq<Seq<Literal>>, s: StateView, k: int)
    requires
        s.wf(),
        clauses_ok(clauses, s.num_vars()),
        quiescent(clauses, s),
        order_covers(clauses, s),
        s.order.dom() == Set::<i32>::empty(),
        0 <= k < clauses.len(),
    ensures
        s.satisfied(clauses[k]),
{
    let c = clauses[k];
    lemma_quiescent_no_conflict(clauses, s, k);
    assert(!s.lit_unset(c[0])) by {
        if s.lit_unset(c[0]) {
            assert(s.order.contains_key(clauses[k][0].var_index() as i32));
            assert(s.order.dom().contains(clauses[k][0].var_index() as i32));
        }
    }
    assert(s.in_range(c[0]));
    if s.lit_false(c[0]) {
        assert(s.lit_true(c[1]));
    } else {
        assert(s.lit_true(c[0]));
    }
}

/// The valuation that makes exactly the variables true that the assignment
/// of `s` makes true.
pub open spec fn valuation_of(s: StateView) -> spec_fn(int) -> bool {
    |v: int| 0 <= v < s.assignment.len() && s.assignment[v].is_true()
}

/// A literal that is true under the assignment is true in its valuation.
pub proof fn lemma_valuation_holds(s: StateView, l: Literal)
    requires
        s.in_range(l),
        s.lit_true(l),
        forall|v: int| 0 <= v < s.num_vars() ==> 0 <= (#[trigger] s.assignment[v]).raw() <= 2,
    ensures
        holds(valuation_of(s), l),
{
    let v = l.var_index();
    assert(0 <= s.assignment[v].raw() <= 2);
}

/// At the start of a search from the root level, the trail follows from
/// itself.
pub proof fn lemma_justified_start(clauses: Seq<Seq<Literal>>, trail: Seq<Literal>)
    ensures
        justified(clauses, trail, Seq::empty(), trail),
{
    assert forall|m: spec_fn(int) -> bool, i: int|
        0 <= i <= trail.len() && models(m, clauses) && agrees(m, trail) && #[trigger] follows_decisions(
            m,
            trail,
            Seq::<int>::empty(),
            i,
        ) implies agrees(m, trail.subrange(0, i)) by {
        assert forall|q: int| 0 <= q < i implies holds(m, #[trigger] trail.subrange(0, i)[q]) by {
            assert(holds(m, trail[q]));
        }
    }
}

/// What propagation adds to the trail follows, since it follows from the
/// clauses and the trail before.
pub proof fn lemma_justified_propagate(
    clauses: Seq<Seq<Literal>>,
    before: Seq<Literal>,
    after: Seq<Literal>,
    boundaries: Seq<int>,
    root: Seq<Literal>,
)
    requires
        justified(clauses, before, boundaries, root),
        levels_nonempty(before, boundaries),
        extends(before, after),
        forall|m: spec_fn(int) -> bool|
            models(m, clauses) && agrees(m, before) ==> agrees(m, after),
    ensures
        justified(clauses, after, boundaries, root),
        levels_nonempty(after, boundaries),
{
    assert forall|m: spec_fn(int) -> bool, i: int|
        0 <= i <= after.len() && models(m, clauses) && agrees(m, root) && #[trigger] follows_decisions(
            m,
            after,
            boundaries,
            i,
        ) implies agrees(m, after.subrange(0, i)) by {
        let cut = if i <= before.len() {
            i
        } else {
            before.len() as int
        };
        assert(follows_decisions(m, before, boundaries, cut)) by {
            assert forall|k: int| 0 <= k < boundaries.len() && #[trigger] boundaries[k]
                < cut implies holds(m, before[boundaries[k]]) by {
                assert(before[boundaries[k]] == after.subrange(0, before.len() as int)[boundaries[k]]);
            }
        }
        assert(agrees(m, before.subrange(0, cut)));
        if i <= before.len() {
            assert(after.subrange(0, i) =~= before.subrange(0, i)) by {
                assert forall|q: int| 0 <= q < i implies after[q] == before[q] by {
                    assert(before[q] == after.subrange(0, before.len() as int)[q]);
                }
            }
        } else {
            assert(before.subrange(0, cut) =~= before);
            assert(agrees(m, after));
            assert forall|q: int| 0 <= q < i implies holds(m, #[trigger] after.subrange(0, i)[q]) by {
                assert(holds(m, after[q]));
            }
        }
    }
}

/// A decision follows from itself.
pub proof fn lemma_justified_decide(
    clauses: Seq<Seq<Literal>>,
    trail: Seq<Literal>,
    boundaries: Seq<int>,
    root: Seq<Literal>,
    l: Literal,
)
    requires
        justified(clauses, trail, boundaries, root),
        levels_nonempty(trail, boundaries),
    ensures
        justified(clauses, trail.push(l), boundaries.push(trail.len() as int), root),
        levels_nonempty(trail.push(l), boundaries.push(trail.len() as int)),
{
    let after = trail.push(l);
    let marks = boundaries.push(trail.len() as int);
    assert forall|m: spec_fn(int) -> bool, i: int|
        0 <= i <= after.len() && models(m, clauses) && agrees(m, root) && #[trigger] follows_decisions(
            m,
            after,
            marks,
            i,
        ) implies agrees(m, after.subrange(0, i)) by {
        let cut = if i <= trail.len() {
            i
        } else {
            trail.len() as int
        };
        assert(follows_decisions(m, trail, boundaries, cut)) by {
            assert forall|k: int| 0 <= k < boundaries.len() && #[trigger] boundaries[k]
                < cut implies holds(m, trail[boundaries[k]]) by {
                assert(marks[k] == boundaries[k]);
                assert(after[boundaries[k]] == trail[boundaries[k]]);
            }
        }
        assert(agrees(m, trail.subrange(0, cut)));
        assert forall|q: int| 0 <= q < i implies holds(m, #[trigger] after.subrange(0, i)[q]) by {
            if q < trail.len() {
                assert(trail.subrange(0, cut)[q] == after[q]);
            } else {
                assert(marks[boundaries.len() as int] == trail.len());
                assert(holds(m, after[marks[boundaries.len() as int]]));
            }
        }
    }
    assert forall|j: int, k: int| 0 <= j < k < marks.len() implies #[trigger] marks[j]
        < #[trigger] marks[k] by {
        if k < boundaries.len() {
            assert(boundaries[j] < boundaries[k]);
        } else {
            assert(boundaries[j] < trail.len());
        }
    }
    assert forall|k: int| 0 <= k < marks.len() implies 0 <= #[trigger] marks[k] < after.len() by {
        if k < boundaries.len() {
            assert(0 <= boundaries[k] < trail.len());
        }
    }
}

/// Where a clause is false, the negation of the last decision follows from
/// what stands before that decision.
pub proof fn lemma_justified_flip(
    clauses: Seq<Seq<Literal>>,
    s: StateView,
    conflict: Seq<Literal>,
    root: Seq<Literal>,
    negation: Literal,
)
    requires
        s.wf(),
        justified(clauses, s.trail, s.boundaries, root),
        levels_nonempty(s.trail, s.boundaries),
        s.boundaries.len() > 0,
        negation.code() == flip(s.trail[s.boundaries.last()].code()),
        forall|i: int| 0 <= i < conflict.len() ==> s.in_range(#[trigger] conflict[i]),
        s.falsified(conflict),
        forall|m: spec_fn(int) -> bool| models(m, clauses) ==> clause_holds(m, conflict),
    ensures
        justified(
            clauses,
            s.trail.subrange(0, s.boundaries.last()).push(negation),
            s.boundaries.drop_last(),
            root,
        ),
        levels_nonempty(
            s.trail.subrange(0, s.boundaries.last()).push(negation),
            s.boundaries.drop_last(),
        ),
{
    let b = s.boundaries.last();
    let decision = s.trail[b];
    let kept = s.trail.subrange(0, b);
    let after = kept.push(negation);
    let marks = s.boundaries.drop_last();
    assert(s.in_range(decision));
    assert forall|j: int, k: int| 0 <= j < k < marks.len() implies #[trigger] marks[j]
        < #[trigger] marks[k] by {
        assert(s.boundaries[j] < s.boundaries[k]);
    }
    assert forall|k: int| 0 <= k < marks.len() implies 0 <= #[trigger] marks[k] < after.len() by {
        assert(s.boundaries[k] < s.boundaries[s.boundaries.len() - 1]);
        assert(0 <= s.boundaries[k]);
    }
    assert forall|m: spec_fn(int) -> bool, i: int|
        0 <= i <= after.len() && models(m, clauses) && agrees(m, root) && #[trigger] follows_decisions(
            m,
            after,
            marks,
            i,
        ) implies agrees(m, after.subrange(0, i)) by {
        let cut = if i <= b {
            i
        } else {
            b
        };
        assert(follows_decisions(m, s.trail, s.boundaries, cut)) by {
            assert forall|k: int| 0 <= k < s.boundaries.len() && #[trigger] s.boundaries[k]
                < cut implies holds(m, s.trail[s.boundaries[k]]) by {
                assert(k < marks.len());
                assert(marks[k] == s.boundaries[k]);
                assert(after[marks[k]] == s.trail[s.boundaries[k]]);
            }
        }
        assert(agrees(m, s.trail.subrange(0, cut)));
        if i == b + 1 && holds(m, decision) {
            assert(follows_decisions(m, s.trail, s.boundaries, s.trail.len() as int)) by {
                assert forall|k: int| 0 <= k < s.boundaries.len() && #[trigger] s.boundaries[k]
                    < s.trail.len() implies holds(m, s.trail[s.boundaries[k]]) by {
                    if k < marks.len() {
                        assert(marks[k] == s.boundaries[k]);
                        assert(s.boundaries[k] < s.boundaries[s.boundaries.len() - 1]);
                        assert(after[marks[k]] == s.trail[s.boundaries[k]]);
                    }
                }
            }
            assert(agrees(m, s.trail.subrange(0, s.trail.len() as int)));
            assert(s.trail.subrange(0, s.trail.len() as int) =~= s.trail);
            lemma_falsified_not_held(s, conflict, m);
        }
        lemma_holds_negation(m, decision, negation);
        assert forall|q: int| 0 <= q < i implies holds(m, #[trigger] after.subrange(0, i)[q]) by {
            if q < b {
                assert(s.trail.subrange(0, cut)[q] == after[q]);
            }
        }
    }
}

/// Where a clause is false and no decision stands, no valuation makes the
/// clauses and the literals of `root` true.
pub proof fn lemma_root_conflict(
    clauses: Seq<Seq<Literal>>,
    s: StateView,
    conflict: Seq<Literal>,
    root: Seq<Literal>,
    m: spec_fn(int) -> bool,
)
    requires
        s.wf(),
        justified(clauses, s.trail, s.boundaries, root),
        s.boundaries.len() == 0,
        forall|i: int| 0 <= i < conflict.len() ==> s.in_range(#[trigger] conflict[i]),
        s.falsified(conflict),
        models(m, clauses) ==> clause_holds(m, conflict),
    ensures
        !(models(m, clauses) && agrees(m, root)),
{
    if models(m, clauses) && agrees(m, root) {
        assert(follows_decisions(m, s.trail, s.boundaries, s.trail.len() as int));
        assert(s.trail.subrange(0, s.trail.len() as int) =~= s.trail);
        lemma_falsified_not_held(s, conflict, m);
    }
}

/// The same where the literals of the clauses have changed places.
pub proof fn lemma_root_conflict_reordered(
    clauses: Seq<Seq<Literal>>,
    now: Seq<Seq<Literal>>,
    s: StateView,
    k: int,
    root: Seq<Literal>,
    m: spec_fn(int) -> bool,
)
    requires
        s.wf(),
        clauses_ok(now, s.num_vars()),
        reordered(clauses, now),
        justified(clauses, s.trail, s.boundaries, root),
        s.boundaries.len() == 0,
        0 <= k < now.len(),
        s.falsified(now[k]),
    ensures
        !(models(m, clauses) && agrees(m, root)),
{
    crate::propagation::lemma_reordered_models(m, clauses, now);
    assert forall|i: int| 0 <= i < now[k].len() implies s.in_range(#[trigger] now[k][i]) by {}
    lemma_root_conflict(clauses, s, now[k], root, m);
}

/// A variable that is unassigned after literals have been asserted was so
/// before.
pub proof fn lemma_unset_before(s: StateView, t: StateView, l: Literal)
    requires
        s.wf(),
        t.wf(),
        t.num_vars() == s.num_vars(),
        extends(s.trail, t.trail),
        s.in_range(l),
        t.lit_unset(l),
    ensures
        s.lit_unset(l),
{
    let v = l.var_index();
    if !s.lit_unset(l) {
        assert(!s.assignment[v].is_unset());
        assert(s.var_on_trail(v));
        let i = choose|i: int| 0 <= i < s.trail.len() && (#[trigger] s.trail[i]).var_index() == v;
        assert(t.trail[i] == t.trail.subrange(0, s.trail.len() as int)[i]);
        assert(t.lit_true(t.trail[i]));
    }
}

/// The variable order still holds every unassigned variable of a clause
/// after literals have been asserted and the literals of the clauses have
/// changed places.
pub proof fn lemma_covers_propagate(
    before: Seq<Seq<Literal>>,
    after: Seq<Seq<Literal>>,
    s: StateView,
    t: StateView,
)
    requires
        s.wf(),
        t.wf(),
        clauses_ok(before, s.num_vars()),
        t.num_vars() == s.num_vars(),
        extends(s.trail, t.trail),
        t.order == s.order,
        reordered(before, after),
        order_covers(before, s),
    ensures
        order_covers(after, t),
{
    broadcast use vstd::seq_lib::to_multiset_contains;

    assert forall|k: int, i: int|
        0 <= k < after.len() && 0 <= i < after[k].len() && t.lit_unset(
            #[trigger] after[k][i],
        ) implies t.order.contains_key(after[k][i].var_index() as i32) by {
        let l = after[k][i];
        assert(after[k].contains(l));
        assert(after[k].to_multiset().count(l) > 0);
        assert(before[k].to_multiset().count(l) > 0);
        assert(before[k].contains(l));
        let o = choose|o: int| 0 <= o < before[k].len() && before[k][o] == l;
        assert(s.in_range(before[k][o]));
        lemma_unset_before(s, t, l);
    }
}

/// After a decision the variable order still holds every unassigned
/// variable of a clause, though the decided variable and assigned ones have
/// left it.
pub proof fn lemma_covers_decide(
    clauses: Seq<Seq<Literal>>,
    s: StateView,
    order: Map<i32, u64>,
    l: Literal,
)
    requires
        s.wf(),
        clauses_ok(clauses, s.num_vars()),
        order_covers(clauses, s),
        s.in_range(l),
        s.lit_unset(l),
        forall|u: i32| #[trigger]
            s.order.contains_key(u) && !order.contains_key(u) && u != l.var_index()
                ==> !s.assignment[u as int].is_unset(),
    ensures
        order_covers(
            clauses,
            (StateView { order: order, ..s }).open_level().assert_lit(l).count_decision(),
        ),
{
    let t = (StateView { order: order, ..s }).open_level().assert_lit(l).count_decision();
    Value::lemma_of_raw(l.code() % 2);
    assert forall|k: int, i: int|
        0 <= k < clauses.len() && 0 <= i < clauses[k].len() && t.lit_unset(
            #[trigger] clauses[k][i],
        ) implies t.order.contains_key(clauses[k][i].var_index() as i32) by {
        let x = clauses[k][i];
        assert(s.in_range(x));
        assert(x.var_index() != l.var_index());
        assert(t.assignment[x.var_index()] == s.assignment[x.var_index()]);
        assert(s.lit_unset(x));
        assert(s.order.contains_key(x.var_index() as i32));
    }
}

/// After the last decision has been undone and a literal asserted, the
/// variable order still holds every unassigned variable of a clause.
pub proof fn lemma_covers_flip(clauses: Seq<Seq<Literal>>, s: StateView, l: Literal)
    requires
        s.wf(),
        clauses_ok(clauses, s.num_vars()),
        order_covers(clauses, s),
        s.in_range(l),
    ensures
        order_covers(clauses, s.undone().assert_lit(l)),
        order_covers(clauses, s.undone()),
{
    let u = s.undone();
    let t = u.assert_lit(l);
    Value::lemma_of_raw(l.code() % 2);
    Value::lemma_of_raw(2);
    assert forall|k: int, i: int|
        0 <= k < clauses.len() && 0 <= i < clauses[k].len() && u.lit_unset(
            #[trigger] clauses[k][i],
        ) implies u.order.contains_key(clauses[k][i].var_index() as i32) by {
        let x = clauses[k][i];
        assert(s.in_range(x));
        if !s.popped(s.level_start(), x.var_index()) {
            assert(u.assignment[x.var_index()] == s.assignment[x.var_index()]);
            assert(s.lit_unset(x));
            assert(s.order.contains_key(x.var_index() as i32));
        }
    }
    assert forall|k: int, i: int|
        0 <= k < clauses.len() && 0 <= i < clauses[k].len() && t.lit_unset(
            #[trigger] clauses[k][i],
        ) implies t.order.contains_key(clauses[k][i].var_index() as i32) by {
        let x = clauses[k][i];
        assert(s.in_range(x));
        if x.var_index() != l.var_index() {
            assert(t.assignment[x.var_index()] == u.assignment[x.var_index()]);
            assert(u.lit_unset(x));
        }
    }
}

/// Some valuation makes the clauses and the literals of `root` true.
pub open spec fn consistent(clauses: Seq<Seq<Literal>>, root: Seq<Literal>) -> bool {
    exists|m: spec_fn(int) -> bool| models(m, clauses) && agrees(m, root)
}

/// Where every clause is true under the assignment, its valuation makes the
/// clauses true, in whatever order their literals stood, and the literals of
/// the trail with them.
pub proof fn lemma_satisfied_consistent(
    clauses: Seq<Seq<Literal>>,
    now: Seq<Seq<Literal>>,
    s: StateView,
    root: Seq<Literal>,
)
    requires
        s.wf(),
        clauses_ok(now, s.num_vars()),
        reordered(clauses, now),
        extends(root, s.trail),
        forall|k: int| 0 <= k < now.len() ==> s.satisfied(#[trigger] now[k]),
    ensures
        consistent(clauses, root),
{
    let m = valuation_of(s);
    assert forall|k: int| 0 <= k < now.len() implies clause_holds(m, #[trigger] now[k]) by {
        assert(s.satisfied(now[k]));
        let i = choose|i: int| 0 <= i < now[k].len() && s.lit_true(#[trigger] now[k][i]);
        assert(s.in_range(now[k][i]));
        lemma_valuation_holds(s, now[k][i]);
    }
    crate::propagation::lemma_reordered_models(m, clauses, now);
    assert forall|i: int| 0 <= i < root.len() implies holds(m, #[trigger] root[i]) by {
        assert(root[i] == s.trail.subrange(0, root.len() as int)[i]);
        assert(s.lit_true(s.trail[i]) && s.in_range(s.trail[i]));
        lemma_valuation_holds(s, s.trail[i]);
    }
    assert(models(m, clauses) && agrees(m, root));
}

/// The search can go on from the state `s`: the queue is in step with the
/// trail, the variable order holds what is left to decide, and every open
/// decision level holds its decision.
pub open spec fn ready(now: Seq<Seq<Literal>>, s: StateView) -> bool {
    &&& pending_ok(now, s)
    &&& order_covers(now, s)
    &&& levels_nonempty(s.trail, s.boundaries)
}

/// The state `s` with the clauses `now` has come about in a search that
/// began with the clauses `clauses` and the trail `root`: the clauses are the
/// same but for the order of their literals, the trail begins with `root`,
/// every decision lies behind `root`, and whatever is on the trail follows
/// from the clauses, `root` and the decisions.
pub open spec fn grounded(
    clauses: Seq<Seq<Literal>>,
    root: Seq<Literal>,
    now: Seq<Seq<Literal>>,
    s: StateView,
) -> bool {
    &&& reordered(clauses, now)
    &&& justified(clauses, s.trail, s.boundaries, root)
    &&& extends(root, s.trail)
    &&& forall|k: int| 0 <= k < s.boundaries.len() ==> #[trigger] s.boundaries[k] >= root.len()
}

/// Propagation keeps the state grounded.
pub proof fn lemma_grounded_propagate(
    clauses: Seq<Seq<Literal>>,
    root: Seq<Literal>,
    before: Seq<Seq<Literal>>,
    s: StateView,
    after: Seq<Seq<Literal>>,
    t: StateView,
)
    requires
        grounded(clauses, root, before, s),
        levels_nonempty(s.trail, s.boundaries),
        reordered(before, after),
        extends(s.trail, t.trail),
        t.boundaries == s.boundaries,
        forall|m: spec_fn(int) -> bool|
            models(m, before) && agrees(m, s.trail) ==> agrees(m, t.trail),
    ensures
        grounded(clauses, root, after, t),
{
    assert(reordered(clauses, after)) by {
        assert forall|k: int| 0 <= k < clauses.len() implies (#[trigger] after[k]).to_multiset()
            == clauses[k].to_multiset() by {
            assert(before[k].to_multiset() == clauses[k].to_multiset());
        }
    }
    assert forall|m: spec_fn(int) -> bool|
        models(m, clauses) && agrees(m, s.trail) implies agrees(m, t.trail) by {
        crate::propagation::lemma_reordered_models(m, clauses, before);
    }
    lemma_justified_propagate(clauses, s.trail, t.trail, s.boundaries, root);
    assert(extends(root, t.trail)) by {
        assert(t.trail.subrange(0, root.len() as int) =~= t.trail.subrange(
            0,
            s.trail.len() as int,
        ).subrange(0, root.len() as int));
    }
}

} // verus!
