//! Why propagation is sound and complete: what it asserts follows from the
//! clauses, and it misses no clause that has become unit or false.

use crate::invariants::{
    lemma_assert_lit_wf, lemma_first_open, lemma_flip_in_range, lemma_frame_wf, lemma_true_on_trail,
};
use crate::literal::{flip, Literal};
use crate::model::{agrees, clause_holds, holds, models};
use crate::ascending::ascending;
use crate::state::{
    asserted_more, clauses_ok, first_open, normalized, not_undone_before, propagated_upto,
    remaining, reordered, settled, visit_below, visit_clause, visit_result, visit_state,
    watch_settled, watched, watching, StateView,
};
use vstd::prelude::*;

verus! {

/// A valuation that agrees with the trail makes no false literal true.
pub proof fn lemma_false_not_held(s: StateView, x: Literal, m: spec_fn(int) -> bool)
    requires
        s.trail_consistent(),
        s.in_range(x),
        s.lit_false(x),
        agrees(m, s.trail),
    ensures
        !holds(m, x),
{
    let v = x.var_index();
    assert(!s.assignment[v].is_unset());
    assert(s.var_on_trail(v));
    let i = choose|i: int| 0 <= i < s.trail.len() && (#[trigger] s.trail[i]).var_index() == v;
    assert(s.lit_true(s.trail[i]));
    assert(holds(m, s.trail[i]));
}

/// What the visit of a clause asserts is true in every valuation that makes
/// the clause true and agrees with the trail.
pub proof fn lemma_visit_sound(
    s: StateView,
    c: Seq<Literal>,
    id: i64,
    l: Literal,
    m: spec_fn(int) -> bool,
)
    requires
        s.wf(),
        c.len() >= 2,
        forall|i: int| 0 <= i < c.len() ==> s.in_range(#[trigger] c[i]),
        s.in_range(l),
        s.lit_true(l),
        watched(c, flip(l.code())),
        clause_holds(m, c),
        agrees(m, s.trail),
    ensures
        agrees(m, visit_state(s, c, id, l).trail),
{
    let held = flip(l.code());
    let n = normalized(c, held);
    let t = visit_state(s, c, id, l);
    lemma_first_open(s, n, 2);
    let j = first_open(s, n, 2);
    if !s.lit_true(n[0]) && j >= n.len() && s.lit_unset(n[0]) {
        assert(t.trail == s.trail.push(n[0]));
        let i = choose|i: int| 0 <= i < c.len() && holds(m, #[trigger] c[i]);
        let ni = if n == c {
            i
        } else if i == 0 {
            1
        } else if i == 1 {
            0
        } else {
            i
        };
        assert(n[ni] == c[i]);
        if ni != 0 {
            if ni == 1 {
                assert(s.lit_false(n[1]));
            } else {
                assert(s.lit_false(n[ni]));
            }
            lemma_false_not_held(s, n[ni], m);
        }
        assert forall|q: int| 0 <= q < t.trail.len() implies holds(m, #[trigger] t.trail[q]) by {
            if q < s.trail.len() {
                assert(t.trail[q] == s.trail[q]);
            }
        }
    } else {
        assert(t.trail == s.trail);
    }
}

/// Where the visit of a clause reports a conflict, every literal of the
/// clause is false.
pub proof fn lemma_visit_conflict(s: StateView, c: Seq<Literal>, id: i64, l: Literal)
    requires
        s.wf(),
        c.len() >= 2,
        s.in_range(l),
        s.lit_true(l),
        watched(c, flip(l.code())),
        visit_result(s, c, l),
    ensures
        visit_state(s, c, id, l).falsified(visit_clause(s, c, l)),
        visit_state(s, c, id, l).assignment == s.assignment,
{
    let held = flip(l.code());
    let n = normalized(c, held);
    let t = visit_state(s, c, id, l);
    lemma_first_open(s, n, 2);
    assert(visit_clause(s, c, l) == n);
    assert forall|i: int| 0 <= i < n.len() implies t.lit_false(#[trigger] n[i]) by {
        if i == 1 {
            assert(n[1].code() == held);
            assert(s.lit_false(n[1]));
        } else if i >= 2 {
            assert(s.lit_false(n[i]));
        }
    }
}

/// What holds of a clause that the visit does not touch, holds after it.
proof fn lemma_settled_transfer(
    clauses: Seq<Seq<Literal>>,
    s: StateView,
    after: Seq<Seq<Literal>>,
    t: StateView,
    k: int,
    w: int,
    i: int,
)
    requires
        0 <= k < clauses.len(),
        after.len() == clauses.len(),
        0 <= w <= 1,
        0 <= i < s.trail.len(),
        watch_settled(clauses, s, k, w, i),
        after[k][0] == clauses[k][0],
        after[k][1] == clauses[k][1],
        s.trail.len() <= t.trail.len(),
        t.trail.subrange(0, s.trail.len() as int) == s.trail,
        t.boundaries == s.boundaries,
    ensures
        watch_settled(after, t, k, w, i),
{
    assert(t.trail[i] == t.trail.subrange(0, s.trail.len() as int)[i]);
    if t.trail[i].code() == flip(after[k][w].code()) {
        let j = choose|j: int|
            0 <= j < s.trail.len() && #[trigger] s.trail[j] == clauses[k][1 - w]
                && not_undone_before(s.boundaries, i, j);
        assert(t.trail[j] == t.trail.subrange(0, s.trail.len() as int)[j]);
    }
}

/// The visit of a pending clause draws the consequences that the assertion
/// of the literal at position `p` of the trail has for it.
pub proof fn lemma_visit_settled(
    clauses: Seq<Seq<Literal>>,
    s: StateView,
    id: i64,
    l: Literal,
    pending: Set<i64>,
    p: int,
)
    requires
        s.wf(),
        clauses_ok(clauses, s.num_vars()),
        watching(clauses, s.watches, flip(l.code()), pending),
        pending.contains(id),
        settled(clauses, s, p, pending),
        0 <= p < s.trail.len(),
        s.trail[p] == l,
    ensures
        propagated_upto(
            clauses.update(id as int, visit_clause(s, clauses[id as int], l)),
            visit_state(s, clauses[id as int], id, l),
            p,
        ),
        !visit_result(s, clauses[id as int], l) ==> settled(
            clauses.update(id as int, visit_clause(s, clauses[id as int], l)),
            visit_state(s, clauses[id as int], id, l),
            p,
            pending.remove(id),
        ),
{
    let held = flip(l.code());
    let c = clauses[id as int];
    let n = normalized(c, held);
    let d = visit_clause(s, c, l);
    let t = visit_state(s, c, id, l);
    let after = clauses.update(id as int, d);
    lemma_flip_in_range(l.code(), s.num_vars());
    lemma_first_open(s, n, 2);
    let j = first_open(s, n, 2);
    assert(s.lit_true(l));
    assert(c[0].code() != c[1].code());
    assert(n[1].code() == held && n[0].code() != held);
    assert(s.lit_false(n[1]));
    assert(t.boundaries == s.boundaries);
    assert(s.trail.len() <= t.trail.len());
    assert(t.trail.subrange(0, s.trail.len() as int) == s.trail);
    let moved = !s.lit_true(n[0]) && j < n.len();
    if moved {
        assert(n[j] == c[j]);
        assert(c[0].code() != c[j].code());
        assert(c[1].code() != c[j].code());
        assert(d[0] == n[0] && d[1] == n[j]);
    } else {
        assert(d == n);
    }
    // The clauses that the visit does not touch.
    assert forall|k: int, w: int, i: int|
        0 <= k < after.len() && 0 <= w <= 1 && 0 <= i <= p && k != id && (i < p
            || !pending.contains(k as i64)) implies #[trigger] watch_settled(after, t, k, w, i) by {
        assert(after[k] == clauses[k]);
        assert(watch_settled(clauses, s, k, w, i));
        lemma_settled_transfer(clauses, s, after, t, k, w, i);
    }
    // The visited clause, for the literals before position `p`.
    assert forall|w: int, i: int| 0 <= w <= 1 && 0 <= i < p implies #[trigger] watch_settled(
        after,
        t,
        id as int,
        w,
        i,
    ) by {
        assert(t.trail[i] == s.trail[i]) by {
            assert(t.trail[i] == t.trail.subrange(0, s.trail.len() as int)[i]);
        }
        if t.trail[i].code() == flip(d[w].code()) {
            assert(s.lit_true(s.trail[i]));
            assert(s.in_range(s.trail[i]));
            if moved && w == 1 {
                // the new watch is not false
                assert(s.lit_false(n[j]));
            } else {
                // the literal is the other watch of the clause before the
                // visit, whose partner is the held literal: that one would
                // be true
                let w0: int = if c[0] == d[w] {
                    0
                } else {
                    1
                };
                if d[w].code() == held {
                    assert(s.trail[i].code() == l.code());
                    assert(s.trail[i].var_index() == s.trail[p].var_index());
                } else {
                    assert(c[w0] == d[w]);
                    assert(watch_settled(clauses, s, id as int, w0, i));
                    let q = choose|q: int|
                        0 <= q < s.trail.len() && #[trigger] s.trail[q] == c[1 - w0]
                            && not_undone_before(s.boundaries, i, q);
                    assert(c[1 - w0].code() == held);
                    assert(s.lit_true(s.trail[q]));
                }
            }
        }
    }
    if !visit_result(s, c, l) {
        assert forall|w: int| 0 <= w <= 1 implies #[trigger] watch_settled(
            after,
            t,
            id as int,
            w,
            p,
        ) by {
            assert(t.trail[p] == l) by {
                assert(t.trail[p] == t.trail.subrange(0, s.trail.len() as int)[p]);
            }
            if t.trail[p].code() == flip(d[w].code()) {
                assert(d[w].code() == held);
                assert(!moved);
                assert(w == 1);
                assert(not_undone_before(t.boundaries, p, t.trail.len() - 1));
                if s.lit_true(n[0]) {
                    assert(s.in_range(n[0])) by {
                        if n == c {
                            assert(n[0] == clauses[id as int][0]);
                        } else {
                            assert(n[0] == clauses[id as int][1]);
                        }
                    }
                    lemma_true_on_trail(s, n[0]);
                    let q = choose|q: int| 0 <= q < s.trail.len() && #[trigger] s.trail[q] == n[0];
                    assert(t.trail[q] == t.trail.subrange(0, s.trail.len() as int)[q]);
                    assert(not_undone_before(t.boundaries, p, q));
                } else {
                    assert(s.lit_unset(n[0]));
                    assert(t.trail == s.trail.push(n[0]));
                    assert(t.trail[s.trail.len() as int] == n[0]);
                    assert(not_undone_before(t.boundaries, p, s.trail.len() as int));
                }
            }
        }
    }
}

} // verus!

verus! {

/// A valuation makes a clause true whatever the order of its literals.
pub proof fn lemma_reordered_holds(m: spec_fn(int) -> bool, c: Seq<Literal>, d: Seq<Literal>)
    requires
        c.to_multiset() == d.to_multiset(),
        clause_holds(m, c),
    ensures
        clause_holds(m, d),
{
    broadcast use vstd::seq_lib::to_multiset_contains;

    let i = choose|i: int| 0 <= i < c.len() && holds(m, #[trigger] c[i]);
    assert(c.contains(c[i]));
    assert(c.to_multiset().count(c[i]) > 0);
    assert(d.to_multiset().count(c[i]) > 0);
    assert(d.contains(c[i]));
    let j = choose|j: int| 0 <= j < d.len() && d[j] == c[i];
    assert(holds(m, d[j]));
}

/// A valuation makes the same formulas true whatever the order of the
/// literals in their clauses.
pub proof fn lemma_reordered_models(
    m: spec_fn(int) -> bool,
    f: Seq<Seq<Literal>>,
    g: Seq<Seq<Literal>>,
)
    requires
        reordered(f, g),
    ensures
        models(m, f) == models(m, g),
{
    if models(m, f) {
        assert forall|k: int| 0 <= k < g.len() implies clause_holds(m, #[trigger] g[k]) by {
            assert(clause_holds(m, f[k]));
            lemma_reordered_holds(m, f[k], g[k]);
        }
    }
    if models(m, g) {
        assert forall|k: int| 0 <= k < f.len() implies clause_holds(m, #[trigger] f[k]) by {
            assert(clause_holds(m, g[k]));
            lemma_reordered_holds(m, g[k], f[k]);
        }
    }
}

/// What has been drawn depends on the clauses, the trail and the boundaries
/// alone.
pub proof fn lemma_settled_frame(
    clauses: Seq<Seq<Literal>>,
    s: StateView,
    t: StateView,
    p: int,
    pending: Set<i64>,
)
    requires
        t.trail == s.trail,
        t.boundaries == s.boundaries,
    ensures
        propagated_upto(clauses, s, p) ==> propagated_upto(clauses, t, p),
        settled(clauses, s, p, pending) ==> settled(clauses, t, p, pending),
{
    assert forall|k: int, w: int, i: int| #[trigger]
        watch_settled(clauses, s, k, w, i) implies watch_settled(clauses, t, k, w, i) by {
        if t.trail[i].code() == flip(clauses[k][w].code()) {
            let j = choose|j: int|
                0 <= j < s.trail.len() && #[trigger] s.trail[j] == clauses[k][1 - w]
                    && not_undone_before(s.boundaries, i, j);
            assert(t.trail[j] == clauses[k][1 - w]);
        }
    }
    if propagated_upto(clauses, s, p) {
        assert forall|k: int, w: int, i: int|
            0 <= k < clauses.len() && 0 <= w <= 1 && 0 <= i < p implies #[trigger] watch_settled(
            clauses,
            t,
            k,
            w,
            i,
        ) by {
            assert(watch_settled(clauses, s, k, w, i));
        }
    }
    if settled(clauses, s, p, pending) {
        assert forall|k: int, w: int, i: int|
            0 <= k < clauses.len() && 0 <= w <= 1 && 0 <= i < p implies #[trigger] watch_settled(
            clauses,
            t,
            k,
            w,
            i,
        ) by {
            assert(watch_settled(clauses, s, k, w, i));
        }
        assert forall|k: int, w: int|
            0 <= k < clauses.len() && 0 <= w <= 1 && p < t.trail.len() && !pending.contains(
                k as i64,
            ) implies #[trigger] watch_settled(clauses, t, k, w, p) by {
            assert(watch_settled(clauses, s, k, w, p));
        }
    }
}

/// When the watchers of the negation of the literal at position `p` have
/// been taken out, to be visited, the consequences of that literal have been
/// drawn for all other clauses: it falsifies no watched literal of theirs.
pub proof fn lemma_settled_start(
    clauses: Seq<Seq<Literal>>,
    s: StateView,
    p: int,
    pending: Set<i64>,
)
    requires
        s.wf(),
        clauses_ok(clauses, s.num_vars()),
        propagated_upto(clauses, s, p),
        0 <= p < s.trail.len(),
        forall|id: i64|
            0 <= id < clauses.len() && watched(clauses[id as int], flip(s.trail[p].code()))
                ==> pending.contains(id),
    ensures
        settled(clauses, s, p, pending),
{
    assert forall|k: int, w: int|
        0 <= k < clauses.len() && 0 <= w <= 1 && p < s.trail.len() && !pending.contains(k as i64)
        implies #[trigger] watch_settled(clauses, s, k, w, p) by {
        assert(k as i64 == k);
        assert(!watched(clauses[k], flip(s.trail[p].code())));
        lemma_flip_in_range(clauses[k][w].code(), s.num_vars());
        assert(s.in_range(s.trail[p]));
        lemma_flip_in_range(s.trail[p].code(), s.num_vars());
    }
}

/// Once every watcher of the negation of the literal at position `p` has
/// been visited, the consequences of that literal have been drawn.
pub proof fn lemma_settled_end(clauses: Seq<Seq<Literal>>, s: StateView, p: int, pending: Set<i64>)
    requires
        settled(clauses, s, p, pending),
        p < s.trail.len(),
        clauses.len() <= i64::MAX,
        forall|id: i64| !pending.contains(id),
    ensures
        propagated_upto(clauses, s, p + 1),
{
    assert forall|k: int, w: int, i: int|
        0 <= k < clauses.len() && 0 <= w <= 1 && 0 <= i < p + 1 implies #[trigger] watch_settled(
        clauses,
        s,
        k,
        w,
        i,
    ) by {
        if i == p {
            assert(!pending.contains(k as i64));
        }
    }
}

/// The identifiers that remain after the one at position `at`.
pub proof fn lemma_remaining_step(ids: Seq<i64>, at: int)
    requires
        ids.no_duplicates(),
        0 <= at < ids.len(),
    ensures
        remaining(ids, at + 1) == remaining(ids, at).remove(ids[at]),
        remaining(ids, at).contains(ids[at]),
{
    assert forall|id: i64| remaining(ids, at + 1).contains(id) == remaining(ids, at).remove(
        ids[at],
    ).contains(id) by {
        if remaining(ids, at + 1).contains(id) {
            let q = choose|q: int| at + 1 <= q < ids.len() && #[trigger] ids[q] == id;
            assert(ids[q] != ids[at]);
        }
        if remaining(ids, at).remove(ids[at]).contains(id) {
            let q = choose|q: int| at <= q < ids.len() && #[trigger] ids[q] == id;
            assert(q != at);
        }
    }
    assert(remaining(ids, at + 1) =~= remaining(ids, at).remove(ids[at]));
}

} // verus!

verus! {

/// The visit of a clause only asserts.
pub proof fn lemma_visit_asserts(
    begin: StateView,
    s: StateView,
    c: Seq<Literal>,
    id: i64,
    l: Literal,
)
    requires
        s.wf(),
        c.len() >= 2,
        forall|i: int| 0 <= i < c.len() ==> s.in_range(#[trigger] c[i]),
        s.in_range(l),
        s.lit_true(l),
        asserted_more(begin, s),
    ensures
        asserted_more(begin, visit_state(s, c, id, l)),
        visit_state(s, c, id, l).wf(),
        visit_state(s, c, id, l).lit_true(l),
        visit_state(s, c, id, l).num_vars() == s.num_vars(),
{
    let n = normalized(c, flip(l.code()));
    let t = visit_state(s, c, id, l);
    lemma_first_open(s, n, 2);
    let j = first_open(s, n, 2);
    lemma_flip_in_range(l.code(), s.num_vars());
    if !s.lit_true(n[0]) && j >= n.len() && s.lit_unset(n[0]) {
        let w = s.watch(flip(l.code()), id);
        lemma_frame_wf(s, w);
        assert(w.in_range(n[0]));
        lemma_assert_lit_wf(w, n[0]);
        lemma_frame_wf(w.assert_lit(n[0]), t);
        assert(w.lit_true(l));
        assert(t.trail == s.trail.push(n[0]));
        assert(t.queue == s.queue.push(n[0]));
        assert(t.trail.subrange(0, begin.trail.len() as int) =~= s.trail.subrange(
            0,
            begin.trail.len() as int,
        ));
        assert(t.queue.subrange(0, begin.queue.len() as int) =~= s.queue.subrange(
            0,
            begin.queue.len() as int,
        ));
        assert(t.trail.subrange(begin.trail.len() as int, t.trail.len() as int)
            =~= s.trail.subrange(begin.trail.len() as int, s.trail.len() as int).push(n[0]));
        assert(t.queue.subrange(begin.queue.len() as int, t.queue.len() as int)
            =~= s.queue.subrange(begin.queue.len() as int, s.queue.len() as int).push(n[0]));
    } else {
        lemma_frame_wf(s, t);
    }
}

} // verus!

verus! {

/// What has been drawn up to a position has been drawn up to any earlier
/// position that no boundary lies behind.
pub proof fn lemma_propagated_monotone(clauses: Seq<Seq<Literal>>, s: StateView, p: int, q: int)
    requires
        propagated_upto(clauses, s, p),
        0 <= q <= p,
        forall|b: int| 0 <= b < s.boundaries.len() ==> #[trigger] s.boundaries[b] <= q,
    ensures
        propagated_upto(clauses, s, q),
{
    assert forall|k: int, w: int, i: int|
        0 <= k < clauses.len() && 0 <= w <= 1 && 0 <= i < q implies #[trigger] watch_settled(
        clauses,
        s,
        k,
        w,
        i,
    ) by {
        assert(watch_settled(clauses, s, k, w, i));
    }
}

/// Where the queue held the trail from a position on, it still does after
/// the engine has asserted more.
pub proof fn lemma_queue_follows(s: StateView, t: StateView, p: int)
    requires
        s.queue_from(p),
        asserted_more(s, t),
    ensures
        t.queue_from(p),
{
    let n = s.trail.len() as int;
    let added = t.trail.subrange(n, t.trail.len() as int);
    assert(t.trail =~= s.trail + added) by {
        assert(t.trail.subrange(0, n) == s.trail);
    }
    assert(t.queue =~= s.queue + added) by {
        assert(t.queue.subrange(0, s.queue.len() as int) == s.queue);
    }
    assert(t.queue =~= t.trail.subrange(p, t.trail.len() as int));
}

/// The identifier at position `at` of `ids`; `len` where `ids` ends before.
pub open spec fn next_id(ids: Seq<i64>, at: int, len: int) -> int {
    if at < ids.len() {
        ids[at] as int
    } else {
        len
    }
}

/// Identifiers among which none is pending are passed over.
pub proof fn lemma_visit_skip(
    clauses: Seq<Seq<Literal>>,
    s: StateView,
    pending: Set<i64>,
    l: Literal,
    n: int,
    m: int,
)
    requires
        0 <= n <= m,
        m - 1 <= i64::MAX,
        forall|id: i64| pending.contains(id) ==> !(n <= id < m),
    ensures
        visit_below(clauses, s, pending, l, m) == visit_below(clauses, s, pending, l, n),
    decreases m - n,
{
    if n < m {
        lemma_visit_skip(clauses, s, pending, l, n, m - 1);
        assert(!pending.contains((m - 1) as i64));
    }
}

/// Between one member of an ascending list of the pending identifiers and
/// the next, no clause is visited.
pub proof fn lemma_visit_upto_next(
    clauses: Seq<Seq<Literal>>,
    s: StateView,
    pending: Set<i64>,
    l: Literal,
    ids: Seq<i64>,
    at: int,
)
    requires
        ascending(ids),
        ids.to_set() == pending,
        0 <= at <= ids.len(),
        clauses.len() - 1 <= i64::MAX,
        forall|q: int| 0 <= q < ids.len() ==> 0 <= #[trigger] ids[q] < clauses.len(),
    ensures
        visit_below(clauses, s, pending, l, next_id(ids, at, clauses.len() as int)) == visit_below(
            clauses,
            s,
            pending,
            l,
            if at == 0 {
                0
            } else {
                ids[at - 1] + 1
            },
        ),
{
    let from = if at == 0 {
        0
    } else {
        ids[at - 1] + 1
    };
    let to = next_id(ids, at, clauses.len() as int);
    assert(from <= to) by {
        if at > 0 && at < ids.len() {
            assert(ids[at - 1] < ids[at]);
        }
    }
    assert forall|id: i64| pending.contains(id) implies !(from <= id < to) by {
        assert(ids.to_set().contains(id));
        let q = choose|q: int| 0 <= q < ids.len() && ids[q] == id;
        if q < at {
            if q < at - 1 {
                assert(ids[q] < ids[at - 1]);
            }
        } else if at < q {
            assert(ids[at] < ids[q]);
        }
    }
    lemma_visit_skip(clauses, s, pending, l, from, to);
}

} // verus!
