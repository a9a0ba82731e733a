//! Why the operations of the engine keep its invariants.

use crate::literal::{flip, Literal, Value};
use crate::state::{
    clauses_ok, first_open, normalized, visit_clause, visit_state, watched, watching, StateView,
};
use vstd::prelude::*;
use vstd::set_lib::{lemma_int_range, lemma_len_subset, set_int_range};

verus! {

/// A true literal of a variable of the problem is on the trail.
pub proof fn lemma_true_on_trail(s: StateView, l: Literal)
    requires
        s.trail_consistent(),
        s.in_range(l),
        s.lit_true(l),
    ensures
        s.on_trail(l),
{
    let v = l.var_index();
    assert(!s.assignment[v].is_unset());
    assert(s.var_on_trail(v));
    let i = choose|i: int| 0 <= i < s.trail.len() && (#[trigger] s.trail[i]).var_index() == v;
    assert(s.lit_true(s.trail[i]));
    Literal::lemma_code_injective(s.trail[i], l);
}

/// The invariant of the state does not depend on the watchers and the
/// counters.
pub proof fn lemma_frame_wf(s: StateView, t: StateView)
    requires
        s.wf(),
        t.trail == s.trail,
        t.boundaries == s.boundaries,
        t.assignment == s.assignment,
        t.queue == s.queue,
        t.order == s.order,
        t.watches.len() == s.watches.len(),
    ensures
        t.wf(),
{
    assert forall|i: int| 0 <= i < t.trail.len() implies t.in_range(#[trigger] t.trail[i])
        && t.lit_true(t.trail[i]) by {
        assert(s.lit_true(s.trail[i]));
    }
    assert forall|v: int| 0 <= v < t.num_vars() && !(#[trigger] t.assignment[v]).is_unset() implies t.var_on_trail(
        v,
    ) by {
        assert(s.var_on_trail(v));
        let i = choose|i: int| 0 <= i < s.trail.len() && (#[trigger] s.trail[i]).var_index() == v;
        assert(t.trail[i].var_index() == v);
    }
    assert forall|i: int| 0 <= i < t.queue.len() implies t.in_range(#[trigger] t.queue[i])
        && t.lit_true(t.queue[i]) by {
        assert(s.lit_true(s.queue[i]));
    }
}

/// Asserting an unassigned literal keeps the invariant of the state.
pub proof fn lemma_assert_lit_wf(s: StateView, l: Literal)
    requires
        s.wf(),
        s.in_range(l),
        s.lit_unset(l),
    ensures
        s.assert_lit(l).wf(),
        s.assert_lit(l).lit_true(l),
        forall|x: Literal| s.in_range(x) && s.lit_true(x) ==> s.assert_lit(l).lit_true(x),
        forall|x: Literal| s.in_range(x) && s.lit_false(x) ==> s.assert_lit(l).lit_false(x),
        forall|x: Literal|
            s.in_range(x) && x.var_index() != l.var_index() ==> s.assert_lit(l).value(x)
                == s.value(x),
{
    let t = s.assert_lit(l);
    let v = l.var_index();
    Value::lemma_of_raw(l.code() % 2);
    assert(t.lit_true(l));
    assert forall|i: int| 0 <= i < t.trail.len() implies t.in_range(#[trigger] t.trail[i])
        && t.lit_true(t.trail[i]) by {
        if i < s.trail.len() {
            assert(t.trail[i] == s.trail[i]);
            assert(s.lit_true(s.trail[i]));
        }
    }
    assert forall|i: int, j: int| 0 <= i < j < t.trail.len() implies (#[trigger] t.trail[i]).var_index()
        != (#[trigger] t.trail[j]).var_index() by {
        assert(t.trail[i] == s.trail[i]);
        assert(s.lit_true(s.trail[i]));
        if j < s.trail.len() {
            assert(t.trail[j] == s.trail[j]);
        }
    }
    assert forall|u: int| 0 <= u < t.num_vars() && !(#[trigger] t.assignment[u]).is_unset() implies t.var_on_trail(
        u,
    ) by {
        if u == v {
            assert(t.trail[s.trail.len() as int].var_index() == v);
        } else {
            assert(t.assignment[u] == s.assignment[u]);
            assert(s.var_on_trail(u));
            let i = choose|i: int| 0 <= i < s.trail.len() && (#[trigger] s.trail[i]).var_index() == u;
            assert(t.trail[i] == s.trail[i]);
        }
    }
    assert forall|i: int| 0 <= i < t.queue.len() implies t.in_range(#[trigger] t.queue[i])
        && t.lit_true(t.queue[i]) by {
        if i < s.queue.len() {
            assert(t.queue[i] == s.queue[i]);
            assert(s.lit_true(s.queue[i]));
        }
    }
    assert forall|k: int| 0 <= k < t.boundaries.len() implies 0 <= #[trigger] t.boundaries[k]
        <= t.trail.len() by {
        assert(0 <= s.boundaries[k] <= s.trail.len());
    }
}

} // verus!

verus! {

/// Where `first_open` points: at a literal that is not false, behind false
/// ones only.
pub proof fn lemma_first_open(s: StateView, c: Seq<Literal>, from: int)
    requires
        0 <= from <= c.len(),
    ensures
        from <= first_open(s, c, from) <= c.len(),
        first_open(s, c, from) < c.len() ==> !s.lit_false(c[first_open(s, c, from)]),
        forall|i: int| from <= i < first_open(s, c, from) ==> s.lit_false(#[trigger] c[i]),
    decreases c.len() - from,
{
    if from < c.len() && s.lit_false(c[from]) {
        lemma_first_open(s, c, from + 1);
    }
}

/// `first_open` is the position that a scan from `from` stops at.
pub proof fn lemma_first_open_is(s: StateView, c: Seq<Literal>, from: int, j: int)
    requires
        0 <= from <= j <= c.len(),
        forall|i: int| from <= i < j ==> s.lit_false(#[trigger] c[i]),
        j < c.len() ==> !s.lit_false(c[j]),
    ensures
        first_open(s, c, from) == j,
    decreases j - from,
{
    if from < j {
        assert(s.lit_false(c[from]));
        lemma_first_open_is(s, c, from + 1, j);
    }
}

} // verus!

verus! {

/// The negation of a literal of a variable of the problem is one too.
pub proof fn lemma_flip_in_range(code: int, n: int)
    requires
        0 <= code < 2 * n,
    ensures
        0 <= flip(code) < 2 * n,
        flip(flip(code)) == code,
        flip(code) != code,
        flip(code) / 2 == code / 2,
{
}

/// Exchanging two literals of a clause gives a clause of the same literals.
pub proof fn lemma_exchange(c: Seq<Literal>, i: int, j: int)
    requires
        0 <= i < c.len(),
        0 <= j < c.len(),
    ensures
        c.update(i, c[j]).update(j, c[i]).to_multiset() == c.to_multiset(),
{
    broadcast use vstd::seq_lib::to_multiset_update;

    c.to_multiset_ensures();
    assert(c.to_multiset().count(c[i]) > 0);
    assert(c.to_multiset().count(c[j]) > 0);
    let d = c.update(i, c[j]);
    let e = d.update(j, c[i]);
    assert(d.to_multiset() == c.to_multiset().insert(c[j]).remove(c[i]));
    assert(e.to_multiset() == d.to_multiset().insert(c[i]).remove(d[j]));
    if i == j {
        assert(e =~= c);
    } else {
        assert(d[j] == c[j]);
        assert(e.to_multiset() =~= c.to_multiset());
    }
}

/// The visit of a clause leaves it the literals that it had.
pub proof fn lemma_visit_reorders(s: StateView, c: Seq<Literal>, l: Literal)
    requires
        c.len() >= 2,
    ensures
        visit_clause(s, c, l).len() == c.len(),
        visit_clause(s, c, l).to_multiset() == c.to_multiset(),
{
    let n = normalized(c, flip(l.code()));
    lemma_exchange(c, 0, 1);
    lemma_first_open(s, n, 2);
    let j = first_open(s, n, 2);
    if j < n.len() {
        lemma_exchange(n, 1, j);
    }
}

} // verus!

verus! {

/// The visit of a clause of the store leaves a store that can stand.
pub proof fn lemma_visit_clauses_ok(clauses: Seq<Seq<Literal>>, s: StateView, k: int, l: Literal)
    requires
        clauses_ok(clauses, s.num_vars()),
        0 <= k < clauses.len(),
    ensures
        clauses_ok(clauses.update(k, visit_clause(s, clauses[k], l)), s.num_vars()),
{
    let c = clauses[k];
    let n = normalized(c, flip(l.code()));
    let d = visit_clause(s, c, l);
    let after = clauses.update(k, d);
    lemma_first_open(s, n, 2);
    let j = first_open(s, n, 2);
    assert forall|q: int, i: int| 0 <= q < after.len() && 0 <= i < after[q].len() implies 0 <= (
    #[trigger] after[q][i]).code() < 2 * s.num_vars() by {
        if q == k {
            let ni = if d == n {
                i
            } else if i == 1 {
                j
            } else if i == j {
                1
            } else {
                i
            };
            assert(d[i] == n[ni]);
            let o = if n == c {
                ni
            } else if ni == 0 {
                1
            } else if ni == 1 {
                0
            } else {
                ni
            };
            assert(n[ni] == c[o]);
        } else {
            assert(after[q] == clauses[q]);
        }
    }
    assert forall|q: int, i: int, i2: int|
        0 <= q < after.len() && 0 <= i < i2 < after[q].len() implies (#[trigger] after[q][i]).code()
        != (#[trigger] after[q][i2]).code() by {
        if q == k {
            let ni = if d == n {
                i
            } else if i == 1 {
                j
            } else if i == j {
                1
            } else {
                i
            };
            let o = if n == c {
                ni
            } else if ni == 0 {
                1
            } else if ni == 1 {
                0
            } else {
                ni
            };
            let ni2 = if d == n {
                i2
            } else if i2 == 1 {
                j
            } else if i2 == j {
                1
            } else {
                i2
            };
            let o2 = if n == c {
                ni2
            } else if ni2 == 0 {
                1
            } else if ni2 == 1 {
                0
            } else {
                ni2
            };
            assert(d[i] == c[o]);
            assert(d[i2] == c[o2]);
            assert(o != o2);
            if o < o2 {
                assert(clauses[k][o].code() != clauses[k][o2].code());
            } else {
                assert(clauses[k][o2].code() != clauses[k][o].code());
            }
        } else {
            assert(after[q] == clauses[q]);
        }
    }
    assert forall|q: int| 0 <= q < after.len() implies (#[trigger] after[q]).len() >= 2 by {
        if q != k {
            assert(after[q] == clauses[q]);
        }
    }
}

/// A clause that was taken from the watchers of the held literal and is
/// entered among them again, unchanged, is pending no more.
pub proof fn lemma_restore_watching(
    clauses: Seq<Seq<Literal>>,
    watches: Seq<Set<i64>>,
    held: int,
    pending: Set<i64>,
    id: i64,
)
    requires
        0 <= held < watches.len(),
        watching(clauses, watches, held, pending),
        pending.contains(id),
    ensures
        watching(
            clauses,
            watches.update(held, watches[held].insert(id)),
            held,
            pending.remove(id),
        ),
{
    let after = watches.update(held, watches[held].insert(id));
    assert forall|code: int, other: i64| 0 <= code < after.len() implies (
    #[trigger] after[code].contains(other) <==> 0 <= other < clauses.len() && watched(
        clauses[other as int],
        code,
    ) && !(code == held && pending.remove(id).contains(other))) by {
        assert(watches[code].contains(other) <==> 0 <= other < clauses.len() && watched(
            clauses[other as int],
            code,
        ) && !(code == held && pending.contains(other)));
    }
}

/// The visit of a pending clause keeps the watchers in order, and the clause
/// is pending no more.
pub proof fn lemma_visit_watching(
    clauses: Seq<Seq<Literal>>,
    s: StateView,
    id: i64,
    l: Literal,
    pending: Set<i64>,
)
    requires
        s.wf(),
        clauses_ok(clauses, s.num_vars()),
        s.in_range(l),
        s.lit_true(l),
        watching(clauses, s.watches, flip(l.code()), pending),
        pending.contains(id),
    ensures
        watching(
            clauses.update(id as int, visit_clause(s, clauses[id as int], l)),
            visit_state(s, clauses[id as int], id, l).watches,
            flip(l.code()),
            pending.remove(id),
        ),
{
    let held = flip(l.code());
    let c = clauses[id as int];
    let n = normalized(c, held);
    let d = visit_clause(s, c, l);
    let t = visit_state(s, c, id, l);
    let after = clauses.update(id as int, d);
    lemma_flip_in_range(l.code(), s.num_vars());
    lemma_first_open(s, n, 2);
    let j = first_open(s, n, 2);
    assert(c[0].code() != c[1].code());
    assert(n[1].code() == held);
    assert(n[0].code() != held);
    if !s.lit_true(n[0]) && j < n.len() {
        assert(0 <= n[j].code() < 2 * s.num_vars()) by {
            assert(n[j] == c[j]);
        }
        assert(n[j].code() != held && n[j].code() != n[0].code()) by {
            assert(n[j] == c[j]);
            assert(c[0].code() != c[j].code());
            assert(c[1].code() != c[j].code());
        }
        assert(t.watches == s.watches.update(n[j].code(), s.watches[n[j].code()].insert(id)));
        assert(d[0] == n[0] && d[1] == n[j]);
        assert forall|code: int, other: i64| 0 <= code < t.watches.len() implies (
        #[trigger] t.watches[code].contains(other) <==> 0 <= other < after.len() && watched(
            after[other as int],
            code,
        ) && !(code == held && pending.remove(id).contains(other))) by {
            assert(s.watches[code].contains(other) <==> 0 <= other < clauses.len() && watched(
                clauses[other as int],
                code,
            ) && !(code == held && pending.contains(other)));
            if other != id && 0 <= other < clauses.len() {
                assert(after[other as int] == clauses[other as int]);
            }
        }
        assert forall|other: i64| #[trigger] pending.remove(id).contains(other) implies 0 <= other
            < after.len() && watched(after[other as int], held) by {
            assert(pending.contains(other));
            assert(after[other as int] == clauses[other as int]);
        }
    } else {
        assert(d == n);
        assert(t.watches == s.watches.update(held, s.watches[held].insert(id)));
        assert forall|code: int, other: i64| 0 <= code < t.watches.len() implies (
        #[trigger] t.watches[code].contains(other) <==> 0 <= other < after.len() && watched(
            after[other as int],
            code,
        ) && !(code == held && pending.remove(id).contains(other))) by {
            assert(s.watches[code].contains(other) <==> 0 <= other < clauses.len() && watched(
                clauses[other as int],
                code,
            ) && !(code == held && pending.contains(other)));
            if other != id && 0 <= other < clauses.len() {
                assert(after[other as int] == clauses[other as int]);
            }
        }
        assert forall|other: i64| #[trigger] pending.remove(id).contains(other) implies 0 <= other
            < after.len() && watched(after[other as int], held) by {
            assert(pending.contains(other));
            assert(after[other as int] == clauses[other as int]);
        }
    }
}

} // verus!

verus! {

/// The trail holds each variable at most once, so it is no longer than the
/// number of variables.
pub proof fn lemma_trail_bounded(s: StateView)
    requires
        s.trail_consistent(),
    ensures
        s.trail.len() <= s.num_vars(),
{
    let vars = s.trail.map_values(|l: Literal| l.var_index());
    assert forall|i: int, j: int| 0 <= i < vars.len() && 0 <= j < vars.len() && i != j implies vars[i]
        != vars[j] by {
        if i < j {
            assert(s.trail[i].var_index() != s.trail[j].var_index());
        } else {
            assert(s.trail[j].var_index() != s.trail[i].var_index());
        }
    }
    vars.unique_seq_to_set();
    let all = set_int_range(0, s.num_vars());
    lemma_int_range(0, s.num_vars());
    assert forall|v: int| vars.to_set().contains(v) implies all.contains(v) by {
        let i = choose|i: int| 0 <= i < vars.len() && vars[i] == v;
        assert(s.in_range(s.trail[i]));
    }
    lemma_len_subset(vars.to_set(), all);
}

} // verus!

verus! {

/// The invariant of the state holds of a state that differs only by a queue
/// that holds nothing new.
pub proof fn lemma_requeue_wf(s: StateView, t: StateView)
    requires
        s.wf(),
        t.trail == s.trail,
        t.boundaries == s.boundaries,
        t.assignment == s.assignment,
        t.order == s.order,
        t.watches.len() == s.watches.len(),
        forall|i: int| 0 <= i < t.queue.len() ==> s.queue.contains(#[trigger] t.queue[i]),
    ensures
        t.wf(),
{
    let u = StateView { queue: s.queue, ..t };
    lemma_frame_wf(s, u);
    assert forall|i: int| 0 <= i < t.queue.len() implies t.in_range(#[trigger] t.queue[i])
        && t.lit_true(t.queue[i]) by {
        assert(s.queue.contains(t.queue[i]));
        let j = choose|j: int| 0 <= j < s.queue.len() && s.queue[j] == t.queue[i];
        assert(s.lit_true(s.queue[j]));
    }
    assert forall|v: int| 0 <= v < t.num_vars() && !(#[trigger] t.assignment[v]).is_unset() implies t.var_on_trail(
        v,
    ) by {
        assert(u.var_on_trail(v));
        let i = choose|i: int| 0 <= i < u.trail.len() && (#[trigger] u.trail[i]).var_index() == v;
        assert(t.trail[i].var_index() == v);
    }
    assert forall|i: int| 0 <= i < t.trail.len() implies t.in_range(#[trigger] t.trail[i])
        && t.lit_true(t.trail[i]) by {
        assert(u.lit_true(u.trail[i]));
    }
}

/// The invariant of the state holds of a state that differs only by a
/// variable order that holds finitely many variables of the problem.
pub proof fn lemma_reorder_wf(s: StateView, t: StateView)
    requires
        s.wf(),
        t == (StateView { order: t.order, ..s }),
        t.order.dom().finite(),
        forall|v: i32| #[trigger] t.order.contains_key(v) ==> 0 <= v < s.num_vars(),
    ensures
        t.wf(),
{
    let u = StateView { order: s.order, ..t };
    assert(u == s);
    assert forall|i: int| 0 <= i < t.trail.len() implies t.in_range(#[trigger] t.trail[i])
        && t.lit_true(t.trail[i]) by {
        assert(s.lit_true(s.trail[i]));
    }
    assert forall|v: int| 0 <= v < t.num_vars() && !(#[trigger] t.assignment[v]).is_unset() implies t.var_on_trail(
        v,
    ) by {
        assert(s.var_on_trail(v));
        let i = choose|i: int| 0 <= i < s.trail.len() && (#[trigger] s.trail[i]).var_index() == v;
        assert(t.trail[i].var_index() == v);
    }
    assert forall|i: int| 0 <= i < t.queue.len() implies t.in_range(#[trigger] t.queue[i])
        && t.lit_true(t.queue[i]) by {
        assert(s.lit_true(s.queue[i]));
    }
}

} // verus!
