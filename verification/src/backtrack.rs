//! Why undoing a decision restores the state in which it was made.

use crate::invariants::{lemma_requeue_wf, lemma_true_on_trail};
use crate::literal::{flip, Literal, Value};
use crate::state::{not_undone_before, propagated_upto, quiescent, watch_settled, StateView};
use vstd::prelude::*;

verus! {

/// Opening a decision level keeps the invariant of the state, and leaves all
/// consequences drawn if they were.
pub proof fn lemma_open_level(clauses: Seq<Seq<Literal>>, s: StateView)
    requires
        s.wf(),
    ensures
        s.open_level().wf(),
        quiescent(clauses, s) ==> quiescent(clauses, s.open_level()),
{
    let t = s.open_level();
    let u = StateView { boundaries: s.boundaries, ..t };
    assert(u == s);
    assert forall|i: int| 0 <= i < t.trail.len() implies t.in_range(#[trigger] t.trail[i])
        && t.lit_true(t.trail[i]) by {
        assert(s.lit_true(s.trail[i]));
    }
    assert forall|v: int| 0 <= v < t.num_vars() && !(#[trigger] t.assignment[v]).is_unset() implies t.var_on_trail(
        v,
    ) by {
        assert(s.var_on_trail(v));
        let i = choose|i: int| 0 <= i < s.trail.len() && (#[trigger] s.trail[i]).var_index() == v;
        assert(t.trail[i].var_index() == v);
    }
    assert forall|i: int| 0 <= i < t.queue.len() implies t.in_range(#[trigger] t.queue[i])
        && t.lit_true(t.queue[i]) by {
        assert(s.lit_true(s.queue[i]));
    }
    assert forall|j: int, k: int| 0 <= j < k < t.boundaries.len() implies #[trigger] t.boundaries[j]
        <= #[trigger] t.boundaries[k] by {
        if k < s.boundaries.len() {
            assert(s.boundaries[j] <= s.boundaries[k]);
        } else {
            assert(s.boundaries[j] <= s.trail.len());
        }
    }
    if quiescent(clauses, s) {
        let p = s.trail.len() as int;
        assert forall|k: int, w: int, i: int|
            0 <= k < clauses.len() && 0 <= w <= 1 && 0 <= i < p implies #[trigger] watch_settled(
            clauses,
            t,
            k,
            w,
            i,
        ) by {
            assert(watch_settled(clauses, s, k, w, i));
            if t.trail[i].code() == flip(clauses[k][w].code()) {
                let j = choose|j: int|
                    0 <= j < s.trail.len() && #[trigger] s.trail[j] == clauses[k][1 - w]
                        && not_undone_before(s.boundaries, i, j);
                assert(t.trail[j] == clauses[k][1 - w]);
                assert forall|b: int| 0 <= b < t.boundaries.len() implies #[trigger] t.boundaries[b]
                    <= i || j < t.boundaries[b] by {
                    if b < s.boundaries.len() {
                        assert(s.boundaries[b] <= i || j < s.boundaries[b]);
                    }
                }
            }
        }
    }
}

/// Closing the current decision level keeps the invariant of the state but
/// for the trail, which may now reach behind the last boundary.
pub proof fn lemma_close_level(s: StateView)
    requires
        s.wf(),
    ensures
        s.close_level().wf(),
        forall|k: int|
            0 <= k < s.close_level().boundaries.len() ==> #[trigger] s.close_level().boundaries[k]
                <= s.level_start(),
        0 <= s.level_start() <= s.trail.len(),
{
    let t = s.close_level();
    assert forall|i: int| 0 <= i < t.queue.len() implies s.queue.contains(#[trigger] t.queue[i]) by {}
    let u = StateView { boundaries: s.boundaries, ..t };
    lemma_requeue_wf(s, u);
    assert forall|i: int| 0 <= i < t.trail.len() implies t.in_range(#[trigger] t.trail[i])
        && t.lit_true(t.trail[i]) by {
        assert(u.lit_true(u.trail[i]));
    }
    assert forall|v: int| 0 <= v < t.num_vars() && !(#[trigger] t.assignment[v]).is_unset() implies t.var_on_trail(
        v,
    ) by {
        assert(u.var_on_trail(v));
        let i = choose|i: int| 0 <= i < u.trail.len() && (#[trigger] u.trail[i]).var_index() == v;
        assert(t.trail[i].var_index() == v);
    }
    if s.boundaries.len() > 0 {
        let last = s.boundaries.len() - 1;
        assert(0 <= s.boundaries[last] <= s.trail.len());
        assert forall|k: int| 0 <= k < t.boundaries.len() implies 0 <= #[trigger] t.boundaries[k]
            <= s.level_start() by {
            assert(t.boundaries[k] == s.boundaries[k]);
            assert(s.boundaries[k] <= s.boundaries[last]);
        }
        assert forall|j: int, k: int| 0 <= j < k < t.boundaries.len() implies #[trigger] t.boundaries[j]
            <= #[trigger] t.boundaries[k] by {
            assert(s.boundaries[j] <= s.boundaries[k]);
        }
    }
}

/// Taking back the last literal of the trail keeps the invariant of the
/// state, where the queue is empty and no boundary lies behind the literal.
pub proof fn lemma_pop_step_wf(s: StateView)
    requires
        s.wf(),
        s.trail.len() > 0,
        s.queue.len() == 0,
        forall|k: int| 0 <= k < s.boundaries.len() ==> #[trigger] s.boundaries[k] < s.trail.len(),
    ensures
        s.pop_step().wf(),
{
    let t = s.pop_step();
    let last = s.trail.len() - 1;
    let l = s.trail[last];
    let v = l.var_index();
    Value::lemma_of_raw(2);
    assert(s.in_range(l) && s.lit_true(l));
    assert forall|i: int| 0 <= i < t.trail.len() implies t.in_range(#[trigger] t.trail[i])
        && t.lit_true(t.trail[i]) by {
        assert(t.trail[i] == s.trail[i]);
        assert(s.lit_true(s.trail[i]));
        assert(s.trail[i].var_index() != s.trail[last].var_index());
    }
    assert forall|i: int, j: int| 0 <= i < j < t.trail.len() implies (#[trigger] t.trail[i]).var_index()
        != (#[trigger] t.trail[j]).var_index() by {
        assert(t.trail[i] == s.trail[i]);
        assert(t.trail[j] == s.trail[j]);
    }
    assert forall|u: int| 0 <= u < t.num_vars() && !(#[trigger] t.assignment[u]).is_unset() implies t.var_on_trail(
        u,
    ) by {
        assert(u != v);
        assert(t.assignment[u] == s.assignment[u]);
        assert(s.var_on_trail(u));
        let i = choose|i: int| 0 <= i < s.trail.len() && (#[trigger] s.trail[i]).var_index() == u;
        assert(i != last);
        assert(t.trail[i] == s.trail[i]);
    }
    assert forall|k: int| 0 <= k < t.boundaries.len() implies 0 <= #[trigger] t.boundaries[k]
        <= t.trail.len() by {
        assert(0 <= s.boundaries[k] < s.trail.len());
    }
    assert(t.order.dom() =~= s.order.dom().insert(v as i32));
}

/// Cutting the trail literal by literal cuts it to any length.
pub proof fn lemma_cut_step(s: StateView, k: int)
    requires
        s.wf(),
        0 < k <= s.trail.len(),
    ensures
        s.cut_to(k).pop_step() == s.cut_to(k - 1),
{
    let a = s.cut_to(k).pop_step();
    let b = s.cut_to(k - 1);
    let l = s.trail[k - 1];
    let v = l.var_index();
    assert(s.in_range(l));
    assert(s.cut_to(k).trail.last() == l);
    assert(a.trail =~= b.trail);
    assert forall|u: int| s.popped(k - 1, u) == (s.popped(k, u) || u == v) by {
        if s.popped(k - 1, u) {
            let i = choose|i: int|
                k - 1 <= i < s.trail.len() && (#[trigger] s.trail[i]).var_index() == u;
            if i != k - 1 {
                assert(s.trail[i].var_index() == u);
            }
        }
        if s.popped(k, u) {
            let i = choose|i: int| k <= i < s.trail.len() && (#[trigger] s.trail[i]).var_index() == u;
            assert(s.trail[i].var_index() == u);
        }
        if u == v {
            assert(s.trail[k - 1].var_index() == u);
        }
    }
    assert(a.assignment =~= b.assignment);
    assert(a.order =~= b.order) by {
        assert forall|x: i32| a.order.contains_key(x) == b.order.contains_key(x) by {
            assert(s.popped(k - 1, x as int) == (s.popped(k, x as int) || x as int == v));
        }
        assert forall|x: i32| a.order.contains_key(x) implies a.order[x] == b.order[x] by {
            assert(s.popped(k - 1, x as int) == (s.popped(k, x as int) || x as int == v));
        }
    }
}

/// Cutting the trail to its own length changes nothing.
pub proof fn lemma_cut_step_full(s: StateView)
    requires
        s.wf(),
    ensures
        s.cut_to(s.trail.len() as int) == s,
{
    let full = s.cut_to(s.trail.len() as int);
    assert forall|u: int| !s.popped(s.trail.len() as int, u) by {}
    assert(full.trail =~= s.trail);
    assert(full.assignment =~= s.assignment);
    assert(full.order =~= s.order);
}

/// With an empty trail all consequences are drawn.
pub proof fn lemma_empty_quiescent(clauses: Seq<Seq<Literal>>, s: StateView)
    requires
        s.wf(),
        s.trail.len() == 0,
        propagated_upto(clauses, s, s.level_start()),
    ensures
        quiescent(clauses, s),
{
    if s.queue.len() > 0 {
        lemma_true_on_trail(s, s.queue[0]);
    }
    assert forall|b: int| 0 <= b < s.boundaries.len() implies #[trigger] s.boundaries[b] <= 0 by {
        assert(0 <= s.boundaries[b] <= s.trail.len());
    }
}

/// After the last decision has been undone, all consequences are drawn, if
/// they were when the decision was made.
pub proof fn lemma_undone_quiescent(clauses: Seq<Seq<Literal>>, s: StateView)
    requires
        s.wf(),
        propagated_upto(clauses, s, s.level_start()),
    ensures
        quiescent(clauses, s.undone()),
{
    if s.trail.len() == 0 {
        lemma_empty_quiescent(clauses, s);
        return ;
    }
    let t = s.undone();
    let b = s.level_start();
    assert(t.trail.len() == b);
    assert forall|k: int, w: int, i: int|
        0 <= k < clauses.len() && 0 <= w <= 1 && 0 <= i < b implies #[trigger] watch_settled(
        clauses,
        t,
        k,
        w,
        i,
    ) by {
        assert(watch_settled(clauses, s, k, w, i));
        assert(t.trail[i] == s.trail[i]);
        if t.trail[i].code() == flip(clauses[k][w].code()) {
            let j = choose|j: int|
                0 <= j < s.trail.len() && #[trigger] s.trail[j] == clauses[k][1 - w]
                    && not_undone_before(s.boundaries, i, j);
            if s.boundaries.len() > 0 {
                let last = s.boundaries.len() - 1;
                assert(s.boundaries[last] <= i || j < s.boundaries[last]);
                assert(j < b);
                assert(t.trail[j] == s.trail[j]);
                assert forall|q: int| 0 <= q < t.boundaries.len() implies #[trigger] t.boundaries[q]
                    <= i || j < t.boundaries[q] by {
                    assert(t.boundaries[q] == s.boundaries[q]);
                }
            }
        }
    }
    assert forall|q: int| 0 <= q < t.boundaries.len() implies #[trigger] t.boundaries[q] <= b by {
        assert(t.boundaries[q] == s.boundaries[q]);
        assert(s.boundaries[q] <= b);
    }
}

} // verus!
