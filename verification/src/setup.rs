//! What is built from the clauses of a problem before the search: the clause
//! store, the watchers and the variable order.

use crate::clause::{Clause, ClauseId};
use crate::literal::{Literal, Variable};
use crate::order::{queue_entries, queue_new, queue_push, VariableQueue};
use crate::preprocess::formula;
use crate::state::watched;
use crate::tagged::TaggedVec;
use std::collections::BTreeSet;
use vstd::prelude::*;
use vstd::set_lib::{lemma_int_range, lemma_len_subset, set_int_range};

verus! {

/// The variables of `acc` and then those of the literals of `c` that are not
/// among them, each once, in their order.
pub open spec fn seen_after(acc: Seq<int>, c: Seq<Literal>) -> Seq<int>
    decreases c.len(),
{
    if c.len() == 0 {
        acc
    } else if seen_after(acc, c.drop_last()).contains(c.last().var_index()) {
        seen_after(acc, c.drop_last())
    } else {
        seen_after(acc, c.drop_last()).push(c.last().var_index())
    }
}

/// The variables of the clauses of `f`, each once, in the order in which a
/// scan of the clauses meets them first.
pub open spec fn first_seen(f: Seq<Seq<Literal>>) -> Seq<int>
    decreases f.len(),
{
    if f.len() == 0 {
        Seq::empty()
    } else {
        seen_after(first_seen(f.drop_last()), f.last())
    }
}

/// The entries of the queue are the variables of `seen`, each with its
/// position in `seen` as its priority.
pub open spec fn ranked(entries: Map<i32, u64>, seen: Seq<int>) -> bool {
    &&& entries.dom().finite()
    &&& forall|i: int|
        0 <= i < seen.len() ==> entries.contains_key((#[trigger] seen[i]) as i32) && entries[seen[i] as i32]
            == i
    &&& forall|v: i32| #[trigger] entries.contains_key(v) ==> seen.contains(v as int)
}

/// A sequence of different numbers below `n` has at most `n` members.
pub proof fn lemma_distinct_bounded(s: Seq<int>, n: int)
    requires
        s.no_duplicates(),
        forall|i: int| 0 <= i < s.len() ==> 0 <= #[trigger] s[i] < n,
        0 <= n,
    ensures
        s.len() <= n,
{
    s.unique_seq_to_set();
    let all = set_int_range(0, n);
    lemma_int_range(0, n);
    assert forall|v: int| s.to_set().contains(v) implies all.contains(v) by {
        let i = choose|i: int| 0 <= i < s.len() && s[i] == v;
        assert(0 <= s[i] < n);
    }
    lemma_len_subset(s.to_set(), all);
}

/// What `seen_after` holds: the variables of `acc` and of `c`, and none
/// twice if `acc` holds none twice.
pub proof fn lemma_seen_after(acc: Seq<int>, c: Seq<Literal>)
    ensures
        acc.no_duplicates() ==> seen_after(acc, c).no_duplicates(),
        forall|v: int|
            seen_after(acc, c).contains(v) <==> (acc.contains(v) || exists|i: int|
                0 <= i < c.len() && (#[trigger] c[i]).var_index() == v),
        acc.len() <= seen_after(acc, c).len(),
        seen_after(acc, c).subrange(0, acc.len() as int) == acc,
    decreases c.len(),
{
    if c.len() == 0 {
        assert(acc.subrange(0, acc.len() as int) =~= acc);
    } else {
        let front = c.drop_last();
        let last = c.len() - 1;
        lemma_seen_after(acc, front);
        let r = seen_after(acc, front);
        let now = seen_after(acc, c);
        assert forall|v: int|
            now.contains(v) <==> (acc.contains(v) || exists|i: int|
                0 <= i < c.len() && (#[trigger] c[i]).var_index() == v) by {
            if now.contains(v) {
                let j = choose|j: int| 0 <= j < now.len() && now[j] == v;
                if j < r.len() {
                    assert(r[j] == v);
                    assert(r.contains(v));
                    if !acc.contains(v) {
                        let i = choose|i: int|
                            0 <= i < front.len() && (#[trigger] front[i]).var_index() == v;
                        assert(c[i].var_index() == v);
                    }
                } else {
                    assert(c[last].var_index() == v);
                }
            }
            if acc.contains(v) {
                assert(r.contains(v));
                let j = choose|j: int| 0 <= j < r.len() && r[j] == v;
                assert(now[j] == v);
            }
            if exists|i: int| 0 <= i < c.len() && (#[trigger] c[i]).var_index() == v {
                let i = choose|i: int| 0 <= i < c.len() && (#[trigger] c[i]).var_index() == v;
                if i < front.len() {
                    assert(front[i].var_index() == v);
                    assert(r.contains(v));
                    let j = choose|j: int| 0 <= j < r.len() && r[j] == v;
                    assert(now[j] == v);
                } else {
                    if r.contains(v) {
                        let j = choose|j: int| 0 <= j < r.len() && r[j] == v;
                        assert(now[j] == v);
                    } else {
                        assert(now[r.len() as int] == v);
                    }
                }
            }
        }
        assert(now.subrange(0, acc.len() as int) =~= r.subrange(0, acc.len() as int));
    }
}

/// What `first_seen` holds: the variables of the clauses, none twice.
pub proof fn lemma_first_seen(f: Seq<Seq<Literal>>)
    ensures
        first_seen(f).no_duplicates(),
        forall|v: int|
            first_seen(f).contains(v) <==> exists|k: int, i: int|
                0 <= k < f.len() && 0 <= i < f[k].len() && (#[trigger] f[k][i]).var_index() == v,
    decreases f.len(),
{
    if f.len() > 0 {
        let front = f.drop_last();
        let last = f.len() - 1;
        lemma_first_seen(front);
        lemma_seen_after(first_seen(front), f[last]);
        assert forall|v: int|
            first_seen(f).contains(v) <==> exists|k: int, i: int|
                0 <= k < f.len() && 0 <= i < f[k].len() && (#[trigger] f[k][i]).var_index()
                    == v by {
            if first_seen(f).contains(v) {
                if first_seen(front).contains(v) {
                    let (k, i) = choose|k: int, i: int|
                        0 <= k < front.len() && 0 <= i < front[k].len() && (
                        #[trigger] front[k][i]).var_index() == v;
                    assert(f[k][i].var_index() == v);
                } else {
                    let i = choose|i: int|
                        0 <= i < f[last].len() && (#[trigger] f[last][i]).var_index() == v;
                    assert(f[last][i].var_index() == v);
                }
            }
            if exists|k: int, i: int|
                0 <= k < f.len() && 0 <= i < f[k].len() && (#[trigger] f[k][i]).var_index() == v {
                let (k, i) = choose|k: int, i: int|
                    0 <= k < f.len() && 0 <= i < f[k].len() && (#[trigger] f[k][i]).var_index()
                        == v;
                if k < front.len() {
                    assert(front[k][i].var_index() == v);
                    assert(first_seen(front).contains(v));
                } else {
                    assert(f[last][i].var_index() == v);
                }
            }
        }
    } else {
        assert forall|v: int| !first_seen(f).contains(v) by {}
    }
}

/// Gives each clause its position in the list as its identifier, and puts
/// the clauses in a store that is indexed by identifiers.
pub fn intern_clauses(clauses: Vec<Clause>) -> (numbered: TaggedVec<ClauseId, Clause>)
    requires
        clauses@.len() <= i64::MAX,
    ensures
        numbered@.len() == clauses@.len(),
        forall|k: int|
            0 <= k < clauses@.len() ==> (#[trigger] numbered@[k]).literals() == clauses@[k].literals()
                && numbered@[k].header().id == ClauseId(k as i64) && numbered@[k].header().lit_count
                == clauses@[k].header().lit_count && numbered@[k].header().activity
                == clauses@[k].header().activity,
{
    let mut numbered: TaggedVec<ClauseId, Clause> = TaggedVec::new();
    let mut clause_num: i64 = 0;
    for cl in it: clauses.into_iter()
        invariant
            it.seq() == clauses@,
            clauses@.len() <= i64::MAX,
            clause_num == it.index(),
            numbered@.len() == it.index(),
            forall|k: int|
                0 <= k < it.index() ==> (#[trigger] numbered@[k]).literals()
                    == clauses@[k].literals() && numbered@[k].header().id == ClauseId(k as i64)
                    && numbered@[k].header().lit_count == clauses@[k].header().lit_count
                    && numbered@[k].header().activity == clauses@[k].header().activity,
    {
        let mut cl = cl;
        let clause_id = ClauseId(clause_num);
        clause_num = clause_num + 1;
        *cl.identifier_mut() = clause_id;
        numbered.push(cl);
    }
    numbered
}

/// Gives each variable of the clauses a priority: the number of variables
/// that a scan of the clauses meets before it.
pub fn initial_variable_order(clauses: &Vec<Clause>) -> (q: VariableQueue)
    requires
        forall|k: int| 0 <= k < clauses@.len() ==> (#[trigger] clauses@[k]).well_formed(),
    ensures
        ranked(queue_entries(q), first_seen(formula(clauses@))),
{
    let ghost f = formula(clauses@);
    let mut priority: u64 = 0;
    let mut q = queue_new();
    let mut seen: BTreeSet<i32> = BTreeSet::new();
    let ghost mut order: Seq<int> = Seq::empty();
    assert(f.take(0) =~= Seq::<Seq<Literal>>::empty());
    let mut k: usize = 0;
    while k < clauses.len()
        invariant
            0 <= k <= clauses@.len(),
            f == formula(clauses@),
            forall|j: int| 0 <= j < clauses@.len() ==> (#[trigger] clauses@[j]).well_formed(),
            order == first_seen(f.take(k as int)),
            order.no_duplicates(),
            forall|i: int| 0 <= i < order.len() ==> 0 <= #[trigger] order[i] < 0x4000_0000,
            priority == order.len(),
            ranked(queue_entries(q), order),
            forall|v: i32| seen@.contains(v) <==> order.contains(v as int),
        decreases clauses@.len() - k,
    {
        let c = &clauses[k];
        let ghost lits = c.literals();
        let ghost base = order;
        let count = c.lit_count();
        let mut idx: usize = 0;
        proof {
            assert(f.take(k + 1).drop_last() =~= f.take(k as int));
            assert(f.take(k + 1).last() == lits);
            assert(lits.take(0) =~= Seq::<Literal>::empty());
        }
        while idx < count
            invariant
                0 <= idx <= count,
                count == lits.len(),
                lits == c.literals(),
                order == seen_after(base, lits.take(idx as int)),
                order.no_duplicates(),
                forall|i: int| 0 <= i < order.len() ==> 0 <= #[trigger] order[i] < 0x4000_0000,
                priority == order.len(),
                ranked(queue_entries(q), order),
                forall|v: i32| seen@.contains(v) <==> order.contains(v as int),
            decreases count - idx,
        {
            let v = c.index(idx).variable();
            let number = v.number();
            proof {
                use_type_invariant(v);
                assert(lits.take(idx + 1).drop_last() =~= lits.take(idx as int));
                assert(lits.take(idx + 1).last().var_index() == number);
                lemma_distinct_bounded(order, 0x4000_0000);
            }
            if !seen.contains(&number) {
                let ghost before = queue_entries(q);
                let _ = queue_push(&mut q, number, priority);
                priority = priority + 1;
                let _ = seen.insert(number);
                proof {
                    let grown = order.push(number as int);
                    assert(grown.no_duplicates()) by {
                        assert forall|i: int, j: int|
                            0 <= i < grown.len() && 0 <= j < grown.len() && i != j implies grown[i]
                            != grown[j] by {
                            if i < order.len() && j < order.len() {
                            } else if i < order.len() {
                                assert(order.contains(order[i]));
                            } else {
                                assert(order.contains(order[j]));
                            }
                        }
                    }
                    assert(ranked(queue_entries(q), grown)) by {
                        assert(queue_entries(q).dom() =~= before.dom().insert(number));
                        assert forall|i: int| 0 <= i < grown.len() implies queue_entries(
                            q,
                        ).contains_key((#[trigger] grown[i]) as i32) && queue_entries(
                            q,
                        )[grown[i] as i32] == i by {
                            if i < order.len() {
                                assert(order.contains(order[i]));
                                assert(before.contains_key(order[i] as i32));
                            }
                        }
                        assert forall|x: i32| #[trigger]
                            queue_entries(q).contains_key(x) implies grown.contains(x as int) by {
                            if x == number {
                                assert(grown[order.len() as int] == number);
                            } else {
                                assert(before.contains_key(x));
                                assert(order.contains(x as int));
                                let i = choose|i: int| 0 <= i < order.len() && order[i] == x as int;
                                assert(grown[i] == x as int);
                            }
                        }
                    }
                    assert forall|x: i32| seen@.contains(x) <==> grown.contains(x as int) by {
                        if x == number {
                            assert(grown[order.len() as int] == number);
                        } else {
                            if order.contains(x as int) {
                                let i = choose|i: int| 0 <= i < order.len() && order[i] == x as int;
                                assert(grown[i] == x as int);
                            }
                            if grown.contains(x as int) {
                                let i = choose|i: int| 0 <= i < grown.len() && grown[i] == x as int;
                                assert(order[i] == x as int);
                            }
                        }
                    }
                    order = grown;
                }
            }
            idx = idx + 1;
        }
        assert(lits.take(count as int) =~= lits);
        k = k + 1;
    }
    assert(f.take(clauses@.len() as int) =~= f);
    q
}

/// The clauses of `clauses` that have the literal with code `code` among
/// their first two, by their identifiers.
pub open spec fn watchers_among(clauses: Seq<Clause>, upto: int, code: int) -> Set<i64> {
    Set::new(
        |id: i64|
            exists|k: int|
                0 <= k < upto && (#[trigger] clauses[k]).header().id.0 == id && watched(
                    clauses[k].literals(),
                    code,
                ),
    )
}

/// Makes room in the watch index for every literal of the variables up to
/// `next_var`, and enters each clause among the watchers of its first two
/// literals.
pub fn initialize_watchlist(
    next_var: &Variable,
    clauses: &TaggedVec<ClauseId, Clause>,
    watch_index: &mut TaggedVec<Literal, BTreeSet<i64>>,
)
    requires
        clauses@.len() <= i64::MAX,
        forall|k: int|
            0 <= k < clauses@.len() ==> (#[trigger] clauses@[k]).well_formed()
                && clauses@[k].literals().len() >= 2 && clauses@[k].literals()[0].code() < 2 * (
            next_var.index() + 1) && clauses@[k].literals()[1].code() < 2 * (next_var.index() + 1),
    ensures
        final(watch_index)@.len() == (if old(watch_index)@.len() > 2 * next_var.index() + 1 {
            old(watch_index)@.len() as int
        } else {
            2 * next_var.index() + 2
        }),
        forall|code: int|
            0 <= code < final(watch_index)@.len() ==> (#[trigger] final(watch_index)@[code])@ == (
            if code < old(watch_index)@.len() {
                old(watch_index)@[code]@
            } else {
                Set::<i64>::empty()
            }).union(watchers_among(clauses@, clauses@.len() as int, code)),
{
    let max_lit = next_var.to_negative_literal();
    proof {
        use_type_invariant(next_var);
    }
    watch_index.ensure_index(&max_lit, BTreeSet::new());
    let ghost start = watch_index@;
    assert forall|code: int| 0 <= code < start.len() implies (#[trigger] start[code])@ == (if code
        < old(watch_index)@.len() {
        old(watch_index)@[code]@
    } else {
        Set::<i64>::empty()
    }) by {
        if code < old(watch_index)@.len() {
            assert(start[code] == start.subrange(0, old(watch_index)@.len() as int)[code]);
        }
    }
    let total = clauses.len();
    let mut k: usize = 0;
    while k < total
        invariant
            0 <= k <= total,
            total == clauses@.len(),
            total <= i64::MAX,
            watch_index@.len() == start.len(),
            start.len() >= 2 * next_var.index() + 2,
            forall|j: int|
                0 <= j < clauses@.len() ==> (#[trigger] clauses@[j]).well_formed()
                    && clauses@[j].literals().len() >= 2 && clauses@[j].literals()[0].code() < 2
                    * (next_var.index() + 1) && clauses@[j].literals()[1].code() < 2 * (
                next_var.index() + 1),
            forall|code: int|
                0 <= code < start.len() ==> (#[trigger] watch_index@[code])@ == start[code]@.union(
                    watchers_among(clauses@, k as int, code),
                ),
        decreases total - k,
    {
        let cl = clauses.index(ClauseId(k as i64));
        let cid = cl.identifier();
        let first: Literal = *cl.index(0);
        let second: Literal = *cl.index(1);
        proof {
            use_type_invariant(first);
            use_type_invariant(second);
        }
        let ghost before = watch_index@;
        let watchers = watch_index.index_mut(first);
        let _ = watchers.insert(cid.0);
        let ghost between = watch_index@;
        let watchers = watch_index.index_mut(second);
        let _ = watchers.insert(cid.0);
        proof {
            let after = watch_index@;
            assert forall|code: int| 0 <= code < start.len() implies (#[trigger] after[code])@
                == start[code]@.union(watchers_among(clauses@, k + 1, code)) by {
                assert(before[code]@ == start[code]@.union(
                    watchers_among(clauses@, k as int, code),
                ));
                let grown = watchers_among(clauses@, k + 1, code);
                let had = watchers_among(clauses@, k as int, code);
                assert forall|id: i64| grown.contains(id) <==> (had.contains(id) || (id == cid.0
                    && watched(clauses@[k as int].literals(), code))) by {
                    if grown.contains(id) {
                        let j = choose|j: int|
                            0 <= j < k + 1 && (#[trigger] clauses@[j]).header().id.0 == id
                                && watched(clauses@[j].literals(), code);
                        if j < k {
                            assert(had.contains(id));
                        }
                    }
                    if had.contains(id) {
                        let j = choose|j: int|
                            0 <= j < k && (#[trigger] clauses@[j]).header().id.0 == id && watched(
                                clauses@[j].literals(),
                                code,
                            );
                        assert(clauses@[j].header().id.0 == id);
                    }
                    if id == cid.0 && watched(clauses@[k as int].literals(), code) {
                        assert(clauses@[k as int].header().id.0 == id);
                    }
                }
                assert(after[code]@ =~= start[code]@.union(grown));
            }
        }
        k = k + 1;
    }
}

} // verus!
