//! Topological sorting over the canonical snapshot.
//!
//! Kahn's algorithm: a FIFO queue is seeded, in item order, with every index
//! of declared in-degree zero; popping an index emits it and counts it off
//! against the declared in-degree of each out-neighbour. On well-formed
//! input the emitted order is a complete, edge-respecting order exactly when
//! the graph is acyclic, and the indices never emitted witness a cycle.

use vstd::prelude::*;
use vstd::math::max;
use crate::BeadNode;
use crate::TopoSortResult;
use crate::model::edge;
use crate::model::well_formed;
use crate::model::has_cycle_spec;
use crate::model::usq_contains;
use crate::model::preds;
use crate::model::lemma_preds_finite;
use crate::model::lemma_wf_in_degree;
use crate::model::lemma_order_trapped_cycle;
use crate::model::lemma_complete_order_acyclic;
use crate::model::lemma_nodup_bounded_len;
use crate::model::complete_respecting_order;
use crate::model::declares_blocker;
use crate::GraphError;
use crate::snapshot::Snapshot;
use crate::snapshot::snap_wf;

verus! {

/// The canonical predecessors of `v` that occur in the popped prefix.
pub open spec fn popped_preds(items: Seq<BeadNode>, popped: Seq<usize>, v: int) -> Set<int> {
    Set::new(|u: int| edge(items, u, v) && usq_contains(popped, u))
}

proof fn lemma_popped_preds_finite(items: Seq<BeadNode>, popped: Seq<usize>, v: int)
    ensures
        popped_preds(items, popped, v).finite(),
        popped_preds(items, popped, v).len() <= preds(items, v).len(),
        popped_preds(items, popped, v).subset_of(preds(items, v)),
{
    lemma_preds_finite(items, v);
    vstd::set_lib::lemma_len_subset(popped_preds(items, popped, v), preds(items, v));
}

proof fn lemma_usq_push(popped: Seq<usize>, u: usize)
    ensures
        forall|x: int|
            usq_contains(popped.push(u), x) <==> (usq_contains(popped, x) || x == u as int),
{
    assert forall|x: int| usq_contains(popped.push(u), x) implies (usq_contains(popped, x) || x
        == u as int) by {
        let k = choose|k: int|
            0 <= k < popped.push(u).len() && (#[trigger] popped.push(u)[k]) as int == x;
        if k < popped.len() {
            assert(popped[k] as int == x);
        }
    }
    assert forall|x: int| (usq_contains(popped, x) || x == u as int) implies usq_contains(
        popped.push(u),
        x,
    ) by {
        if usq_contains(popped, x) {
            let k = choose|k: int| 0 <= k < popped.len() && (#[trigger] popped[k]) as int == x;
            assert(popped.push(u)[k] as int == x);
        } else {
            assert(popped.push(u)[popped.len() as int] as int == x);
        }
    }
}

proof fn lemma_push_contains(q: Seq<usize>, e: usize)
    ensures
        forall|x: usize| q.push(e).contains(x) <==> (q.contains(x) || x == e),
{
    assert forall|x: usize| q.push(e).contains(x) implies (q.contains(x) || x == e) by {
        let k = choose|k: int| 0 <= k < q.push(e).len() && (#[trigger] q.push(e)[k]) == x;
        if k < q.len() {
            assert(q[k] == x);
        }
    }
    assert forall|x: usize| (q.contains(x) || x == e) implies q.push(e).contains(x) by {
        if q.contains(x) {
            let k = choose|k: int| 0 <= k < q.len() && (#[trigger] q[k]) == x;
            assert(q.push(e)[k] == x);
        } else {
            assert(q.push(e)[q.len() as int] == x);
        }
    }
}

proof fn lemma_popped_preds_push(items: Seq<BeadNode>, popped: Seq<usize>, u: usize, v: int)
    requires
        !usq_contains(popped, u as int),
    ensures
        edge(items, u as int, v) ==> popped_preds(items, popped.push(u), v) == popped_preds(
            items,
            popped,
            v,
        ).insert(u as int),
        edge(items, u as int, v) ==> popped_preds(items, popped.push(u), v).len() == popped_preds(
            items,
            popped,
            v,
        ).len() + 1,
        !edge(items, u as int, v) ==> popped_preds(items, popped.push(u), v) == popped_preds(
            items,
            popped,
            v,
        ),
{
    lemma_usq_push(popped, u);
    lemma_popped_preds_finite(items, popped, v);
    if edge(items, u as int, v) {
        assert(popped_preds(items, popped.push(u), v) =~= popped_preds(items, popped, v).insert(
            u as int,
        ));
        assert(!popped_preds(items, popped, v).contains(u as int));
    } else {
        assert(popped_preds(items, popped.push(u), v) =~= popped_preds(items, popped, v));
    }
}

/// Declared in-degree of `v` net of the predecessors already popped.
pub open spec fn deg_ok(items: Seq<BeadNode>, popped: Seq<usize>, deg: Seq<usize>, v: int) -> bool {
    deg[v] as int == max(0, items[v].blocked_by@.len() - popped_preds(items, popped, v).len())
}

/// What a Kahn pass guarantees of its emitted order.
pub open spec fn kahn_post(items: Seq<BeadNode>, order: Seq<usize>) -> bool {
    &&& order.no_duplicates()
    &&& order.len() <= items.len()
    &&& forall|k: int| 0 <= k < order.len() ==> ((#[trigger] order[k]) as int) < items.len()
    &&& (well_formed(items) ==> forall|j: int, u: int|
        0 <= j < order.len() && #[trigger] edge(items, u, order[j] as int) ==> exists|i: int|
            0 <= i < j && (#[trigger] order[i]) as int == u)
    &&& (well_formed(items) ==> (order.len() == items.len() <==> !has_cycle_spec(items)))
    &&& (well_formed(items) && order.len() == items.len() ==> complete_respecting_order(
        items,
        order,
    ))
    &&& (well_formed(items) ==> forall|v: int|
        0 <= v < items.len() && !usq_contains(order, v) ==> exists|u: int|
            0 <= u < items.len() && !usq_contains(order, u) && edge(items, u, v))
}

/// The emitted order and per-index emission flags of one Kahn pass.
pub struct KahnResult {
    pub order: Vec<usize>,
    pub emitted: Vec<bool>,
}

/// Run Kahn's algorithm over the canonical snapshot.
pub fn kahn_order(s: &Snapshot, Ghost(items): Ghost<Seq<BeadNode>>) -> (r: KahnResult)
    requires
        snap_wf(*s, items),
    ensures
        kahn_post(items, r.order@),
        r.emitted@.len() == items.len(),
        forall|v: int| 0 <= v < items.len() ==> (r.emitted@[v] <==> usq_contains(r.order@, v)),
{
    let n = s.ids.len();
    let mut deg: Vec<usize> = Vec::new();
    for i in 0..n
        invariant
            snap_wf(*s, items),
            n == items.len(),
            deg@.len() == i,
            forall|j: int| 0 <= j < i ==> deg@[j] == s.in_deg@[j],
    {
        deg.push(s.in_deg[i]);
    }
    let mut queue: Vec<usize> = Vec::new();
    // Seed with all indices of declared in-degree zero, in item order.
    for i in 0..n
        invariant
            snap_wf(*s, items),
            n == items.len(),
            deg@.len() == n,
            forall|j: int| 0 <= j < n ==> deg@[j] == s.in_deg@[j],
            queue@.no_duplicates(),
            forall|k: int| 0 <= k < queue@.len() ==> ((#[trigger] queue@[k]) as int) < i as int,
            forall|v: int| 0 <= v < i ==> (deg@[v] == 0 <==> usq_contains(queue@, v)),
    {
        if deg[i] == 0 {
            let ghost oldq = queue@;
            queue.push(i);
            proof {
                lemma_usq_push(oldq, i);
                assert(queue@ == oldq.push(i));
                assert(usq_contains(queue@, i as int)) by {
                    assert(queue@[queue@.len() - 1] as int == i as int);
                }
                assert(queue@.no_duplicates()) by {
                    assert(!usq_contains(oldq, i as int));
                    assert forall|a: int, b: int|
                        0 <= a < queue@.len() && 0 <= b < queue@.len() && a != b implies queue@[a]
                        != queue@[b] by {
                        if a < oldq.len() && b < oldq.len() {
                        } else if a < oldq.len() {
                            assert(queue@[b] == i);
                            if queue@[a] == i {
                                assert(oldq[a] as int == i as int);
                            }
                        } else {
                            assert(queue@[a] == i);
                            if queue@[b] == i {
                                assert(oldq[b] as int == i as int);
                            }
                        }
                    }
                }
            }
        } else {
            proof {
                assert(!usq_contains(queue@, i as int)) by {
                    if usq_contains(queue@, i as int) {
                        let k = choose|k: int|
                            0 <= k < queue@.len() && (#[trigger] queue@[k]) as int == i as int;
                        assert((queue@[k] as int) < i as int);
                    }
                }
            }
        }
    }
    let mut head: usize = 0;
    proof {
        lemma_nodup_bounded_len(queue@, n as int);
        // Initially nothing is popped.
        assert(queue@.subrange(0, 0) =~= Seq::<usize>::empty());
        assert forall|v: int| 0 <= v < n implies deg_ok(
            items,
            queue@.subrange(0, 0),
            deg@,
            v,
        ) by {
            assert(popped_preds(items, queue@.subrange(0, 0), v) =~= Set::<int>::empty());
            assert(deg@[v] as int == items[v].blocked_by@.len());
        }
        // Queued seeds have no predecessors under well-formedness.
        if well_formed(items) {
            assert forall|j: int, u: int|
                0 <= j < queue@.len() && #[trigger] edge(items, u, queue@[j] as int) implies exists|
                i: int,
            |
                0 <= i < j && i < 0 && (#[trigger] queue@[i]) as int == u by {
                let v = queue@[j] as int;
                assert(deg@[v] == 0);
                lemma_wf_in_degree(items, v);
                assert(preds(items, v).contains(u));
                assert(preds(items, v).len() >= 1) by {
                    lemma_preds_finite(items, v);
                    Set::<int>::empty().lemma_subset_not_in_lt(preds(items, v), u);
                }
                assert(false);
            }
        }
    }
    while head < queue.len()
        invariant
            snap_wf(*s, items),
            n == items.len(),
            deg@.len() == n,
            head <= queue@.len() <= n,
            queue@.no_duplicates(),
            forall|k: int| 0 <= k < queue@.len() ==> ((#[trigger] queue@[k]) as int) < n as int,
            forall|v: int|
                0 <= v < n ==> deg_ok(items, queue@.subrange(0, head as int), deg@, v),
            forall|v: int| 0 <= v < n ==> (deg@[v] == 0 <==> usq_contains(queue@, v)),
            well_formed(items) ==> forall|j: int, u: int|
                0 <= j < queue@.len() && #[trigger] edge(items, u, queue@[j] as int)
                    ==> exists|i: int|
                    0 <= i < j && i < head as int && (#[trigger] queue@[i]) as int == u,
        decreases queue@.len() - head + (n - queue@.len()),
    {
        let u = queue[head];
        let ghost popped_old = queue@.subrange(0, head as int);
        head = head + 1;
        let ghost popped_new = queue@.subrange(0, head as int);
        proof {
            assert(popped_new =~= popped_old.push(u));
            assert(!usq_contains(popped_old, u as int)) by {
                if usq_contains(popped_old, u as int) {
                    let k = choose|k: int|
                        0 <= k < popped_old.len() && (#[trigger] popped_old[k]) as int
                            == u as int;
                    assert(queue@[k] == queue@[head - 1]);
                }
            }
        }
        let row_len = s.out[u].len();
        let ghost row = s.out@[u as int]@;
        let mut k: usize = 0;
        while k < row_len
            invariant
                snap_wf(*s, items),
                n == items.len(),
                deg@.len() == n,
                0 <= (u as int) < n,
                head <= queue@.len() <= n,
                row == s.out@[u as int]@,
                row_len == row.len(),
                k <= row_len,
                popped_new == queue@.subrange(0, head as int),
                popped_new == popped_old.push(u),
                !usq_contains(popped_old, u as int),
                queue@.no_duplicates(),
                forall|j: int|
                    0 <= j < queue@.len() ==> ((#[trigger] queue@[j]) as int) < n as int,
                forall|v: int|
                    0 <= v < n && row.subrange(0, k as int).contains(v as usize) ==> deg_ok(
                        items,
                        popped_new,
                        deg@,
                        v,
                    ),
                forall|v: int|
                    0 <= v < n && !row.subrange(0, k as int).contains(v as usize) ==> deg_ok(
                        items,
                        popped_old,
                        deg@,
                        v,
                    ),
                forall|v: int| 0 <= v < n ==> (deg@[v] == 0 <==> usq_contains(queue@, v)),
                well_formed(items) ==> forall|j: int, w: int|
                    0 <= j < queue@.len() && #[trigger] edge(items, w, queue@[j] as int)
                        ==> exists|i: int|
                        0 <= i < j && i < head as int && (#[trigger] queue@[i]) as int == w,
            decreases row_len - k,
        {
            let v = s.out[u][k];
            let ghost deg_pre = deg@;
            proof {
                assert(row[k as int] == v);
                assert(row.contains(v));
                assert(edge(items, u as int, v as int));
                assert((v as int) < n as int);
                lemma_popped_preds_push(items, popped_old, u, v as int);
                // v has not been handled earlier in this row.
                assert(!row.subrange(0, k as int).contains(v)) by {
                    if row.subrange(0, k as int).contains(v) {
                        let k2 = choose|k2: int|
                            0 <= k2 < k as int && row.subrange(0, k as int)[k2] == v;
                        assert(row[k2] == row[k as int]);
                    }
                }
                assert(deg_ok(items, popped_old, deg@, v as int));
            }
            let dv = deg[v];
            if dv > 0 {
                proof {
                    // still counting: v cannot be queued yet
                    assert(deg@[v as int] != 0);
                    assert(!usq_contains(queue@, v as int));
                }
                deg[v] = dv - 1;
                if dv == 1 {
                    let ghost oldq = queue@;
                    queue.push(v);
                    proof {
                        lemma_usq_push(oldq, v);
                        assert(queue@.no_duplicates()) by {
                            assert forall|a: int, b: int|
                                0 <= a < queue@.len() && 0 <= b < queue@.len() && a
                                    != b implies queue@[a] != queue@[b] by {
                                if a < oldq.len() && b < oldq.len() {
                                } else if a < oldq.len() {
                                    if queue@[a] == v {
                                        assert(oldq[a] as int == v as int);
                                    }
                                } else if b < oldq.len() {
                                    if queue@[b] == v {
                                        assert(oldq[b] as int == v as int);
                                    }
                                }
                            }
                        }
                        lemma_nodup_bounded_len(queue@, n as int);
                        assert(popped_new =~= queue@.subrange(0, head as int));
                        // membership stays exact
                        assert forall|x: int| 0 <= x < n implies (deg@[x] == 0 <==> usq_contains(
                            queue@,
                            x,
                        )) by {
                            if x == v as int {
                                assert(queue@[queue@.len() - 1] as int == x);
                            } else {
                                assert(deg@[x] == deg_pre[x]);
                            }
                        }
                        // the new queue entry has all its predecessors popped
                        if well_formed(items) {
                            lemma_wf_in_degree(items, v as int);
                            lemma_popped_preds_finite(items, popped_new, v as int);
                            assert(deg_pre[v as int] as int == max(
                                0,
                                items[v as int].blocked_by@.len() - popped_preds(
                                    items,
                                    popped_old,
                                    v as int,
                                ).len(),
                            ));
                            assert(popped_preds(items, popped_new, v as int).len()
                                == popped_preds(items, popped_old, v as int).len() + 1);
                            assert(popped_preds(items, popped_new, v as int).len() >= items[
                                v as int].blocked_by@.len());
                            vstd::set_lib::lemma_subset_equality(
                                popped_preds(items, popped_new, v as int),
                                preds(items, v as int),
                            );
                            assert forall|j: int, w: int|
                                0 <= j < queue@.len() && #[trigger] edge(
                                    items,
                                    w,
                                    queue@[j] as int,
                                ) implies exists|i: int|
                                0 <= i < j && i < head as int && (#[trigger] queue@[i]) as int
                                    == w by {
                                if j < oldq.len() {
                                    assert(edge(items, w, oldq[j] as int));
                                    let i = choose|i: int|
                                        0 <= i < j && i < head as int && (#[trigger] oldq[i]) as int
                                            == w;
                                    assert(queue@[i] as int == w);
                                } else {
                                    assert(queue@[j] == v);
                                    assert(preds(items, v as int).contains(w));
                                    assert(usq_contains(popped_new, w));
                                    let i = choose|i: int|
                                        0 <= i < popped_new.len() && (
                                        #[trigger] popped_new[i]) as int == w;
                                    assert(queue@[i] as int == w);
                                    assert(i < head as int);
                                    assert(head as int <= j);
                                }
                            }
                        }
                    }
                } else {
                    proof {
                        // v keeps a positive count and stays unqueued
                        assert forall|x: int| 0 <= x < n implies (deg@[x] == 0 <==> usq_contains(
                            queue@,
                            x,
                        )) by {
                            if x != v as int {
                                assert(deg@[x] == deg_pre[x]);
                            }
                        }
                    }
                }
            }
            k = k + 1;
            proof {
                let prefix_old = row.subrange(0, k as int - 1);
                let prefix_new = row.subrange(0, k as int);
                assert(prefix_new =~= prefix_old.push(v)) by {
                    assert(row[k as int - 1] == v);
                }
                lemma_push_contains(prefix_old, v);
                assert forall|x: int|
                    0 <= x < n && !prefix_new.contains(x as usize) implies deg_ok(
                    items,
                    popped_old,
                    deg@,
                    x,
                ) by {
                    assert(!prefix_old.contains(x as usize));
                    assert(x != v as int) by {
                        if x == v as int {
                            assert(prefix_new.contains(v));
                        }
                    }
                    assert(deg@[x] == deg_pre[x]);
                    assert(deg_ok(items, popped_old, deg_pre, x));
                }
                assert forall|x: int|
                    0 <= x < n && prefix_new.contains(x as usize) implies deg_ok(
                    items,
                    popped_new,
                    deg@,
                    x,
                ) by {
                    lemma_popped_preds_push(items, popped_old, u, x);
                    if x == v as int {
                        assert(deg_ok(items, popped_old, deg_pre, x));
                        assert(edge(items, u as int, x));
                        assert(popped_preds(items, popped_new, x).len() == popped_preds(
                            items,
                            popped_old,
                            x,
                        ).len() + 1);
                        if dv > 0 {
                            assert(deg@[x] as int == dv - 1);
                        } else {
                            assert(deg@[x] == deg_pre[x]);
                        }
                    } else {
                        assert(prefix_old.contains(x as usize));
                        assert(deg_ok(items, popped_new, deg_pre, x));
                        assert(deg@[x] == deg_pre[x]);
                    }
                }
            }
        }
        proof {
            // Every index outside the row keeps its count; the popped set
            // only grew by a non-predecessor for it.
            assert(row.subrange(0, row_len as int) =~= row);
            assert forall|x: int| 0 <= x < n implies deg_ok(items, popped_new, deg@, x) by {
                if row.subrange(0, row_len as int).contains(x as usize) {
                    assert(deg_ok(items, popped_new, deg@, x));
                } else {
                    assert(!row.contains(x as usize));
                    assert(!edge(items, u as int, x));
                    lemma_popped_preds_push(items, popped_old, u, x);
                    assert(deg_ok(items, popped_old, deg@, x));
                }
            }
        }
    }
    // The loop pops everything it pushes, so the queue is the emitted order.
    proof {
        assert(queue@.subrange(0, head as int) =~= queue@);
    }
    let order = queue;
    let mut emitted: Vec<bool> = Vec::new();
    for i in 0..n
        invariant
            emitted@.len() == i,
            forall|v: int| 0 <= v < i ==> !emitted@[v],
    {
        emitted.push(false);
    }
    let m = order.len();
    let mut t: usize = 0;
    while t < m
        invariant
            n == items.len(),
            m == order@.len() <= n,
            t <= m,
            emitted@.len() == n,
            forall|j: int| 0 <= j < m ==> ((#[trigger] order@[j]) as int) < n as int,
            forall|v: int|
                0 <= v < n ==> (emitted@[v] <==> exists|j: int|
                    0 <= j < t && (#[trigger] order@[j]) as int == v),
        decreases m - t,
    {
        let x = order[t];
        emitted[x] = true;
        t = t + 1;
        proof {
            assert forall|v: int|
                0 <= v < n implies (emitted@[v] <==> exists|j: int|
                0 <= j < t && (#[trigger] order@[j]) as int == v) by {
                if v == x as int {
                    assert(order@[t - 1] as int == v);
                }
            }
        }
    }
    proof {
        lemma_kahn_post(items, order@, deg@, n as int);
    }
    KahnResult { order, emitted }
}

/// Unemitted indices are trapped: each keeps an unemitted predecessor.
proof fn lemma_kahn_trapped(items: Seq<BeadNode>, order: Seq<usize>, deg: Seq<usize>, n: int)
    requires
        well_formed(items),
        n == items.len(),
        deg.len() == n,
        forall|v: int| 0 <= v < n ==> deg_ok(items, order, deg, v),
        forall|v: int| 0 <= v < n ==> (deg[v] == 0 <==> usq_contains(order, v)),
    ensures
        forall|v: int|
            0 <= v < n && !usq_contains(order, v) ==> exists|u: int|
                0 <= u < n && !usq_contains(order, u) && edge(items, u, v),
{
    assert forall|v: int| 0 <= v < n && !usq_contains(order, v) implies exists|u: int|
        0 <= u < n && !usq_contains(order, u) && edge(items, u, v) by {
        assert(deg[v] != 0);
        assert(deg_ok(items, order, deg, v));
        lemma_wf_in_degree(items, v);
        lemma_popped_preds_finite(items, order, v);
        assert(popped_preds(items, order, v).len() < items[v].blocked_by@.len());
        if forall|u: int|
            preds(items, v).contains(u) ==> #[trigger] popped_preds(items, order, v).contains(u) {
            assert(preds(items, v).subset_of(popped_preds(items, order, v)));
            lemma_preds_finite(items, v);
            vstd::set_lib::lemma_len_subset(preds(items, v), popped_preds(items, order, v));
            assert(false);
        }
        let u = choose|u: int|
            preds(items, v).contains(u) && !popped_preds(items, order, v).contains(u);
        assert(edge(items, u, v));
        assert(!usq_contains(order, u));
        assert(0 <= u < n);
    }
}

/// A complete emitted order respects the edges.
proof fn lemma_kahn_respect(items: Seq<BeadNode>, order: Seq<usize>, n: int)
    requires
        well_formed(items),
        n == items.len(),
        order.no_duplicates(),
        order.len() == n,
        forall|k: int| 0 <= k < order.len() ==> ((#[trigger] order[k]) as int) < n,
        forall|j: int, u: int|
            0 <= j < order.len() && #[trigger] edge(items, u, order[j] as int) ==> exists|i: int|
                0 <= i < j && (#[trigger] order[i]) as int == u,
    ensures
        complete_respecting_order(items, order),
{
    assert forall|i: int, j: int|
        0 <= i < order.len() && 0 <= j < order.len() && edge(
            items,
            order[i] as int,
            order[j] as int,
        ) implies i < j by {
        let u = order[i] as int;
        let i2 = choose|i2: int| 0 <= i2 < j && (#[trigger] order[i2]) as int == u;
        assert(order[i2] == order[i]);
        assert(i2 == i);
    }
}

/// A duplicate-free order shorter than `n` misses some index below `n`.
proof fn lemma_incomplete_missing(order: Seq<usize>, n: int)
    requires
        order.no_duplicates(),
        order.len() < n,
        forall|k: int| 0 <= k < order.len() ==> ((#[trigger] order[k]) as int) < n,
    ensures
        exists|v: int| 0 <= v < n && !usq_contains(order, v),
{
    let oi = Seq::new(order.len(), |k: int| order[k] as int);
    assert(oi.no_duplicates()) by {
        assert forall|a: int, b: int|
            0 <= a < oi.len() && 0 <= b < oi.len() && a != b implies oi[a] != oi[b] by {
            assert(order[a] != order[b]);
        }
    }
    oi.unique_seq_to_set();
    let range = vstd::set_lib::set_int_range(0, n);
    vstd::set_lib::lemma_int_range(0, n);
    if forall|v: int| 0 <= v < n ==> #[trigger] usq_contains(order, v) {
        assert forall|x: int| range.contains(x) implies oi.to_set().contains(x) by {
            assert(usq_contains(order, x));
            let k = choose|k: int| 0 <= k < order.len() && (#[trigger] order[k]) as int == x;
            assert(oi[k] == x);
        }
        vstd::set_lib::lemma_len_subset(range, oi.to_set());
        assert(false);
    }
}

/// An incomplete emitted order leaves a trapped set, which witnesses a cycle.
#[verifier::rlimit(50)]
proof fn lemma_kahn_cycle(items: Seq<BeadNode>, order: Seq<usize>, n: int)
    requires
        well_formed(items),
        n == items.len(),
        order.no_duplicates(),
        order.len() < n,
        forall|k: int| 0 <= k < order.len() ==> ((#[trigger] order[k]) as int) < n,
        forall|v: int|
            0 <= v < n && !usq_contains(order, v) ==> exists|u: int|
                0 <= u < n && !usq_contains(order, u) && edge(items, u, v),
    ensures
        has_cycle_spec(items),
{
    lemma_incomplete_missing(order, n);
    let v0 = choose|v: int| 0 <= v < n && !usq_contains(order, v);
    lemma_order_trapped_cycle(items, order, v0);
}

/// From the loop invariants of a finished Kahn pass, derive the public
/// guarantees: the order respects edges, it is complete exactly on acyclic
/// input, and the leftover indices are trapped in cycles.
proof fn lemma_kahn_post(items: Seq<BeadNode>, order: Seq<usize>, deg: Seq<usize>, n: int)
    requires
        n == items.len(),
        deg.len() == n,
        order.no_duplicates(),
        order.len() <= n,
        forall|k: int| 0 <= k < order.len() ==> ((#[trigger] order[k]) as int) < n,
        forall|v: int| 0 <= v < n ==> deg_ok(items, order, deg, v),
        forall|v: int| 0 <= v < n ==> (deg[v] == 0 <==> usq_contains(order, v)),
        well_formed(items) ==> forall|j: int, u: int|
            0 <= j < order.len() && #[trigger] edge(items, u, order[j] as int) ==> exists|i: int|
                0 <= i < j && (#[trigger] order[i]) as int == u,
    ensures
        kahn_post(items, order),
{
    if well_formed(items) {
        lemma_kahn_trapped(items, order, deg, n);
        if order.len() == n {
            lemma_kahn_respect(items, order, n);
            lemma_complete_order_acyclic(items, order);
        } else {
            lemma_kahn_cycle(items, order, n);
        }
    }
}

/// The ids of the emitted order, in emission order.
pub open spec fn ids_of_order(items: Seq<BeadNode>, order: Seq<usize>) -> Seq<Seq<char>> {
    Seq::new(order.len(), |k: int| items[order[k] as int].id@)
}

/// The ids of the first `upto` items never emitted, in item order.
pub open spec fn unemitted_ids(items: Seq<BeadNode>, order: Seq<usize>, upto: int) -> Seq<
    Seq<char>,
>
    decreases upto,
{
    if upto <= 0 {
        Seq::empty()
    } else {
        unemitted_ids(items, order, upto - 1) + if usq_contains(order, upto - 1) {
            Seq::<Seq<char>>::empty()
        } else {
            seq![items[upto - 1].id@]
        }
    }
}

/// The id of item `v` occurs somewhere in `sorted`.
pub open spec fn id_found(items: Seq<BeadNode>, sorted: Seq<Seq<char>>, v: int) -> bool {
    exists|k: int| 0 <= k < sorted.len() && #[trigger] sorted[k] == items[v].id@
}

/// The `sorted` id list is a topological order of all the items: it covers
/// every id, and the source of every canonical edge comes before its target.
pub open spec fn sorted_ids_ok(items: Seq<BeadNode>, sorted: Seq<Seq<char>>) -> bool {
    &&& sorted.len() == items.len()
    &&& (forall|v: int| 0 <= v < items.len() ==> #[trigger] id_found(items, sorted, v))
    &&& (forall|k1: int, k2: int, u: int, v: int|
        #![trigger sorted[k1], sorted[k2], edge(items, u, v)]
        0 <= k1 < sorted.len() && 0 <= k2 < sorted.len() && 0 <= u < items.len() && 0 <= v
            < items.len() && sorted[k1] == items[u].id@ && sorted[k2] == items[v].id@ && edge(
            items,
            u,
            v,
        ) ==> k1 < k2)
}

/// An edge-respecting order of all indices yields a topological id list.
proof fn lemma_order_ids_ok(items: Seq<BeadNode>, order: Seq<usize>)
    requires
        well_formed(items),
        complete_respecting_order(items, order),
    ensures
        sorted_ids_ok(items, ids_of_order(items, order)),
{
    let sorted = ids_of_order(items, order);
    assert forall|v: int| 0 <= v < items.len() implies #[trigger] id_found(items, sorted, v) by {
        crate::model::lemma_complete_order_onto(items, order, v);
        let k = crate::model::pos_in(order, v);
        assert(sorted[k] == items[v].id@);
    }
    assert forall|k1: int, k2: int, u: int, v: int|
        #![trigger sorted[k1], sorted[k2], edge(items, u, v)]
        0 <= k1 < sorted.len() && 0 <= k2 < sorted.len() && 0 <= u < items.len() && 0 <= v
            < items.len() && sorted[k1] == items[u].id@ && sorted[k2] == items[v].id@ && edge(
        items,
        u,
        v,
    ) implies k1 < k2 by {
        let a = order[k1] as int;
        let b = order[k2] as int;
        assert(items[a].id@ == items[u].id@);
        assert(items[b].id@ == items[v].id@);
        assert(a == u) by {
            if a != u {
                if a < u {
                    assert(items[a].id@ != items[u].id@);
                } else {
                    assert(items[u].id@ != items[a].id@);
                }
            }
        }
        assert(b == v) by {
            if b != v {
                if b < v {
                    assert(items[b].id@ != items[v].id@);
                } else {
                    assert(items[v].id@ != items[b].id@);
                }
            }
        }
        assert(edge(items, order[k1] as int, order[k2] as int));
        assert(k1 < k2);
    }
}

/// DAG sort soundness: in the sorted output of a well-formed, cycle-free
/// input, every resolvable declared blocker appears strictly before the
/// item that declares it.
pub proof fn lemma_dag_sort_soundness(
    items: Seq<BeadNode>,
    sorted: Seq<Seq<char>>,
    u: int,
    v: int,
    ku: int,
    kv: int,
)
    requires
        well_formed(items),
        sorted_ids_ok(items, sorted),
        0 <= u < items.len(),
        0 <= v < items.len(),
        declares_blocker(items, u, v),
        0 <= ku < sorted.len(),
        sorted[ku] == items[u].id@,
        0 <= kv < sorted.len(),
        sorted[kv] == items[v].id@,
    ensures
        kv < ku,
{
    assert(edge(items, v, u));
}

/// Topological sort by Kahn's algorithm over the canonical snapshot.
///
/// On a cycle the partial order is discarded: `sorted` is empty and
/// `cycle_nodes` lists the ids never emitted, in item order.
pub fn topo_sort_kahn(beads: &Vec<BeadNode>) -> (r: TopoSortResult)
    ensures
        r.has_cycle ==> r.sorted@.len() == 0,
        !r.has_cycle ==> r.cycle_nodes@.len() == 0,
        beads@.len() == 0 ==> !r.has_cycle && r.sorted@.len() == 0 && r.cycle_nodes@.len() == 0,
        well_formed(beads@) ==> (r.has_cycle <==> has_cycle_spec(beads@)),
        well_formed(beads@) && !r.has_cycle ==> sorted_ids_ok(
            beads@,
            r.sorted@.map_values(|x: String| x@),
        ),
        exists|order: Seq<usize>|
            {
                &&& #[trigger] kahn_post(beads@, order)
                &&& (order.len() == beads@.len() <==> !r.has_cycle)
                &&& (!r.has_cycle ==> r.sorted@.map_values(|x: String| x@) == ids_of_order(
                    beads@,
                    order,
                ))
                &&& (r.has_cycle ==> r.cycle_nodes@.map_values(|x: String| x@) == unemitted_ids(
                    beads@,
                    order,
                    beads@.len() as int,
                ))
            },
{
    let n = beads.len();
    let s = crate::snapshot::build_snapshot(beads);
    let kr = kahn_order(&s, Ghost(beads@));
    let ghost order = kr.order@;
    if kr.order.len() == n {
        let mut sorted: Vec<String> = Vec::new();
        let m = kr.order.len();
        for t in 0..m
            invariant
                n == beads@.len(),
                m == order.len() == n,
                kr.order@ == order,
                kahn_post(beads@, order),
                sorted@.len() == t,
                forall|j: int|
                    0 <= j < t ==> (#[trigger] sorted@[j])@ == beads@[order[j] as int].id@,
        {
            let idx = kr.order[t];
            sorted.push(beads[idx].id.clone());
        }
        proof {
            assert(sorted@.map_values(|x: String| x@) =~= ids_of_order(beads@, order));
            if well_formed(beads@) {
                lemma_order_ids_ok(beads@, order);
            }
        }
        TopoSortResult { sorted, has_cycle: false, cycle_nodes: Vec::new() }
    } else {
        let mut cycle_nodes: Vec<String> = Vec::new();
        for v in 0..n
            invariant
                n == beads@.len(),
                kr.order@ == order,
                kahn_post(beads@, order),
                order.len() < n,
                kr.emitted@.len() == n,
                forall|x: int| 0 <= x < n ==> (kr.emitted@[x] <==> usq_contains(order, x)),
                cycle_nodes@.map_values(|x: String| x@) == unemitted_ids(beads@, order, v as int),
        {
            let ghost prev = cycle_nodes@;
            if !kr.emitted[v] {
                cycle_nodes.push(beads[v].id.clone());
            }
            proof {
                if usq_contains(order, v as int) {
                    assert(cycle_nodes@.map_values(|x: String| x@) =~= unemitted_ids(
                        beads@,
                        order,
                        v as int + 1,
                    ));
                } else {
                    assert(cycle_nodes@ == prev.push(cycle_nodes@[cycle_nodes@.len() - 1]));
                    assert(cycle_nodes@.map_values(|x: String| x@) =~= unemitted_ids(
                        beads@,
                        order,
                        v as int + 1,
                    ));
                }
            }
        }
        TopoSortResult { sorted: Vec::new(), has_cycle: true, cycle_nodes }
    }
}

/// Topological sort entry point over typed items.
pub fn topo_sort_internal(beads: &Vec<BeadNode>) -> (r: TopoSortResult)
    ensures
        r.has_cycle ==> r.sorted@.len() == 0,
        !r.has_cycle ==> r.cycle_nodes@.len() == 0,
        beads@.len() == 0 ==> !r.has_cycle && r.sorted@.len() == 0 && r.cycle_nodes@.len() == 0,
        well_formed(beads@) ==> (r.has_cycle <==> has_cycle_spec(beads@)),
        well_formed(beads@) && !r.has_cycle ==> sorted_ids_ok(
            beads@,
            r.sorted@.map_values(|x: String| x@),
        ),
        exists|order: Seq<usize>|
            {
                &&& #[trigger] kahn_post(beads@, order)
                &&& (order.len() == beads@.len() <==> !r.has_cycle)
                &&& (!r.has_cycle ==> r.sorted@.map_values(|x: String| x@) == ids_of_order(
                    beads@,
                    order,
                ))
                &&& (r.has_cycle ==> r.cycle_nodes@.map_values(|x: String| x@) == unemitted_ids(
                    beads@,
                    order,
                    beads@.len() as int,
                ))
            },
{
    topo_sort_kahn(beads)
}

/// The nested view of a wave list: each wave as a sequence of id strings.
pub open spec fn wave_view(waves: Seq<Vec<String>>) -> Seq<Seq<Seq<char>>> {
    waves.map_values(|w: Vec<String>| w@.map_values(|x: String| x@))
}

/// The per-item recurrence of the wave levels: an item with no declared
/// blockers sits at level zero; otherwise it sits one past its highest
/// declared blocker.
pub open spec fn level_rec_at(items: Seq<BeadNode>, level: Seq<usize>, v: int) -> bool {
    &&& (items[v].blocked_by@.len() == 0 ==> level[v] == 0)
    &&& (forall|u: int|
        0 <= u < items.len() && #[trigger] declares_blocker(items, v, u) ==> (level[u] as int)
            < level[v] as int)
    &&& (items[v].blocked_by@.len() > 0 ==> exists|u: int|
        0 <= u < items.len() && #[trigger] declares_blocker(items, v, u) && level[u] as int + 1
            == level[v] as int)
}

/// The id names an item assigned to wave `L`.
pub open spec fn wave_entry_ok(items: Seq<BeadNode>, level: Seq<usize>, L: int, id: Seq<char>) -> bool {
    exists|x: int|
        0 <= x < items.len() && ((#[trigger] level[x]) as int) == L && items[x].id@ == id
}

/// Some level assignment certifies the wave decomposition.
pub open spec fn waves_certified(items: Seq<BeadNode>, waves: Seq<Seq<Seq<char>>>) -> bool {
    exists|level: Seq<usize>| levels_ok(items, waves, level)
}

/// The wave decomposition agrees with a level assignment satisfying the
/// blocked-by recurrence: every item's id sits in the wave of its level,
/// every wave entry is the id of an item of that level, blockers sit in
/// strictly earlier waves, and each positive level is one past some blocker.
pub open spec fn levels_ok(items: Seq<BeadNode>, waves: Seq<Seq<Seq<char>>>, level: Seq<usize>) -> bool {
    &&& level.len() == items.len()
    &&& (forall|v: int| 0 <= v < items.len() ==> (#[trigger] level[v]) < waves.len())
    &&& (forall|v: int|
        0 <= v < items.len() ==> waves[(#[trigger] level[v]) as int].contains(items[v].id@))
    &&& (forall|L: int, p: int|
        0 <= L < waves.len() && 0 <= p < waves[L].len() ==> wave_entry_ok(
            items,
            level,
            L,
            #[trigger] waves[L][p],
        ))
    &&& (forall|v: int| 0 <= v < items.len() ==> level_rec_at(items, level, v))
}

/// Group the items into parallel execution waves: every item sits strictly
/// after each of its declared blockers, and wave zero holds the items with
/// no blockers. A cyclic graph is rejected.
pub fn get_execution_order_internal(beads: &Vec<BeadNode>) -> (r: Result<
    Vec<Vec<String>>,
    GraphError,
>)
    ensures
        beads@.len() == 0 ==> (r matches Ok(w) ==> w@.len() == 0) && !(r matches Err(_)),
        well_formed(beads@) ==> ((r matches Ok(_)) <==> !has_cycle_spec(beads@)),
        r matches Err(e) ==> e matches GraphError::CycleDetected,
        well_formed(beads@) ==> match r {
            Ok(waves) => waves_certified(beads@, wave_view(waves@)),
            Err(_) => has_cycle_spec(beads@),
        },
{
    let n = beads.len();
    let s = crate::snapshot::build_snapshot(beads);
    let kr = kahn_order(&s, Ghost(beads@));
    let ghost order = kr.order@;
    if kr.order.len() != n {
        return Err(GraphError::CycleDetected);
    }
    if n == 0 {
        let waves: Vec<Vec<String>> = Vec::new();
        proof {
            let level = Seq::<usize>::empty();
            assert(levels_ok(beads@, wave_view(waves@), level)) by {
                assert(wave_view(waves@) =~= Seq::<Seq<Seq<char>>>::empty());
            }
            assert(waves_certified(beads@, wave_view(waves@)));
        }
        return Ok(waves);
    }
    let mut level: Vec<usize> = Vec::new();
    let mut assigned: Vec<bool> = Vec::new();
    for i in 0..n
        invariant
            level@.len() == i,
            assigned@.len() == i,
            forall|x: int| 0 <= x < i ==> (#[trigger] level@[x]) == 0,
            forall|x: int| 0 <= x < i ==> !(#[trigger] assigned@[x]),
    {
        level.push(0);
        assigned.push(false);
    }
    let mut max_level: usize = 0;
    let mut t: usize = 0;
    while t < n
        invariant
            n == beads@.len(),
            n >= 1,
            kr.order@ == order,
            kahn_post(beads@, order),
            order.len() == n,
            t <= n,
            level@.len() == n,
            assigned@.len() == n,
            (max_level as int) < n as int,
            forall|x: int| 0 <= x < n ==> ((#[trigger] level@[x]) as int) <= max_level as int,
            forall|x: int|
                0 <= x < n ==> ((#[trigger] assigned@[x]) <==> usq_contains(
                    order.subrange(0, t as int),
                    x,
                )),
            forall|x: int|
                0 <= x < n && assigned@[x] ==> ((#[trigger] level@[x]) as int) < t as int,
            well_formed(beads@) ==> forall|i: int|
                0 <= i < t ==> level_rec_at(beads@, level@, (#[trigger] order[i]) as int),
        decreases n - t,
    {
        let v = kr.order[t];
        let ghost popped_old = order.subrange(0, t as int);
        let ghost level_pre = level@;
        proof {
            assert(!usq_contains(popped_old, v as int)) by {
                if usq_contains(popped_old, v as int) {
                    let i = choose|i: int|
                        0 <= i < popped_old.len() && (#[trigger] popped_old[i]) as int == v as int;
                    assert(order[i] == order[t as int]);
                }
            }
            assert(!assigned@[v as int]);
        }
        let m = beads[v].blocked_by.len();
        let mut best: usize = 0;
        let mut any = false;
        let mut k: usize = 0;
        while k < m
            invariant
                n == beads@.len(),
                kr.order@ == order,
                kahn_post(beads@, order),
                order.len() == n,
                t < n,
                0 <= (v as int) < n,
                order[t as int] == v,
                m == beads@[v as int].blocked_by@.len(),
                k <= m,
                level@.len() == n,
                assigned@.len() == n,
                popped_old == order.subrange(0, t as int),
                forall|x: int|
                    0 <= x < n ==> ((#[trigger] assigned@[x]) <==> usq_contains(popped_old, x)),
                forall|x: int|
                    0 <= x < n && assigned@[x] ==> ((#[trigger] level@[x]) as int) < t as int,
                !any ==> best == 0,
                any ==> 1 <= best as int <= t as int,
                well_formed(beads@) ==> {
                    &&& (any <==> k > 0)
                    &&& (forall|u: int|
                        0 <= u < n && (exists|k2: int|
                            0 <= k2 < k && (#[trigger] beads@[v as int].blocked_by@[k2])@
                                == beads@[u].id@) ==> (level@[u] as int) < best as int)
                    &&& (any ==> exists|u: int|
                        0 <= u < n && #[trigger] declares_blocker(beads@, v as int, u)
                            && level@[u] as int + 1 == best as int)
                },
            decreases m - k,
        {
            let entry = &beads[v].blocked_by[k];
            let found = crate::snapshot::index_of_id(beads, entry);
            proof {
                if well_formed(beads@) {
                    // the entry resolves, and its item was emitted earlier
                    assert(exists|u: int|
                        0 <= u < n && beads@[u].id@ == (beads@[v as int].blocked_by@[k as int])@);
                }
            }
            match found {
                Some(u) => {
                    proof {
                        if well_formed(beads@) {
                            assert(declares_blocker(beads@, v as int, u as int)) by {
                                assert((beads@[v as int].blocked_by@[k as int])@
                                    == beads@[u as int].id@);
                            }
                            assert(edge(beads@, u as int, v as int));
                            assert(edge(beads@, u as int, order[t as int] as int));
                            assert(exists|i: int|
                                0 <= i < t as int && (#[trigger] order[i]) as int == u as int);
                            let i = choose|i: int|
                                0 <= i < t as int && (#[trigger] order[i]) as int == u as int;
                            assert(0 <= i < t as int && order[i] as int == u as int);
                            assert(usq_contains(popped_old, u as int)) by {
                                assert(popped_old[i] as int == u as int);
                            }
                            assert(assigned@[u as int]);
                        }
                    }
                    if assigned[u] {
                        let lu = level[u];
                        if !any || lu + 1 > best {
                            best = lu + 1;
                            any = true;
                        }
                    }
                }
                None => {
                    proof {
                        if well_formed(beads@) {
                            let u = choose|u: int|
                                0 <= u < n && beads@[u].id@ == (
                                beads@[v as int].blocked_by@[k as int])@;
                            assert(false);
                        }
                    }
                },
            }
            k = k + 1;
            proof {
                if well_formed(beads@) {
                    assert forall|u: int|
                        0 <= u < n && (exists|k2: int|
                            0 <= k2 < k as int && (#[trigger] beads@[v as int].blocked_by@[k2])@
                                == beads@[u].id@) implies (level@[u] as int) < best as int by {
                        let k2 = choose|k2: int|
                            0 <= k2 < k as int && (#[trigger] beads@[v as int].blocked_by@[k2])@
                                == beads@[u].id@;
                        if k2 < k as int - 1 {
                        }
                    }
                }
            }
        }
        proof {
            if well_formed(beads@) && m > 0 {
                assert(any);
            }
        }
        level[v] = best;
        assigned[v] = true;
        if best > max_level {
            max_level = best;
        }
        t = t + 1;
        proof {
            let popped_new = order.subrange(0, t as int);
            assert(popped_new =~= popped_old.push(v));
            lemma_usq_push(popped_old, v);
            assert forall|x: int|
                0 <= x < n implies ((#[trigger] assigned@[x]) <==> usq_contains(popped_new, x)) by {
                if x == v as int {
                    assert(assigned@[x]);
                }
            }
            if well_formed(beads@) {
                // the new assignment satisfies the recurrence, and the old
                // ones are untouched: every blocker of an emitted item was
                // itself emitted earlier, so it is never the item assigned now.
                assert forall|i: int|
                    0 <= i < t implies level_rec_at(beads@, level@, (#[trigger] order[i]) as int) by {
                    let w = order[i] as int;
                    if i < t - 1 {
                        assert(level_rec_at(beads@, level_pre, w));
                        assert forall|u: int|
                            0 <= u < n && #[trigger] declares_blocker(beads@, w, u) implies (
                        level@[u] as int) < level@[w] as int by {
                            assert(edge(beads@, u, order[i] as int));
                            let i2 = choose|i2: int|
                                0 <= i2 < i && (#[trigger] order[i2]) as int == u;
                            assert(u != v as int) by {
                                if u == v as int {
                                    assert(order[i2] == order[t - 1]);
                                }
                            }
                            assert(w != v as int) by {
                                if w == v as int {
                                    assert(order[i] == order[t - 1]);
                                }
                            }
                        }
                        if beads@[w].blocked_by@.len() > 0 {
                            let u = choose|u: int|
                                0 <= u < n && #[trigger] declares_blocker(beads@, w, u)
                                    && level_pre[u] as int + 1 == level_pre[w] as int;
                            assert(edge(beads@, u, order[i] as int));
                            let i2 = choose|i2: int|
                                0 <= i2 < i && (#[trigger] order[i2]) as int == u;
                            assert(u != v as int) by {
                                if u == v as int {
                                    assert(order[i2] == order[t - 1]);
                                }
                            }
                            assert(w != v as int) by {
                                if w == v as int {
                                    assert(order[i] == order[t - 1]);
                                }
                            }
                            assert(level@[u] as int + 1 == level@[w] as int);
                        }
                        if beads@[w].blocked_by@.len() == 0 {
                            assert(w != v as int) by {
                                if w == v as int {
                                    assert(order[i] == order[t - 1]);
                                }
                            }
                        }
                    } else {
                        // the item assigned in this iteration
                        assert(w == v as int);
                        assert(level@[w] == best);
                        if beads@[w].blocked_by@.len() == 0 {
                            assert(!any);
                        }
                        assert forall|u: int|
                            0 <= u < n && #[trigger] declares_blocker(beads@, w, u) implies (
                        level@[u] as int) < level@[w] as int by {
                            let k2 = choose|k2: int|
                                0 <= k2 < beads@[w].blocked_by@.len() && (
                                #[trigger] beads@[w].blocked_by@[k2])@ == beads@[u].id@;
                            assert((level_pre[u] as int) < best as int);
                            assert(u != v as int) by {
                                assert(edge(beads@, u, order[t - 1] as int));
                                let i2 = choose|i2: int|
                                    0 <= i2 < t - 1 && (#[trigger] order[i2]) as int == u;
                                if u == v as int {
                                    assert(order[i2] == order[t - 1]);
                                }
                            }
                        }
                        if beads@[w].blocked_by@.len() > 0 {
                            assert(any);
                            let u = choose|u: int|
                                0 <= u < n && #[trigger] declares_blocker(beads@, w, u)
                                    && level_pre[u] as int + 1 == best as int;
                            assert(u != v as int) by {
                                assert(edge(beads@, u, order[t - 1] as int));
                                let i2 = choose|i2: int|
                                    0 <= i2 < t - 1 && (#[trigger] order[i2]) as int == u;
                                if u == v as int {
                                    assert(order[i2] == order[t - 1]);
                                }
                            }
                            assert(level@[u] as int + 1 == level@[w] as int);
                        }
                    }
                }
            }
        }
    }
    // group ids by level, one wave per level, in emission order
    let mut waves: Vec<Vec<String>> = Vec::new();
    let mut lv: usize = 0;
    while lv <= max_level
        invariant
            n == beads@.len(),
            n >= 1,
            kr.order@ == order,
            order.len() == n,
            kahn_post(beads@, order),
            level@.len() == n,
            (max_level as int) < n as int,
            lv <= max_level + 1,
            waves@.len() == lv,
            forall|x: int| 0 <= x < n ==> ((#[trigger] level@[x]) as int) <= max_level as int,
            well_formed(beads@) ==> forall|i: int|
                0 <= i < n ==> level_rec_at(beads@, level@, (#[trigger] order[i]) as int),
            forall|L: int, p: int|
                0 <= L < lv as int && 0 <= p < waves@[L]@.len() ==> wave_entry_ok(
                    beads@,
                    level@,
                    L,
                    (#[trigger] waves@[L]@[p])@,
                ),
            well_formed(beads@) ==> forall|x: int|
                0 <= x < n && (level@[x] as int) < lv as int ==> wave_view(waves@)[(
                #[trigger] level@[x]) as int].contains(beads@[x].id@),
        decreases max_level + 1 - lv,
    {
        let mut row: Vec<String> = Vec::new();
        let mut t2: usize = 0;
        while t2 < n
            invariant
                n == beads@.len(),
                kr.order@ == order,
                order.len() == n,
                kahn_post(beads@, order),
                level@.len() == n,
                t2 <= n,
                forall|p: int|
                    0 <= p < row@.len() ==> wave_entry_ok(
                        beads@,
                        level@,
                        lv as int,
                        (#[trigger] row@[p])@,
                    ),
                forall|i: int|
                    0 <= i < t2 && level@[order[i] as int] as int == lv as int ==> row@.map_values(
                        |y: String| y@,
                    ).contains(beads@[(#[trigger] order[i]) as int].id@),
            decreases n - t2,
        {
            let x = kr.order[t2];
            let ghost prev_row = row@;
            if level[x] == lv {
                row.push(beads[x].id.clone());
                proof {
                    assert(row@[row@.len() - 1]@ == beads@[x as int].id@);
                    assert forall|p: int| 0 <= p < row@.len() implies wave_entry_ok(
                        beads@,
                        level@,
                        lv as int,
                        (#[trigger] row@[p])@,
                    ) by {
                        if p < prev_row.len() {
                            assert(row@[p] == prev_row[p]);
                        } else {
                            assert(0 <= (x as int) < n && ((level@[x as int]) as int)
                                == lv as int && beads@[x as int].id@ == row@[p]@);
                        }
                    }
                    assert(row@.map_values(|y: String| y@) =~= prev_row.map_values(
                        |y: String| y@,
                    ).push(row@[row@.len() - 1]@));
                }
            }
            t2 = t2 + 1;
            proof {
                assert forall|i: int|
                    0 <= i < t2 && level@[order[i] as int] as int == lv as int implies row@.map_values(
                    |y: String| y@,
                ).contains(beads@[(#[trigger] order[i]) as int].id@) by {
                    if i < t2 - 1 {
                        assert(prev_row.map_values(|y: String| y@).contains(
                            beads@[order[i] as int].id@,
                        ));
                        if prev_row != row@ {
                            let pm = prev_row.map_values(|y: String| y@);
                            let q = choose|q: int|
                                0 <= q < pm.len() && (#[trigger] pm[q]) == beads@[order[
                                i] as int].id@;
                            assert(row@.map_values(|y: String| y@)[q] == beads@[order[
                            i] as int].id@);
                        }
                    } else {
                        assert(order[i] == x);
                        assert(row@.map_values(|y: String| y@)[row@.len() - 1] == beads@[
                        x as int].id@);
                    }
                }
            }
        }
        let ghost prev_waves = waves@;
        waves.push(row);
        lv = lv + 1;
        proof {
            assert forall|L: int, p: int|
                0 <= L < lv as int && 0 <= p < waves@[L]@.len() implies wave_entry_ok(
                beads@,
                level@,
                L,
                (#[trigger] waves@[L]@[p])@,
            ) by {
                if L < lv as int - 1 {
                    assert(waves@[L] == prev_waves[L]);
                    assert(wave_entry_ok(beads@, level@, L, prev_waves[L]@[p]@));
                } else {
                    assert(waves@[L] == row);
                    assert(wave_entry_ok(beads@, level@, L, row@[p]@));
                }
            }
            if well_formed(beads@) {
                assert forall|x: int|
                    0 <= x < n && (level@[x] as int) < lv as int implies wave_view(waves@)[(
                #[trigger] level@[x]) as int].contains(beads@[x].id@) by {
                    crate::model::lemma_complete_order_onto(beads@, order, x);
                    let i = crate::model::pos_in(order, x);
                    assert(order[i] as int == x);
                    if (level@[x] as int) < lv as int - 1 {
                        assert(wave_view(prev_waves)[level@[x] as int].contains(beads@[x].id@));
                        assert(wave_view(waves@)[level@[x] as int] == wave_view(prev_waves)[
                        level@[x] as int]);
                    } else {
                        assert(level@[order[i] as int] as int == lv as int - 1);
                        assert(row@.map_values(|y: String| y@).contains(beads@[x].id@));
                        assert(wave_view(waves@)[lv as int - 1] == row@.map_values(
                            |y: String| y@,
                        ));
                    }
                }
            }
        }
    }
    proof {
        if well_formed(beads@) {
            assert forall|x: int| 0 <= x < n implies level_rec_at(beads@, level@, x) by {
                crate::model::lemma_complete_order_onto(beads@, order, x);
                let i = crate::model::pos_in(order, x);
                assert(level_rec_at(beads@, level@, order[i] as int));
            }
            assert(levels_ok(beads@, wave_view(waves@), level@)) by {
                assert(wave_view(waves@).len() == waves@.len());
                assert forall|L: int, p: int|
                    0 <= L < wave_view(waves@).len() && 0 <= p < wave_view(waves@)[L].len()
                        implies wave_entry_ok(
                    beads@,
                    level@,
                    L,
                    #[trigger] wave_view(waves@)[L][p],
                ) by {
                    assert(wave_view(waves@)[L] == waves@[L]@.map_values(|y: String| y@));
                    assert(wave_view(waves@)[L][p] == waves@[L]@[p]@);
                    assert(wave_entry_ok(beads@, level@, L, waves@[L]@[p]@));
                }
            }
            assert(waves_certified(beads@, wave_view(waves@)));
        }
    }
    Ok(waves)
}

} // verus!
