//! The mathematical model of the dependency graph.
//!
//! Everything is stated over a `Seq<BeadNode>`: the canonical edge relation
//! obtained by reconciling the `blocks` and `blocked_by` views, walks and
//! closed walks over that relation, reachability, cycle membership, and the
//! duration of a chain of dependent items.

use vstd::prelude::*;
use crate::BeadNode;
use crate::spec_duration;

verus! {

/// No two items share an id.
pub open spec fn ids_distinct(items: Seq<BeadNode>) -> bool {
    forall|i: int, j: int| 0 <= i < j < items.len() ==> items[i].id@ != items[j].id@
}

/// Item `u` names item `v`'s id in its `blocks` list.
pub open spec fn declares_block(items: Seq<BeadNode>, u: int, v: int) -> bool {
    exists|k: int|
        0 <= k < items[u].blocks@.len() && (#[trigger] items[u].blocks@[k])@ == items[v].id@
}

/// Item `v` names item `u`'s id in its `blocked_by` list.
pub open spec fn declares_blocker(items: Seq<BeadNode>, v: int, u: int) -> bool {
    exists|k: int|
        0 <= k < items[v].blocked_by@.len() && (#[trigger] items[v].blocked_by@[k])@
            == items[u].id@
}

/// The canonical edge relation: `u -> v` when either view declares it.
/// References to ids that resolve to no item contribute no edge.
pub open spec fn edge(items: Seq<BeadNode>, u: int, v: int) -> bool {
    &&& 0 <= u < items.len()
    &&& 0 <= v < items.len()
    &&& (declares_block(items, u, v) || declares_blocker(items, v, u))
}

/// The canonical predecessors of `v`.
pub open spec fn preds(items: Seq<BeadNode>, v: int) -> Set<int> {
    Set::new(|u: int| edge(items, u, v))
}

/// A walk: a non-empty sequence of item indices joined by canonical edges.
pub open spec fn is_walk(items: Seq<BeadNode>, w: Seq<int>) -> bool {
    &&& w.len() >= 1
    &&& forall|i: int| 0 <= i < w.len() ==> 0 <= #[trigger] w[i] < items.len()
    &&& forall|i: int| 0 <= i < w.len() - 1 ==> edge(items, #[trigger] w[i], w[i + 1])
}

/// A closed walk of length at least one edge.
pub open spec fn is_closed_walk(items: Seq<BeadNode>, w: Seq<int>) -> bool {
    &&& is_walk(items, w)
    &&& w.len() >= 2
    &&& w[0] == w[w.len() - 1]
}

/// The graph contains a directed cycle.
pub open spec fn has_cycle_spec(items: Seq<BeadNode>) -> bool {
    exists|w: Seq<int>| is_closed_walk(items, w)
}

/// `u` reaches `v` along at least one edge.
pub open spec fn reaches(items: Seq<BeadNode>, u: int, v: int) -> bool {
    exists|w: Seq<int>| is_walk(items, w) && w.len() >= 2 && w[0] == u && w[w.len() - 1] == v
}

/// `u` lies in a strongly connected component of size greater than one:
/// some distinct `v` is reachable from `u` and reaches `u` back.
pub open spec fn in_cycle(items: Seq<BeadNode>, u: int) -> bool {
    exists|v: int| 0 <= v < items.len() && v != u && reaches(items, u, v) && reaches(items, v, u)
}

/// Every `blocked_by` entry names an id that some item carries.
pub open spec fn blockers_resolvable(items: Seq<BeadNode>) -> bool {
    forall|v: int, k: int|
        0 <= v < items.len() && 0 <= k < items[v].blocked_by@.len() ==> exists|u: int|
            0 <= u < items.len() && items[u].id@ == (#[trigger] items[v].blocked_by@[k])@
}

/// No `blocked_by` list names the same id twice.
pub open spec fn blockers_distinct(items: Seq<BeadNode>) -> bool {
    forall|v: int, k1: int, k2: int|
        0 <= v < items.len() && 0 <= k1 < k2 < items[v].blocked_by@.len() ==> (
        #[trigger] items[v].blocked_by@[k1])@ != (#[trigger] items[v].blocked_by@[k2])@
}

/// Every edge declared through a `blocks` list is also declared by the
/// target's `blocked_by` list.
pub open spec fn blocks_mirrored(items: Seq<BeadNode>) -> bool {
    forall|u: int, v: int|
        0 <= u < items.len() && 0 <= v < items.len() && #[trigger] declares_block(items, u, v)
            ==> declares_blocker(items, v, u)
}

/// A well-formed item list: ids are unique, the `blocked_by` lists are
/// duplicate-free and resolve entirely, and the two edge views agree. Under
/// this condition an item's declared in-degree equals its number of
/// canonical predecessors, which the Kahn passes count down.
pub open spec fn well_formed(items: Seq<BeadNode>) -> bool {
    &&& ids_distinct(items)
    &&& blockers_resolvable(items)
    &&& blockers_distinct(items)
    &&& blocks_mirrored(items)
}

/// Sum of effective durations along a sequence of item indices.
pub open spec fn dur_sum(items: Seq<BeadNode>, w: Seq<int>) -> int
    decreases w.len(),
{
    if w.len() == 0 {
        0
    } else {
        spec_duration(items[w[0]]) + dur_sum(items, w.drop_first())
    }
}

/// Every walk's duration sum fits in a `u32`.
pub open spec fn sums_fit(items: Seq<BeadNode>) -> bool {
    forall|w: Seq<int>| is_walk(items, w) ==> dur_sum(items, w) <= u32::MAX
}

/// Under a well-formed item list the canonical edge relation collapses to
/// the `blocked_by` view alone.
pub proof fn lemma_wf_edge_iff_blocker(items: Seq<BeadNode>, u: int, v: int)
    requires
        well_formed(items),
        0 <= u < items.len(),
        0 <= v < items.len(),
    ensures
        edge(items, u, v) <==> declares_blocker(items, v, u),
{
}

/// The canonical predecessor set of any node is finite and no larger than
/// the number of items.
pub proof fn lemma_preds_finite(items: Seq<BeadNode>, v: int)
    ensures
        preds(items, v).finite(),
        preds(items, v).len() <= items.len(),
        preds(items, v).subset_of(vstd::set_lib::set_int_range(0, items.len() as int)),
{
    let range = vstd::set_lib::set_int_range(0, items.len() as int);
    vstd::set_lib::lemma_int_range(0, items.len() as int);
    assert(preds(items, v).subset_of(range));
    vstd::set_lib::lemma_len_subset(preds(items, v), range);
}

/// The canonical predecessors of `v`, restricted to entries `0 <= k < m` of
/// its `blocked_by` list.
pub open spec fn preds_upto(items: Seq<BeadNode>, v: int, m: int) -> Set<int> {
    Set::new(
        |u: int|
            0 <= u < items.len() && exists|k: int|
                0 <= k < m && (#[trigger] items[v].blocked_by@[k])@ == items[u].id@,
    )
}

/// Under well-formedness, the first `m` entries of `blocked_by` resolve to
/// exactly `m` distinct predecessors.
pub proof fn lemma_preds_upto_len(items: Seq<BeadNode>, v: int, m: int)
    requires
        well_formed(items),
        0 <= v < items.len(),
        0 <= m <= items[v].blocked_by@.len(),
    ensures
        preds_upto(items, v, m).finite(),
        preds_upto(items, v, m).len() == m,
    decreases m,
{
    if m == 0 {
        assert(preds_upto(items, v, 0) =~= Set::<int>::empty());
    } else {
        lemma_preds_upto_len(items, v, m - 1);
        let entry = items[v].blocked_by@[m - 1];
        let u = choose|u: int| 0 <= u < items.len() && items[u].id@ == entry@;
        assert(0 <= u < items.len() && items[u].id@ == entry@) by {
            assert(blockers_resolvable(items));
        }
        // u is new: an earlier entry naming u's id would duplicate entry m-1.
        assert(!preds_upto(items, v, m - 1).contains(u)) by {
            if preds_upto(items, v, m - 1).contains(u) {
                let k = choose|k: int|
                    0 <= k < m - 1 && (#[trigger] items[v].blocked_by@[k])@ == items[u].id@;
                assert((items[v].blocked_by@[k])@ == (items[v].blocked_by@[m - 1])@);
            }
        }
        // any u' in preds_upto(m) is either in preds_upto(m-1) or is u.
        assert forall|x: int| preds_upto(items, v, m).contains(x) implies preds_upto(
            items,
            v,
            m - 1,
        ).insert(u).contains(x) by {
            let k = choose|k: int|
                0 <= k < m && (#[trigger] items[v].blocked_by@[k])@ == items[x].id@;
            if k < m - 1 {
                assert(preds_upto(items, v, m - 1).contains(x));
            } else {
                // entry m-1 names both x's and u's id; ids are distinct.
                assert(items[x].id@ == entry@);
                assert(items[u].id@ == entry@);
                assert(ids_distinct(items));
                if x != u {
                    if x < u {
                        assert(items[x].id@ != items[u].id@);
                    } else {
                        assert(items[u].id@ != items[x].id@);
                    }
                }
            }
        }
        assert(preds_upto(items, v, m) =~= preds_upto(items, v, m - 1).insert(u));
    }
}

/// Under well-formedness the declared in-degree of `v` (the length of its
/// `blocked_by` list) equals its number of canonical predecessors.
pub proof fn lemma_wf_in_degree(items: Seq<BeadNode>, v: int)
    requires
        well_formed(items),
        0 <= v < items.len(),
    ensures
        preds(items, v).finite(),
        preds(items, v).len() == items[v].blocked_by@.len(),
{
    let m = items[v].blocked_by@.len() as int;
    lemma_preds_upto_len(items, v, m);
    assert forall|u: int| preds(items, v).contains(u) implies preds_upto(items, v, m).contains(
        u,
    ) by {
        lemma_wf_edge_iff_blocker(items, u, v);
    }
    assert forall|u: int| preds_upto(items, v, m).contains(u) implies preds(items, v).contains(
        u,
    ) by {
        assert(declares_blocker(items, v, u));
    }
    assert(preds(items, v) =~= preds_upto(items, v, m));
}

/// A sequence of more than `n` values drawn from `0..n` repeats one.
pub proof fn lemma_dup_in_bounded_seq(w: Seq<int>, n: int)
    requires
        w.len() > n,
        n >= 0,
        forall|i: int| 0 <= i < w.len() ==> 0 <= #[trigger] w[i] < n,
    ensures
        exists|i: int, j: int| 0 <= i < j < w.len() && w[i] == w[j],
{
    if w.no_duplicates() {
        w.unique_seq_to_set();
        let range = vstd::set_lib::set_int_range(0, n);
        vstd::set_lib::lemma_int_range(0, n);
        assert(w.to_set().subset_of(range)) by {
            assert forall|x: int| w.to_set().contains(x) implies range.contains(x) by {
                let k = choose|k: int| 0 <= k < w.len() && w[k] == x;
            }
        }
        vstd::set_lib::lemma_len_subset(w.to_set(), range);
        assert(false);
    } else {
        let (i, j) = choose|i: int, j: int|
            0 <= i < w.len() && 0 <= j < w.len() && i != j && w[i] == w[j];
        if i < j {
            assert(0 <= i < j < w.len() && w[i] == w[j]);
        } else {
            assert(0 <= j < i < w.len() && w[j] == w[i]);
        }
    }
}

/// A contiguous piece of a walk is a walk.
pub proof fn lemma_walk_subrange(items: Seq<BeadNode>, w: Seq<int>, i: int, j: int)
    requires
        is_walk(items, w),
        0 <= i < j <= w.len(),
    ensures
        is_walk(items, w.subrange(i, j)),
{
    let sub = w.subrange(i, j);
    assert forall|k: int| 0 <= k < sub.len() - 1 implies edge(items, #[trigger] sub[k], sub[k + 1]) by {
        assert(sub[k] == w[i + k]);
        assert(sub[k + 1] == w[i + k + 1]);
        assert(edge(items, w[i + k], w[i + k + 1]));
    }
}

/// Among the indices missing from `order`, where each has a missing
/// predecessor, a walk of any requested length can be built ending at any
/// missing member.
proof fn lemma_unemitted_walk(items: Seq<BeadNode>, order: Seq<usize>, v: int, k: nat) -> (w: Seq<
    int,
>)
    requires
        0 <= v < items.len(),
        !usq_contains(order, v),
        forall|x: int|
            0 <= x < items.len() && !(#[trigger] usq_contains(order, x)) ==> exists|u: int|
                0 <= u < items.len() && !usq_contains(order, u) && edge(items, u, x),
    ensures
        is_walk(items, w),
        w.len() == k + 1,
        w[w.len() - 1] == v,
    decreases k,
{
    if k == 0 {
        let w = seq![v];
        assert(is_walk(items, w));
        w
    } else {
        let u = choose|u: int|
            0 <= u < items.len() && !usq_contains(order, u) && edge(items, u, v);
        let w0 = lemma_unemitted_walk(items, order, u, (k - 1) as nat);
        let w = w0.push(v);
        assert forall|i: int| 0 <= i < w.len() - 1 implies edge(items, #[trigger] w[i], w[i + 1]) by {
            if i < w0.len() - 1 {
                assert(edge(items, w0[i], w0[i + 1]));
            } else {
                assert(w[i] == w0[w0.len() - 1]);
            }
        }
        w
    }
}

/// If some index is missing from `order` and every missing index keeps a
/// missing predecessor, the graph has a directed cycle.
#[verifier::rlimit(50)]
pub proof fn lemma_order_trapped_cycle(items: Seq<BeadNode>, order: Seq<usize>, v0: int)
    requires
        0 <= v0 < items.len(),
        !usq_contains(order, v0),
        forall|x: int|
            0 <= x < items.len() && !(#[trigger] usq_contains(order, x)) ==> exists|u: int|
                0 <= u < items.len() && !usq_contains(order, u) && edge(items, u, x),
    ensures
        has_cycle_spec(items),
{
    let n = items.len() as nat;
    let w = lemma_unemitted_walk(items, order, v0, n);
    assert(forall|i: int| 0 <= i < w.len() ==> 0 <= #[trigger] w[i] < n as int);
    lemma_dup_in_bounded_seq(w, n as int);
    let (i, j) = choose|i: int, j: int| 0 <= i < j < w.len() && w[i] == w[j];
    lemma_walk_subrange(items, w, i, j + 1);
    let c = w.subrange(i, j + 1);
    assert(c.len() == j + 1 - i >= 2);
    assert(c[0] == w[i]);
    assert(c[c.len() - 1] == w[j]);
    assert(is_closed_walk(items, c));
}

/// A duplicate-free sequence of indices below `n` has at most `n` entries.
pub proof fn lemma_nodup_bounded_len(q: Seq<usize>, n: int)
    requires
        q.no_duplicates(),
        n >= 0,
        forall|k: int| 0 <= k < q.len() ==> ((#[trigger] q[k]) as int) < n,
    ensures
        q.len() <= n,
{
    let qi = Seq::new(q.len(), |k: int| q[k] as int);
    assert(qi.no_duplicates()) by {
        assert forall|a: int, b: int|
            0 <= a < qi.len() && 0 <= b < qi.len() && a != b implies qi[a] != qi[b] by {
            assert(q[a] != q[b]);
        }
    }
    qi.unique_seq_to_set();
    let range = vstd::set_lib::set_int_range(0, n);
    vstd::set_lib::lemma_int_range(0, n);
    assert(qi.to_set().subset_of(range)) by {
        assert forall|x: int| qi.to_set().contains(x) implies range.contains(x) by {
            let k = choose|k: int| 0 <= k < qi.len() && qi[k] == x;
        }
    }
    vstd::set_lib::lemma_len_subset(qi.to_set(), range);
}

/// The position of `v` in a duplicate-free index sequence.
pub open spec fn pos_in(q: Seq<usize>, v: int) -> int {
    choose|k: int| 0 <= k < q.len() && q[k] as int == v
}

/// `q` holds `u` somewhere.
pub open spec fn usq_contains(q: Seq<usize>, u: int) -> bool {
    exists|k: int| 0 <= k < q.len() && (#[trigger] q[k]) as int == u
}

/// An order of all `items.len()` indices that places the source of every
/// edge before its target.
pub open spec fn complete_respecting_order(items: Seq<BeadNode>, order: Seq<usize>) -> bool {
    &&& order.len() == items.len()
    &&& order.no_duplicates()
    &&& forall|k: int| 0 <= k < order.len() ==> ((#[trigger] order[k]) as int) < items.len()
    &&& forall|i: int, j: int|
        0 <= i < order.len() && 0 <= j < order.len() && edge(
            items,
            order[i] as int,
            order[j] as int,
        ) ==> i < j
}

/// A complete order contains every index.
pub proof fn lemma_complete_order_onto(items: Seq<BeadNode>, order: Seq<usize>, v: int)
    requires
        complete_respecting_order(items, order),
        0 <= v < items.len(),
    ensures
        usq_contains(order, v),
        0 <= pos_in(order, v) < order.len(),
        order[pos_in(order, v)] as int == v,
{
    let n = items.len() as int;
    let oi = Seq::new(order.len(), |k: int| order[k] as int);
    if !usq_contains(order, v) {
        assert(oi.no_duplicates()) by {
            assert forall|i: int, j: int|
                0 <= i < oi.len() && 0 <= j < oi.len() && i != j implies oi[i] != oi[j] by {
                assert(order[i] != order[j]);
            }
        }
        oi.unique_seq_to_set();
        let small = vstd::set_lib::set_int_range(0, n).remove(v);
        vstd::set_lib::lemma_int_range(0, n);
        assert(oi.to_set().subset_of(small)) by {
            assert forall|x: int| oi.to_set().contains(x) implies small.contains(x) by {
                let k = choose|k: int| 0 <= k < oi.len() && oi[k] == x;
                assert(order[k] as int == x);
                assert(x != v);
            }
        }
        vstd::set_lib::lemma_len_subset(oi.to_set(), small);
        assert(small.len() == n - 1);
        assert(false);
    }
    let k = choose|k: int| 0 <= k < order.len() && (#[trigger] order[k]) as int == v;
    assert(0 <= pos_in(order, v) < order.len() && order[pos_in(order, v)] as int == v);
}

/// Along any walk, positions in a complete respecting order strictly
/// increase.
pub proof fn lemma_walk_positions(items: Seq<BeadNode>, order: Seq<usize>, w: Seq<int>)
    requires
        complete_respecting_order(items, order),
        is_walk(items, w),
    ensures
        pos_in(order, w[0]) <= pos_in(order, w[w.len() - 1]),
        w.len() >= 2 ==> pos_in(order, w[0]) < pos_in(order, w[w.len() - 1]),
    decreases w.len(),
{
    lemma_complete_order_onto(items, order, w[0]);
    if w.len() >= 2 {
        let rest = w.drop_first();
        assert(is_walk(items, rest)) by {
            assert forall|i: int| 0 <= i < rest.len() - 1 implies edge(
                items,
                #[trigger] rest[i],
                rest[i + 1],
            ) by {
                assert(rest[i] == w[i + 1]);
                assert(rest[i + 1] == w[i + 2]);
                assert(edge(items, w[i + 1], w[i + 2]));
            }
        }
        lemma_walk_positions(items, order, rest);
        lemma_complete_order_onto(items, order, w[1]);
        let p0 = pos_in(order, w[0]);
        let p1 = pos_in(order, w[1]);
        assert(edge(items, w[0], w[1]));
        assert(edge(items, order[p0] as int, order[p1] as int));
        assert(p0 < p1);
        assert(rest[0] == w[1]);
        assert(rest[rest.len() - 1] == w[w.len() - 1]);
    }
}

/// A graph admitting a complete respecting order has no directed cycle.
pub proof fn lemma_complete_order_acyclic(items: Seq<BeadNode>, order: Seq<usize>)
    requires
        complete_respecting_order(items, order),
    ensures
        !has_cycle_spec(items),
{
    if has_cycle_spec(items) {
        let w = choose|w: Seq<int>| is_closed_walk(items, w);
        lemma_walk_positions(items, order, w);
    }
}

/// A walk that ends at `v`.
pub open spec fn ends_at(items: Seq<BeadNode>, w: Seq<int>, v: int) -> bool {
    is_walk(items, w) && w[w.len() - 1] == v
}

/// A walk that starts at `v`.
pub open spec fn starts_at(items: Seq<BeadNode>, w: Seq<int>, v: int) -> bool {
    is_walk(items, w) && w[0] == v
}

/// A walk that passes through `v`.
pub open spec fn thru(items: Seq<BeadNode>, w: Seq<int>, v: int) -> bool {
    is_walk(items, w) && w.contains(v)
}

/// `v` lies on some chain of total duration `t`.
pub open spec fn on_chain_of(items: Seq<BeadNode>, v: int, t: int) -> bool {
    exists|w: Seq<int>| thru(items, w, v) && dur_sum(items, w) == t
}

/// `t` is the duration of a longest chain: some walk reaches it and none
/// exceeds it.
pub open spec fn total_bound(items: Seq<BeadNode>, t: int) -> bool {
    &&& exists|w: Seq<int>| is_walk(items, w) && dur_sum(items, w) == t
    &&& forall|w: Seq<int>| is_walk(items, w) ==> dur_sum(items, w) <= t
}

/// A duration sum is never negative.
pub proof fn lemma_dur_sum_nonneg(items: Seq<BeadNode>, w: Seq<int>)
    ensures
        dur_sum(items, w) >= 0,
    decreases w.len(),
{
    if w.len() > 0 {
        lemma_dur_sum_nonneg(items, w.drop_first());
    }
}

/// Appending one more item adds its duration to the sum.
pub proof fn lemma_dur_sum_snoc(items: Seq<BeadNode>, w: Seq<int>, v: int)
    ensures
        dur_sum(items, w.push(v)) == dur_sum(items, w) + spec_duration(items[v]),
    decreases w.len(),
{
    if w.len() == 0 {
        assert(w.push(v) =~= seq![v]);
        assert(dur_sum(items, seq![v]) == spec_duration(items[v]) + dur_sum(
            items,
            seq![v].drop_first(),
        ));
        assert(seq![v].drop_first() =~= Seq::<int>::empty());
    } else {
        assert(w.push(v).drop_first() =~= w.drop_first().push(v));
        lemma_dur_sum_snoc(items, w.drop_first(), v);
        assert(w.push(v)[0] == w[0]);
    }
}

/// The duration of a concatenation is the sum of the parts.
pub proof fn lemma_dur_sum_concat(items: Seq<BeadNode>, a: Seq<int>, b: Seq<int>)
    ensures
        dur_sum(items, a + b) == dur_sum(items, a) + dur_sum(items, b),
    decreases a.len(),
{
    if a.len() == 0 {
        assert(a + b =~= b);
    } else {
        assert((a + b).drop_first() =~= a.drop_first() + b);
        lemma_dur_sum_concat(items, a.drop_first(), b);
        assert((a + b)[0] == a[0]);
    }
}

/// A walk extends by one edge at its end.
pub proof fn lemma_walk_push(items: Seq<BeadNode>, w: Seq<int>, v: int)
    requires
        is_walk(items, w),
        edge(items, w[w.len() - 1], v),
    ensures
        is_walk(items, w.push(v)),
        ends_at(items, w.push(v), v),
{
    let w2 = w.push(v);
    assert forall|i: int| 0 <= i < w2.len() - 1 implies edge(items, #[trigger] w2[i], w2[i + 1]) by {
        if i < w.len() - 1 {
            assert(edge(items, w[i], w[i + 1]));
        } else {
            assert(w2[i] == w[w.len() - 1]);
        }
    }
}

/// A walk extends by one edge at its start.
pub proof fn lemma_walk_cons(items: Seq<BeadNode>, v: int, w: Seq<int>)
    requires
        is_walk(items, w),
        edge(items, v, w[0]),
    ensures
        is_walk(items, seq![v] + w),
        starts_at(items, seq![v] + w, v),
        dur_sum(items, seq![v] + w) == spec_duration(items[v]) + dur_sum(items, w),
{
    let w2 = seq![v] + w;
    assert forall|i: int| 0 <= i < w2.len() - 1 implies edge(items, #[trigger] w2[i], w2[i + 1]) by {
        if i == 0 {
            assert(w2[0] == v);
            assert(w2[1] == w[0]);
        } else {
            assert(w2[i] == w[i - 1]);
            assert(w2[i + 1] == w[i]);
            assert(edge(items, w[i - 1], w[i]));
        }
    }
    assert(w2.drop_first() =~= w);
}

/// Joining a walk ending at `v` with one starting at `v` yields a walk
/// through `v` whose duration counts `v` once.
pub proof fn lemma_walk_join(items: Seq<BeadNode>, w1: Seq<int>, w2: Seq<int>, v: int)
    requires
        ends_at(items, w1, v),
        starts_at(items, w2, v),
    ensures
        thru(items, w1 + w2.drop_first(), v),
        dur_sum(items, w1 + w2.drop_first()) == dur_sum(items, w1) + dur_sum(items, w2)
            - spec_duration(items[v]),
    decreases w2.len(),
{
    let w = w1 + w2.drop_first();
    assert forall|i: int| 0 <= i < w.len() - 1 implies edge(items, #[trigger] w[i], w[i + 1]) by {
        if i < w1.len() - 1 {
            assert(w[i] == w1[i]);
            assert(w[i + 1] == w1[i + 1]);
            assert(edge(items, w1[i], w1[i + 1]));
        } else if i == w1.len() - 1 {
            assert(w[i] == v);
            assert(w[i + 1] == w2[1]);
            assert(edge(items, w2[0], w2[1]));
        } else {
            assert(w[i] == w2[i - w1.len() + 1]);
            assert(w[i + 1] == w2[i - w1.len() + 2]);
            assert(edge(items, w2[i - w1.len() + 1], w2[i - w1.len() + 2]));
        }
    }
    assert forall|i: int| 0 <= i < w.len() implies 0 <= #[trigger] w[i] < items.len() by {
        if i < w1.len() {
            assert(w[i] == w1[i]);
        } else {
            assert(w[i] == w2[i - w1.len() + 1]);
        }
    }
    assert(w[w1.len() - 1] == v);
    assert(w.contains(v));
    lemma_dur_sum_concat(items, w1, w2.drop_first());
    assert(dur_sum(items, w2) == spec_duration(items[w2[0]]) + dur_sum(items, w2.drop_first()));
}

/// Splitting a walk at an occurrence of `v` yields a walk ending at `v` and
/// one starting at `v`, whose durations overlap exactly in `v`.
pub proof fn lemma_walk_split(items: Seq<BeadNode>, w: Seq<int>, j: int)
    requires
        is_walk(items, w),
        0 <= j < w.len(),
    ensures
        ends_at(items, w.subrange(0, j + 1), w[j]),
        starts_at(items, w.subrange(j, w.len() as int), w[j]),
        dur_sum(items, w) == dur_sum(items, w.subrange(0, j + 1)) + dur_sum(
            items,
            w.subrange(j, w.len() as int),
        ) - spec_duration(items[w[j]]),
{
    lemma_walk_subrange(items, w, 0, j + 1);
    lemma_walk_subrange(items, w, j, w.len() as int);
    let w1 = w.subrange(0, j + 1);
    let w2 = w.subrange(j, w.len() as int);
    assert(w =~= w1 + w2.drop_first());
    lemma_dur_sum_concat(items, w1, w2.drop_first());
    assert(dur_sum(items, w2) == spec_duration(items[w2[0]]) + dur_sum(items, w2.drop_first()));
}

/// Single-item law: a lone item with no declared edges is well formed and
/// acyclic, its chain durations fit, the only chain is the item itself, and
/// so any longest-chain duration equals its effective duration, with the
/// item lying on that chain.
pub proof fn lemma_single_item_law(items: Seq<BeadNode>)
    requires
        items.len() == 1,
        items[0].blocked_by@.len() == 0,
        items[0].blocks@.len() == 0,
    ensures
        well_formed(items),
        sums_fit(items),
        !has_cycle_spec(items),
        forall|t: int|
            #[trigger] total_bound(items, t) ==> t == spec_duration(items[0]) && on_chain_of(
                items,
                0,
                t,
            ),
{
    assert(forall|u: int, v: int| !(#[trigger] edge(items, u, v))) by {
        assert forall|u: int, v: int| !(#[trigger] edge(items, u, v)) by {
            if edge(items, u, v) {
                assert(u == 0 && v == 0);
                if declares_block(items, u, v) {
                    let k = choose|k: int|
                        0 <= k < items[0].blocks@.len() && (#[trigger] items[0].blocks@[k])@
                            == items[0].id@;
                } else {
                    let k = choose|k: int|
                        0 <= k < items[0].blocked_by@.len() && (
                        #[trigger] items[0].blocked_by@[k])@ == items[0].id@;
                }
            }
        }
    }
    assert forall|w: Seq<int>| is_walk(items, w) implies w =~= seq![0int] by {
        assert(0 <= w[0] < 1);
        if w.len() >= 2 {
            assert(edge(items, w[0], w[1]));
        }
    }
    assert(dur_sum(items, seq![0int]) == spec_duration(items[0])) by {
        assert(seq![0int].drop_first() =~= Seq::<int>::empty());
        assert(dur_sum(items, Seq::<int>::empty()) == 0);
        assert(seq![0int][0] == 0);
    }
    assert(!has_cycle_spec(items)) by {
        if has_cycle_spec(items) {
            let w = choose|w: Seq<int>| is_closed_walk(items, w);
            assert(w =~= seq![0int]);
        }
    }
    assert(sums_fit(items)) by {
        assert forall|w: Seq<int>| is_walk(items, w) implies dur_sum(items, w) <= u32::MAX by {
            assert(w =~= seq![0int]);
            assert(dur_sum(items, w) == spec_duration(items[0]));
        }
    }
    assert forall|t: int| #[trigger] total_bound(items, t) implies t == spec_duration(items[0])
        && on_chain_of(items, 0, t) by {
        let w = choose|w: Seq<int>| is_walk(items, w) && dur_sum(items, w) == t;
        assert(w =~= seq![0int]);
        assert(thru(items, seq![0int], 0)) by {
            assert(seq![0int][0] == 0);
            assert(seq![0int].contains(0));
            assert(is_walk(items, seq![0int]));
        }
    }
}

} // verus!
