//! Critical-path analysis: forward and backward longest-path passes over
//! the canonical snapshot, per-item slack, and reconstruction of one
//! longest-duration chain.
//!
//! The forward pass computes, for each item, the longest duration of any
//! chain ending at it; the backward pass the longest duration of any chain
//! starting at it. An item's slack is zero exactly when it lies on a chain
//! of the full project duration.

use vstd::prelude::*;
use crate::BeadNode;
use crate::CriticalPathResult;
use crate::GraphError;
use crate::spec_duration;
use crate::model::edge;
use crate::model::well_formed;
use crate::model::has_cycle_spec;
use crate::model::usq_contains;
use crate::model::declares_blocker;
use crate::model::is_walk;
use crate::model::ends_at;
use crate::model::starts_at;
use crate::model::thru;
use crate::model::on_chain_of;
use crate::model::total_bound;
use crate::model::dur_sum;
use crate::model::sums_fit;
use crate::model::lemma_dur_sum_snoc;
use crate::model::lemma_walk_push;
use crate::model::lemma_walk_cons;
use crate::model::lemma_walk_join;
use crate::model::lemma_walk_split;
use crate::model::lemma_walk_subrange;
use crate::model::lemma_complete_order_onto;
use crate::model::complete_respecting_order;
use crate::model::pos_in;
use crate::snapshot::build_snapshot;
use crate::snapshot::snap_wf;
use crate::snapshot::index_of_id;
use crate::topo::kahn_order;
use crate::topo::kahn_post;

verus! {

/// `h` is the largest duration of any chain ending at `v`, and some chain
/// reaches it.
pub open spec fn head_ok(items: Seq<BeadNode>, v: int, h: int) -> bool {
    &&& exists|w: Seq<int>| ends_at(items, w, v) && dur_sum(items, w) == h
    &&& forall|w: Seq<int>| ends_at(items, w, v) ==> dur_sum(items, w) <= h
}

/// `h` is the largest duration of any chain starting at `v`, and some chain
/// reaches it.
pub open spec fn tail_ok(items: Seq<BeadNode>, v: int, h: int) -> bool {
    &&& exists|w: Seq<int>| starts_at(items, w, v) && dur_sum(items, w) == h
    &&& forall|w: Seq<int>| starts_at(items, w, v) ==> dur_sum(items, w) <= h
}

/// The id names a critical item (one flagged with zero slack).
pub open spec fn crit_entry(items: Seq<BeadNode>, critical: Seq<bool>, id: Seq<char>) -> bool {
    exists|x: int| 0 <= x < items.len() && (#[trigger] critical[x]) && items[x].id@ == id
}

/// The slack value of item `i`: the project duration, less the longest
/// chain starting at `i`, less the longest chain ending at `i`, counting
/// the item's own duration once.
pub open spec fn slack_pinned(items: Seq<BeadNode>, total: int, i: int, s: int) -> bool {
    exists|h: int, tl: int|
        head_ok(items, i, h) && tail_ok(items, i, tl) && s == total - tl - h + spec_duration(
            items[i],
        )
}

/// Each item on a longest chain has at most one out-neighbour on a longest
/// chain: the critical subgraph does not branch forward. Under this
/// condition the reconstructed path is itself a longest chain.
pub open spec fn unique_critical_succ(items: Seq<BeadNode>, t: int) -> bool {
    forall|x: int, u1: int, u2: int|
        on_chain_of(items, x, t) && on_chain_of(items, u1, t) && on_chain_of(items, u2, t)
            && #[trigger] edge(items, x, u1) && #[trigger] edge(items, x, u2) ==> u1 == u2
}

/// One of the first `k` declared blockers of `v` names a flagged item.
pub open spec fn crit_dep_before(
    items: Seq<BeadNode>,
    critical: Seq<bool>,
    v: int,
    k: int,
) -> bool {
    exists|k4: int, u: int|
        #![trigger items[v].blocked_by@[k4], critical[u]]
        0 <= k4 < k && 0 <= u < items.len() && (items[v].blocked_by@[k4])@ == items[u].id@
            && critical[u]
}

/// The path is the id sequence of a chain of total duration `t`.
pub open spec fn chain_of_ids(items: Seq<BeadNode>, t: int, pathv: Seq<String>) -> bool {
    exists|w: Seq<int>|
        is_walk(items, w) && dur_sum(items, w) == t && w.len() == pathv.len() && (forall|p: int|
            0 <= p < w.len() ==> 0 <= #[trigger] w[p] < items.len() && items[w[p]].id@
                == pathv[p]@)
}

/// An item on a longest chain none of whose predecessors lies on one.
pub open spec fn chain_start(items: Seq<BeadNode>, t: int, x: int) -> bool {
    &&& 0 <= x < items.len()
    &&& on_chain_of(items, x, t)
    &&& forall|u: int|
        0 <= u < items.len() && #[trigger] edge(items, u, x) ==> !on_chain_of(items, u, t)
}

/// No item qualifies as a chain start: every longest-chain item keeps a
/// longest-chain predecessor. The reconstruction then falls back to
/// listing the longest-chain items themselves.
pub open spec fn no_chain_start(items: Seq<BeadNode>, t: int) -> bool {
    forall|x: int| 0 <= x < items.len() ==> !chain_start(items, t, x)
}

/// The ids of the first `upto` items on a longest chain, in item order.
pub open spec fn critical_id_list(items: Seq<BeadNode>, t: int, upto: int) -> Seq<Seq<char>>
    decreases upto,
{
    if upto <= 0 {
        Seq::empty()
    } else {
        critical_id_list(items, t, upto - 1) + if on_chain_of(items, upto - 1, t) {
            seq![items[upto - 1].id@]
        } else {
            Seq::<Seq<char>>::empty()
        }
    }
}

/// The reconstruction rule of the critical path: the ids of a
/// duplicate-free walk of longest-chain items that begins at the first
/// chain start in item order, steps only to longest-chain successors (the
/// choice among several is the tie-break left open), and stops when none
/// remains.
pub open spec fn reconstructed_path(items: Seq<BeadNode>, t: int, pathv: Seq<String>) -> bool {
    exists|w: Seq<int>|
        {
            &&& w.len() == pathv.len()
            &&& w.len() >= 1
            &&& w.no_duplicates()
            &&& (forall|p: int|
                0 <= p < w.len() ==> 0 <= #[trigger] w[p] < items.len() && items[w[p]].id@
                    == pathv[p]@ && on_chain_of(items, w[p], t))
            &&& chain_start(items, t, w[0])
            &&& (forall|x: int| 0 <= x < w[0] ==> !chain_start(items, t, x))
            &&& (forall|p: int| 0 <= p < w.len() - 1 ==> edge(items, #[trigger] w[p], w[p + 1]))
            &&& (forall|u: int|
                0 <= u < items.len() && #[trigger] edge(items, w[w.len() - 1], u)
                    ==> !on_chain_of(items, u, t))
        }
}

/// The facts the two passes leave behind: for every item, its longest
/// ending and starting chain values, the duration relation, and the
/// criticality flags.
pub open spec fn passes_ok(
    items: Seq<BeadNode>,
    es: Seq<u64>,
    ef: Seq<u64>,
    ls: Seq<u64>,
    critical: Seq<bool>,
    total: int,
) -> bool {
    &&& es.len() == items.len()
    &&& ef.len() == items.len()
    &&& ls.len() == items.len()
    &&& critical.len() == items.len()
    &&& total_bound(items, total)
    &&& forall|x: int| 0 <= x < items.len() ==> head_ok(items, x, (#[trigger] ef[x]) as int)
    &&& forall|x: int|
        0 <= x < items.len() ==> tail_ok(items, x, total - (#[trigger] ls[x]) as int)
    &&& forall|x: int|
        0 <= x < items.len() ==> (#[trigger] ef[x]) as int == es[x] as int + spec_duration(
            items[x],
        )
    &&& forall|x: int| 0 <= x < items.len() ==> ((#[trigger] ls[x]) as int) <= total
    &&& forall|x: int| 0 <= x < items.len() ==> ((#[trigger] es[x]) as int) <= ls[x] as int
    &&& forall|x: int|
        0 <= x < items.len() ==> ((#[trigger] critical[x]) <==> on_chain_of(items, x, total))
    &&& forall|x: int| 0 <= x < items.len() && #[trigger] critical[x] ==> ls[x] == es[x]
}

/// A sequence whose entries sit at strictly increasing positions of a
/// duplicate-free order has no duplicates, and its `p`-th position is at
/// least `p`.
proof fn lemma_mono_pos_lower(order: Seq<usize>, w: Seq<int>, p: int)
    requires
        forall|q: int|
            0 <= q < w.len() - 1 ==> pos_in(order, #[trigger] w[q]) < pos_in(order, w[q + 1]),
        0 <= p < w.len(),
        forall|q: int| 0 <= q < w.len() ==> pos_in(order, #[trigger] w[q]) >= 0,
    ensures
        pos_in(order, w[p]) >= p,
    decreases p,
{
    if p > 0 {
        lemma_mono_pos_lower(order, w, p - 1);
    }
}

proof fn lemma_mono_pos_nodup(order: Seq<usize>, w: Seq<int>)
    requires
        forall|q: int|
            0 <= q < w.len() - 1 ==> pos_in(order, #[trigger] w[q]) < pos_in(order, w[q + 1]),
    ensures
        w.no_duplicates(),
{
    assert forall|i: int, j: int|
        0 <= i < w.len() && 0 <= j < w.len() && i != j implies w[i] != w[j] by {
        if i < j {
            lemma_mono_pos_trans(order, w, i, j);
        } else {
            lemma_mono_pos_trans(order, w, j, i);
        }
    }
}

proof fn lemma_mono_pos_trans(order: Seq<usize>, w: Seq<int>, i: int, j: int)
    requires
        forall|q: int|
            0 <= q < w.len() - 1 ==> pos_in(order, #[trigger] w[q]) < pos_in(order, w[q + 1]),
        0 <= i < j < w.len(),
    ensures
        pos_in(order, w[i]) < pos_in(order, w[j]),
        w[i] != w[j],
    decreases j - i,
{
    if j > i + 1 {
        lemma_mono_pos_trans(order, w, i, j - 1);
    }
}

/// Following any edge between critical items continues a longest chain:
/// when no critical item branches into two critical successors, the
/// successor starts exactly where the current item finishes.
proof fn lemma_step_tight(
    items: Seq<BeadNode>,
    es: Seq<u64>,
    ef: Seq<u64>,
    ls: Seq<u64>,
    critical: Seq<bool>,
    total: int,
    cur: int,
    u: int,
)
    requires
        passes_ok(items, es, ef, ls, critical, total),
        unique_critical_succ(items, total),
        0 <= cur < items.len(),
        0 <= u < items.len(),
        critical[cur],
        critical[u],
        edge(items, cur, u),
    ensures
        es[u] as int == ef[cur] as int,
{
    let dc = spec_duration(items[cur]);
    // the successor cannot start before the current item finishes
    assert((ef[cur] as int) <= es[u] as int) by {
        let wh = choose|w: Seq<int>|
            ends_at(items, w, cur) && dur_sum(items, w) == ef[cur] as int;
        lemma_walk_push(items, wh, u);
        lemma_dur_sum_snoc(items, wh, u);
        assert(dur_sum(items, wh.push(u)) <= ef[u] as int);
    }
    let tc = total - ls[cur] as int;
    if tc > dc {
        // the current item has a longest-chain successor achieving its tail
        let wt = choose|w: Seq<int>| starts_at(items, w, cur) && dur_sum(items, w) == tc;
        assert(wt.len() >= 2) by {
            if wt.len() == 1 {
                assert(wt =~= seq![cur]);
                assert(dur_sum(items, seq![cur]) == dc) by {
                    assert(seq![cur].drop_first() =~= Seq::<int>::empty());
                    assert(dur_sum(items, Seq::<int>::empty()) == 0);
                    assert(seq![cur][0] == cur);
                }
            }
        }
        let u2 = wt[1];
        assert(edge(items, cur, u2)) by {
            assert(edge(items, wt[0int], wt[1int]));
        }
        let wt2 = wt.drop_first();
        lemma_walk_subrange(items, wt, 1, wt.len() as int);
        assert(wt2 =~= wt.subrange(1, wt.len() as int));
        assert(starts_at(items, wt2, u2));
        assert(dur_sum(items, wt) == dc + dur_sum(items, wt2));
        assert(dur_sum(items, wt2) == tc - dc);
        assert(dur_sum(items, wt2) <= total - ls[u2] as int);
        assert(total - ls[u2] as int <= tc - dc) by {
            let wtu2 = choose|w: Seq<int>|
                starts_at(items, w, u2) && dur_sum(items, w) == total - ls[u2] as int;
            lemma_walk_cons(items, cur, wtu2);
            assert(dur_sum(items, seq![cur] + wtu2) <= tc);
        }
        assert(total - ls[u2] as int == tc - dc);
        // u2 lies on a longest chain
        assert(on_chain_of(items, u2, total)) by {
            let wh = choose|w: Seq<int>|
                ends_at(items, w, cur) && dur_sum(items, w) == ef[cur] as int;
            lemma_walk_push(items, wh, u2);
            lemma_dur_sum_snoc(items, wh, u2);
            let wt3 = choose|w: Seq<int>|
                starts_at(items, w, u2) && dur_sum(items, w) == tc - dc;
            lemma_walk_join(items, wh.push(u2), wt3, u2);
            assert(dur_sum(items, wh.push(u2) + wt3.drop_first()) == ef[cur] as int + (tc - dc));
            assert(ef[cur] as int + tc - dc == es[cur] as int + tc);
            assert(es[cur] == ls[cur]);
            assert(dur_sum(items, wh.push(u2) + wt3.drop_first()) == total);
        }
        assert(critical[u2]);
        assert(on_chain_of(items, cur, total) && on_chain_of(items, u, total));
        assert(u == u2);
        assert(es[u] == ls[u]);
        assert(ls[u] as int == total - (tc - dc));
        assert(es[u] as int == ls[cur] as int + dc);
    } else {
        // the chain cannot be extended: both sides sit at the project end
        let wtu = choose|w: Seq<int>|
            starts_at(items, w, u) && dur_sum(items, w) == total - ls[u] as int;
        lemma_walk_cons(items, cur, wtu);
        assert(dur_sum(items, seq![cur] + wtu) <= tc);
        assert(total - ls[u] as int <= 0);
        crate::model::lemma_dur_sum_nonneg(items, wtu);
        assert(ls[u] as int == total);
        assert(es[u] == ls[u]);
        assert((ef[cur] as int) <= total) by {
            let wh = choose|w: Seq<int>|
                ends_at(items, w, cur) && dur_sum(items, w) == ef[cur] as int;
        }
        assert(ef[cur] as int == es[cur] as int + dc);
        assert(es[cur] == ls[cur]);
        assert(ef[cur] as int >= total);
    }
}

/// A critical item with no critical successor finishes the project.
proof fn lemma_no_crit_succ_total(
    items: Seq<BeadNode>,
    es: Seq<u64>,
    ef: Seq<u64>,
    ls: Seq<u64>,
    critical: Seq<bool>,
    total: int,
    cur: int,
)
    requires
        passes_ok(items, es, ef, ls, critical, total),
        0 <= cur < items.len(),
        critical[cur],
        forall|u: int| 0 <= u < items.len() && #[trigger] edge(items, cur, u) ==> !critical[u],
    ensures
        ef[cur] as int == total,
{
    let dc = spec_duration(items[cur]);
    let tc = total - ls[cur] as int;
    if tc > dc {
        let wt = choose|w: Seq<int>| starts_at(items, w, cur) && dur_sum(items, w) == tc;
        assert(wt.len() >= 2) by {
            if wt.len() == 1 {
                assert(wt =~= seq![cur]);
                assert(dur_sum(items, seq![cur]) == dc) by {
                    assert(seq![cur].drop_first() =~= Seq::<int>::empty());
                    assert(dur_sum(items, Seq::<int>::empty()) == 0);
                    assert(seq![cur][0] == cur);
                }
            }
        }
        let u2 = wt[1];
        assert(edge(items, cur, u2)) by {
            assert(edge(items, wt[0int], wt[1int]));
        }
        let wt2 = wt.drop_first();
        lemma_walk_subrange(items, wt, 1, wt.len() as int);
        assert(wt2 =~= wt.subrange(1, wt.len() as int));
        assert(starts_at(items, wt2, u2));
        assert(dur_sum(items, wt) == dc + dur_sum(items, wt2));
        assert(dur_sum(items, wt2) == tc - dc);
        assert(dur_sum(items, wt2) <= total - ls[u2] as int);
        assert(total - ls[u2] as int <= tc - dc) by {
            let wtu2 = choose|w: Seq<int>|
                starts_at(items, w, u2) && dur_sum(items, w) == total - ls[u2] as int;
            lemma_walk_cons(items, cur, wtu2);
            assert(dur_sum(items, seq![cur] + wtu2) <= tc);
        }
        assert(on_chain_of(items, u2, total)) by {
            let wh = choose|w: Seq<int>|
                ends_at(items, w, cur) && dur_sum(items, w) == ef[cur] as int;
            lemma_walk_push(items, wh, u2);
            lemma_dur_sum_snoc(items, wh, u2);
            let wt3 = choose|w: Seq<int>|
                starts_at(items, w, u2) && dur_sum(items, w) == tc - dc;
            lemma_walk_join(items, wh.push(u2), wt3, u2);
            assert(dur_sum(items, wh.push(u2) + wt3.drop_first()) == ef[cur] as int + (tc - dc));
            assert(es[cur] == ls[cur]);
            assert(dur_sum(items, wh.push(u2) + wt3.drop_first()) == total);
        }
        assert(critical[u2]);
        assert(false);
    } else {
        assert((ef[cur] as int) <= total) by {
            let wh = choose|w: Seq<int>|
                ends_at(items, w, cur) && dur_sum(items, w) == ef[cur] as int;
        }
        assert(es[cur] == ls[cur]);
        assert(ef[cur] as int >= total);
    }
}

/// A critical item with no critical blocker starts at time zero.
proof fn lemma_start_es_zero(
    items: Seq<BeadNode>,
    es: Seq<u64>,
    ef: Seq<u64>,
    ls: Seq<u64>,
    critical: Seq<bool>,
    total: int,
    s0: int,
)
    requires
        passes_ok(items, es, ef, ls, critical, total),
        0 <= s0 < items.len(),
        critical[s0],
        forall|u: int| 0 <= u < items.len() && #[trigger] edge(items, u, s0) ==> !critical[u],
    ensures
        es[s0] == 0,
{
    let d0 = spec_duration(items[s0]);
    if es[s0] != 0 {
        let wh = choose|w: Seq<int>|
            ends_at(items, w, s0) && dur_sum(items, w) == ef[s0] as int;
        assert(wh.len() >= 2) by {
            if wh.len() == 1 {
                assert(wh =~= seq![s0]);
                assert(dur_sum(items, seq![s0]) == d0) by {
                    assert(seq![s0].drop_first() =~= Seq::<int>::empty());
                    assert(dur_sum(items, Seq::<int>::empty()) == 0);
                    assert(seq![s0][0] == s0);
                }
            }
        }
        let u = wh[wh.len() - 2];
        assert(edge(items, u, s0)) by {
            assert(edge(items, wh[wh.len() - 2], wh[wh.len() - 2 + 1]));
        }
        assert(0 <= u < items.len());
        let w1 = wh.drop_last();
        lemma_walk_subrange(items, wh, 0, wh.len() - 1);
        assert(w1 =~= wh.subrange(0, wh.len() - 1));
        assert(ends_at(items, w1, u));
        assert(wh =~= w1.push(s0));
        lemma_dur_sum_snoc(items, w1, s0);
        assert(dur_sum(items, w1) == es[s0] as int);
        // join a chain ending at the blocker with the tail of the start
        let wt = choose|w: Seq<int>|
            starts_at(items, w, s0) && dur_sum(items, w) == total - ls[s0] as int;
        lemma_walk_cons(items, u, wt);
        lemma_walk_join(items, w1, seq![u] + wt, u);
        assert(es[s0] == ls[s0]);
        assert(dur_sum(items, w1 + (seq![u] + wt).drop_first()) == total);
        assert((w1 + (seq![u] + wt).drop_first()).contains(u));
        assert(on_chain_of(items, u, total));
        assert(critical[u]);
        assert(false);
    }
}

/// Compute the critical path, the total duration, and the slack of every
/// item. An empty input yields the empty result; a cyclic graph an error.
#[verifier::rlimit(100)]
pub fn critical_path_internal(beads: &Vec<BeadNode>) -> (r: Result<CriticalPathResult, GraphError>)
    requires
        beads@.len() < 0x1_0000_0000,
    ensures
        r matches Err(e) ==> (e matches GraphError::CycleDetected),
        well_formed(beads@) ==> ((r matches Ok(_)) <==> !has_cycle_spec(beads@)),
        well_formed(beads@) && (r matches Err(_)) ==> has_cycle_spec(beads@),
        beads@.len() == 0 ==> (r matches Ok(c) ==> (c.path@.len() == 0 && c.total_duration == 0
            && c.slack@.len() == 0)) && !(r matches Err(_)),
        r matches Ok(c) ==> c.slack@.len() == beads@.len() && (forall|i: int|
            0 <= i < beads@.len() ==> (#[trigger] c.slack@[i].0)@ == beads@[i].id@),
        well_formed(beads@) && sums_fit(beads@) && beads@.len() > 0 ==> match r {
            Ok(c) => total_bound(beads@, c.total_duration as int),
            Err(_) => true,
        },
        well_formed(beads@) && sums_fit(beads@) && beads@.len() > 0 ==> match r {
            Ok(c) => forall|i: int|
                0 <= i < beads@.len() ==> ((#[trigger] c.slack@[i]).1 == 0 <==> on_chain_of(
                    beads@,
                    i,
                    c.total_duration as int,
                )),
            Err(_) => true,
        },
        well_formed(beads@) && sums_fit(beads@) && beads@.len() > 0 ==> match r {
            Ok(c) => forall|i: int|
                0 <= i < beads@.len() ==> slack_pinned(
                    beads@,
                    c.total_duration as int,
                    i,
                    (#[trigger] c.slack@[i]).1 as int,
                ),
            Err(_) => true,
        },
        well_formed(beads@) && sums_fit(beads@) && beads@.len() > 0 ==> match r {
            Ok(c) => forall|p: int|
                0 <= p < c.path@.len() ==> exists|v: int|
                    0 <= v < beads@.len() && beads@[v].id@ == (#[trigger] c.path@[p])@
                        && on_chain_of(beads@, v, c.total_duration as int),
            Err(_) => true,
        },
        well_formed(beads@) && sums_fit(beads@) && beads@.len() > 0 ==> match r {
            Ok(c) => c.path@.len() >= 1,
            Err(_) => true,
        },
        well_formed(beads@) && sums_fit(beads@) && beads@.len() > 0 ==> match r {
            Ok(c) => reconstructed_path(beads@, c.total_duration as int, c.path@) || (
            no_chain_start(beads@, c.total_duration as int) && c.path@.map_values(|x: String| x@)
                == critical_id_list(beads@, c.total_duration as int, beads@.len() as int)),
            Err(_) => true,
        },
        well_formed(beads@) && sums_fit(beads@) && beads@.len() > 0 ==> match r {
            Ok(c) => unique_critical_succ(beads@, c.total_duration as int) ==> (chain_of_ids(
                beads@,
                c.total_duration as int,
                c.path@,
            ) || no_chain_start(beads@, c.total_duration as int)),
            Err(_) => true,
        },
{
    let ghost items = beads@;
    let n = beads.len();
    if n == 0 {
        return Ok(
            CriticalPathResult { path: Vec::new(), total_duration: 0, slack: Vec::new() },
        );
    }
    let snap = build_snapshot(beads);
    let kr = kahn_order(&snap, Ghost(items));
    let ghost order = kr.order@;
    if kr.order.len() != n {
        return Err(GraphError::CycleDetected);
    }
    // forward pass: longest chain ending at each item
    let mut es: Vec<u64> = Vec::new();
    let mut ef: Vec<u64> = Vec::new();
    let mut assigned: Vec<bool> = Vec::new();
    for i in 0..n
        invariant
            es@.len() == i,
            ef@.len() == i,
            assigned@.len() == i,
            forall|x: int| 0 <= x < i ==> !(#[trigger] assigned@[x]),
    {
        es.push(0);
        ef.push(0);
        assigned.push(false);
    }
    let mut t: usize = 0;
    while t < n
        invariant
            n == items.len(),
            beads@ == items,
            n >= 1,
            n < 0x1_0000_0000,
            kr.order@ == order,
            kahn_post(items, order),
            order.len() == n,
            t <= n,
            es@.len() == n,
            ef@.len() == n,
            assigned@.len() == n,
            forall|x: int|
                0 <= x < n ==> ((#[trigger] assigned@[x]) <==> usq_contains(
                    order.subrange(0, t as int),
                    x,
                )),
            forall|x: int|
                0 <= x < n && assigned@[x] ==> (#[trigger] ef@[x]) as int <= (t as int)
                    * 0xFFFF_FFFF,
            well_formed(items) ==> forall|i: int|
                0 <= i < t ==> head_ok(items, (#[trigger] order[i]) as int, ef@[order[i] as int] as int),
            well_formed(items) ==> forall|i: int|
                0 <= i < t ==> (#[trigger] ef@[order[i] as int]) as int == es@[order[
                i] as int] as int + spec_duration(items[order[i] as int]),
        decreases n - t,
    {
        let v = kr.order[t];
        let ghost popped_old = order.subrange(0, t as int);
        let ghost es_pre = es@;
        let ghost ef_pre = ef@;
        proof {
            assert(!usq_contains(popped_old, v as int)) by {
                if usq_contains(popped_old, v as int) {
                    let i = choose|i: int|
                        0 <= i < popped_old.len() && (#[trigger] popped_old[i]) as int == v as int;
                    assert(order[i] == order[t as int]);
                }
            }
            assert(!assigned@[v as int]);
        }
        let m = beads[v].blocked_by.len();
        let mut best: u64 = 0;
        let mut any = false;
        let mut k: usize = 0;
        while k < m
            invariant
                n == items.len(),
                beads@ == items,
                n < 0x1_0000_0000,
                kr.order@ == order,
                kahn_post(items, order),
                order.len() == n,
                t < n,
                0 <= (v as int) < n,
                order[t as int] == v,
                m == items[v as int].blocked_by@.len(),
                k <= m,
                es@.len() == n,
                ef@.len() == n,
                assigned@.len() == n,
                popped_old == order.subrange(0, t as int),
                forall|x: int|
                    0 <= x < n ==> ((#[trigger] assigned@[x]) <==> usq_contains(popped_old, x)),
                forall|x: int|
                    0 <= x < n && assigned@[x] ==> (#[trigger] ef@[x]) as int <= (t as int)
                        * 0xFFFF_FFFF,
                best as int <= (t as int) * 0xFFFF_FFFF,
                !any ==> best == 0,
                well_formed(items) ==> forall|i: int|
                    0 <= i < t ==> head_ok(
                        items,
                        (#[trigger] order[i]) as int,
                        ef@[order[i] as int] as int,
                    ),
                well_formed(items) ==> {
                    &&& (any <==> k > 0)
                    &&& (forall|u: int|
                        0 <= u < n && (exists|k2: int|
                            0 <= k2 < k && (#[trigger] items[v as int].blocked_by@[k2])@
                                == items[u].id@) ==> (ef@[u] as int) <= best as int)
                    &&& (any ==> exists|u: int|
                        0 <= u < n && #[trigger] declares_blocker(items, v as int, u)
                            && ef@[u] as int == best as int && usq_contains(popped_old, u))
                },
            decreases m - k,
        {
            let entry = &beads[v].blocked_by[k];
            let found = index_of_id(beads, entry);
            proof {
                if well_formed(items) {
                    assert(exists|u: int|
                        0 <= u < n && items[u].id@ == (items[v as int].blocked_by@[k as int])@);
                }
            }
            match found {
                Some(u) => {
                    proof {
                        if well_formed(items) {
                            assert(declares_blocker(items, v as int, u as int)) by {
                                assert((items[v as int].blocked_by@[k as int])@
                                    == items[u as int].id@);
                            }
                            assert(edge(items, u as int, v as int));
                            assert(edge(items, u as int, order[t as int] as int));
                            assert(exists|i: int|
                                0 <= i < t as int && (#[trigger] order[i]) as int == u as int);
                            let i = choose|i: int|
                                0 <= i < t as int && (#[trigger] order[i]) as int == u as int;
                            assert(usq_contains(popped_old, u as int)) by {
                                assert(popped_old[i] as int == u as int);
                            }
                            assert(assigned@[u as int]);
                        }
                    }
                    if assigned[u] {
                        let fu = ef[u];
                        if !any || fu > best {
                            best = fu;
                            any = true;
                        }
                    }
                }
                None => {
                    proof {
                        if well_formed(items) {
                            let u = choose|u: int|
                                0 <= u < n && items[u].id@ == (
                                items[v as int].blocked_by@[k as int])@;
                            assert(false);
                        }
                    }
                },
            }
            k = k + 1;
            proof {
                if well_formed(items) {
                    assert forall|u: int|
                        0 <= u < n && (exists|k2: int|
                            0 <= k2 < k as int && (#[trigger] items[v as int].blocked_by@[k2])@
                                == items[u].id@) implies (ef@[u] as int) <= best as int by {
                        let k2 = choose|k2: int|
                            0 <= k2 < k as int && (#[trigger] items[v as int].blocked_by@[k2])@
                                == items[u].id@;
                        if k2 < k as int - 1 {
                        }
                    }
                }
            }
        }
        let d = crate::effective_duration(&beads[v]);
        es[v] = best;
        ef[v] = best + (d as u64);
        assigned[v] = true;
        t = t + 1;
        proof {
            let popped_new = order.subrange(0, t as int);
            assert(popped_new =~= popped_old.push(v));
            assert forall|x: int|
                0 <= x < n implies ((#[trigger] assigned@[x]) <==> usq_contains(popped_new, x)) by {
                if usq_contains(popped_new, x) && !usq_contains(popped_old, x) {
                    let i = choose|i: int|
                        0 <= i < popped_new.len() && (#[trigger] popped_new[i]) as int == x;
                    assert(x == v as int);
                }
                if x == v as int {
                    assert(popped_new[popped_new.len() - 1] as int == x);
                }
            }
            if well_formed(items) {
                // the new value satisfies both directions of head_ok
                assert forall|w: Seq<int>| ends_at(items, w, v as int) implies dur_sum(items, w)
                    <= ef@[v as int] as int by {
                    if w.len() == 1 {
                        assert(w =~= seq![v as int]);
                        assert(dur_sum(items, seq![v as int]) == spec_duration(items[v as int])
                            + dur_sum(items, seq![v as int].drop_first()));
                        assert(seq![v as int].drop_first() =~= Seq::<int>::empty());
                    } else {
                        let u = w[w.len() - 2];
                        assert(edge(items, u, v as int)) by {
                            assert(edge(items, w[w.len() - 2], w[w.len() - 2 + 1]));
                        }
                        assert(declares_blocker(items, v as int, u));
                        let k2 = choose|k2: int|
                            0 <= k2 < items[v as int].blocked_by@.len() && (
                            #[trigger] items[v as int].blocked_by@[k2])@ == items[u].id@;
                        assert(ef_pre[u] as int <= best as int);
                        let wd = w.drop_last();
                        lemma_walk_subrange(items, w, 0, w.len() - 1);
                        assert(wd =~= w.subrange(0, w.len() - 1));
                        assert(ends_at(items, wd, u));
                        // u was emitted earlier, so its head bound applies
                        assert(edge(items, u, order[t as int - 1] as int));
                        let i = choose|i: int|
                            0 <= i < t as int - 1 && (#[trigger] order[i]) as int == u;
                        assert(head_ok(items, u, ef_pre[u] as int));
                        assert(dur_sum(items, wd) <= ef_pre[u] as int);
                        assert(w =~= wd.push(v as int));
                        lemma_dur_sum_snoc(items, wd, v as int);
                        assert(ef@[v as int] as int == best as int + spec_duration(
                            items[v as int],
                        ));
                    }
                }
                assert(exists|w: Seq<int>|
                    ends_at(items, w, v as int) && dur_sum(items, w) == ef@[v as int] as int) by {
                    if m == 0 {
                        assert(!any);
                        let w = seq![v as int];
                        assert(is_walk(items, w));
                        assert(dur_sum(items, w) == spec_duration(items[v as int]) + dur_sum(
                            items,
                            w.drop_first(),
                        ));
                        assert(w.drop_first() =~= Seq::<int>::empty());
                        assert(ends_at(items, w, v as int) && dur_sum(items, w) == ef@[
                        v as int] as int);
                    } else {
                        assert(any);
                        let u = choose|u: int|
                            0 <= u < n && #[trigger] declares_blocker(items, v as int, u)
                                && ef_pre[u] as int == best as int && usq_contains(popped_old, u);
                        let i = choose|i: int|
                            0 <= i < popped_old.len() && (#[trigger] popped_old[i]) as int == u;
                        assert(head_ok(items, u, ef_pre[u] as int));
                        let wu = choose|w: Seq<int>|
                            ends_at(items, w, u) && dur_sum(items, w) == ef_pre[u] as int;
                        assert(edge(items, u, v as int));
                        lemma_walk_push(items, wu, v as int);
                        lemma_dur_sum_snoc(items, wu, v as int);
                        assert(ends_at(items, wu.push(v as int), v as int) && dur_sum(
                            items,
                            wu.push(v as int),
                        ) == ef@[v as int] as int);
                    }
                }
                // earlier heads are untouched
                assert forall|i: int| 0 <= i < t implies head_ok(
                    items,
                    (#[trigger] order[i]) as int,
                    ef@[order[i] as int] as int,
                ) by {
                    if i < t - 1 {
                        assert(order[i] != order[t - 1]);
                        assert(ef@[order[i] as int] == ef_pre[order[i] as int]);
                    } else {
                        assert(order[i] == v);
                    }
                }
                assert forall|i: int| 0 <= i < t implies (#[trigger] ef@[order[i] as int]) as int
                    == es@[order[i] as int] as int + spec_duration(items[order[i] as int]) by {
                    if i < t - 1 {
                        assert(order[i] != order[t - 1]);
                    } else {
                        assert(order[i] == v);
                    }
                }
            }
        }
    }
    // the project duration: the largest earliest finish
    let mut total: u64 = 0;
    let mut vmax: usize = 0;
    for x in 0..n
        invariant
            n == items.len(),
            ef@.len() == n,
            n >= 1,
            (vmax as int) < n as int,
            forall|y: int| 0 <= y < x ==> (#[trigger] ef@[y]) <= total,
            x > 0 ==> total == ef@[vmax as int],
            x == 0 ==> total == 0,
    {
        if x == 0 || ef[x] > total {
            total = ef[x];
            vmax = x;
        }
    }
    proof {
        if well_formed(items) {
            assert forall|x: int| 0 <= x < n implies head_ok(
                items,
                x,
                (#[trigger] ef@[x]) as int,
            ) by {
                lemma_complete_order_onto(items, order, x);
                let i = pos_in(order, x);
                assert(head_ok(items, order[i] as int, ef@[order[i] as int] as int));
            }
            assert(total_bound(items, total as int)) by {
                assert forall|w: Seq<int>| is_walk(items, w) implies dur_sum(items, w)
                    <= total as int by {
                    let v2 = w[w.len() - 1];
                    assert(ends_at(items, w, v2));
                    assert(head_ok(items, v2, ef@[v2] as int));
                    assert(ef@[v2] <= total);
                }
                assert(head_ok(items, vmax as int, ef@[vmax as int] as int));
                let w = choose|w: Seq<int>|
                    ends_at(items, w, vmax as int) && dur_sum(items, w) == ef@[vmax as int] as int;
                assert(is_walk(items, w) && dur_sum(items, w) == total as int);
            }
        }
    }
    // backward pass: longest chain starting at each item, in reverse order
    let mut ls: Vec<u64> = Vec::new();
    let mut lf: Vec<u64> = Vec::new();
    for i in 0..n
        invariant
            ls@.len() == i,
            lf@.len() == i,
            forall|x: int| 0 <= x < i ==> (#[trigger] ls@[x]) == 0,
    {
        ls.push(0);
        lf.push(0);
    }
    let mut b: usize = 0;
    while b < n
        invariant
            n == items.len(),
            beads@ == items,
            n >= 1,
            kr.order@ == order,
            kahn_post(items, order),
            order.len() == n,
            b <= n,
            ls@.len() == n,
            lf@.len() == n,
            ef@.len() == n,
            es@.len() == n,
            snap_wf(snap, items),
            forall|x: int| 0 <= x < n ==> (#[trigger] ls@[x]) <= total,
            well_formed(items) ==> forall|i: int|
                n - b <= i < n ==> tail_ok(
                    items,
                    (#[trigger] order[i]) as int,
                    total as int - ls@[order[i] as int] as int,
                ),
            well_formed(items) ==> total_bound(items, total as int),
        decreases n - b,
    {
        let idx = n - 1 - b;
        let v = kr.order[idx];
        let ghost ls_pre = ls@;
        let row_len = snap.out[v].len();
        let ghost row = snap.out@[v as int]@;
        let mut lfv: u64 = 0;
        let mut anymin = false;
        let mut k: usize = 0;
        while k < row_len
            invariant
                n == items.len(),
                kr.order@ == order,
                kahn_post(items, order),
                order.len() == n,
                b < n,
                idx == n - 1 - b,
                0 <= (v as int) < n,
                order[idx as int] == v,
                snap_wf(snap, items),
                row == snap.out@[v as int]@,
                row_len == row.len(),
                k <= row_len,
                ls@.len() == n,
                forall|x: int| 0 <= x < n ==> (#[trigger] ls@[x]) <= total,
                anymin ==> lfv <= total,
                well_formed(items) ==> forall|i: int|
                    n - b <= i < n ==> tail_ok(
                        items,
                        (#[trigger] order[i]) as int,
                        total as int - ls@[order[i] as int] as int,
                    ),
                well_formed(items) ==> {
                    &&& (anymin <==> k > 0)
                    &&& (forall|k2: int|
                        0 <= k2 < k ==> lfv as int <= ls@[(#[trigger] row[k2]) as int] as int)
                    &&& (anymin ==> exists|u: int|
                        0 <= u < n && #[trigger] edge(items, v as int, u) && ls@[u] as int
                            == lfv as int && tail_ok(items, u, total as int - ls@[u] as int))
                },
            decreases row_len - k,
        {
            let u = snap.out[v][k];
            proof {
                assert(row[k as int] == u);
                assert(row.contains(u));
                assert(edge(items, v as int, u as int));
                if well_formed(items) {
                    // the successor sits later in the order, so it is done
                    assert(edge(items, order[idx as int] as int, u as int));
                    lemma_complete_order_onto(items, order, u as int);
                    let j = pos_in(order, u as int);
                    assert(edge(items, order[idx as int] as int, order[j] as int));
                    assert((idx as int) < j) by {
                        crate::model::lemma_complete_order_onto(items, order, u as int);
                    }
                    assert(n - b <= j < n);
                    assert(tail_ok(items, u as int, total as int - ls@[u as int] as int));
                }
            }
            let lu = ls[u];
            if !anymin || lu < lfv {
                lfv = lu;
                anymin = true;
            }
            k = k + 1;
            proof {
                if well_formed(items) {
                    assert forall|k2: int| 0 <= k2 < k as int implies lfv as int <= ls@[(
                    #[trigger] row[k2]) as int] as int by {
                        if k2 < k as int - 1 {
                        }
                    }
                }
            }
        }
        let d = crate::effective_duration(&beads[v]);
        let lfinal: u64 = if anymin {
            lfv
        } else {
            total
        };
        let lsv: u64 = if lfinal >= (d as u64) {
            lfinal - (d as u64)
        } else {
            0
        };
        ls[v] = lsv;
        lf[v] = lfinal;
        proof {
            if well_formed(items) {
                // the final value is exact: lfinal is at least the duration
                assert(spec_duration(items[v as int]) <= total as int) by {
                    let w = seq![v as int];
                    assert(is_walk(items, w));
                    assert(dur_sum(items, w) == spec_duration(items[v as int]) + dur_sum(
                        items,
                        w.drop_first(),
                    ));
                    assert(w.drop_first() =~= Seq::<int>::empty());
                }
                if anymin {
                    let u = choose|u: int|
                        0 <= u < n && #[trigger] edge(items, v as int, u) && ls_pre[u] as int
                            == lfv as int && tail_ok(items, u, total as int - ls_pre[u] as int);
                    let wu = choose|w: Seq<int>|
                        starts_at(items, w, u) && dur_sum(items, w) == total as int
                            - ls_pre[u] as int;
                    lemma_walk_cons(items, v as int, wu);
                    assert(dur_sum(items, seq![v as int] + wu) <= total as int);
                    assert(spec_duration(items[v as int]) <= lfv as int);
                }
                assert(spec_duration(items[v as int]) <= lfinal as int);
                assert(lsv as int == lfinal as int - spec_duration(items[v as int]));
                // tail_ok for v
                assert forall|w: Seq<int>| starts_at(items, w, v as int) implies dur_sum(items, w)
                    <= total as int - lsv as int by {
                    if w.len() == 1 {
                        assert(w =~= seq![v as int]);
                        assert(dur_sum(items, w) == spec_duration(items[v as int]) + dur_sum(
                            items,
                            w.drop_first(),
                        ));
                        assert(w.drop_first() =~= Seq::<int>::empty());
                        assert(lfinal <= total);
                    } else {
                        let u = w[1];
                        assert(edge(items, v as int, u)) by {
                            assert(edge(items, w[0int], w[1int]));
                        }
                        assert(row.contains(u as usize)) by {
                            assert(snap.out@[v as int]@.contains(u as usize));
                        }
                        let k2 = choose|k2: int| 0 <= k2 < row.len() && row[k2] == u as usize;
                        assert(lfinal as int <= ls_pre[u] as int);
                        let wd = w.drop_first();
                        lemma_walk_subrange(items, w, 1, w.len() as int);
                        assert(wd =~= w.subrange(1, w.len() as int));
                        assert(starts_at(items, wd, u));
                        assert(edge(items, order[idx as int] as int, u));
                        lemma_complete_order_onto(items, order, u);
                        let j = pos_in(order, u);
                        assert(edge(items, order[idx as int] as int, order[j] as int));
                        assert((idx as int) < j);
                        assert(tail_ok(items, u, total as int - ls_pre[u] as int));
                        assert(dur_sum(items, wd) <= total as int - ls_pre[u] as int);
                        assert(dur_sum(items, w) == spec_duration(items[w[0]]) + dur_sum(
                            items,
                            wd,
                        ));
                    }
                }
                assert(exists|w: Seq<int>|
                    starts_at(items, w, v as int) && dur_sum(items, w) == total as int
                        - lsv as int) by {
                    if anymin {
                        let u = choose|u: int|
                            0 <= u < n && #[trigger] edge(items, v as int, u) && ls_pre[u] as int
                                == lfv as int && tail_ok(
                                items,
                                u,
                                total as int - ls_pre[u] as int,
                            );
                        let wu = choose|w: Seq<int>|
                            starts_at(items, w, u) && dur_sum(items, w) == total as int
                                - ls_pre[u] as int;
                        lemma_walk_cons(items, v as int, wu);
                        assert(starts_at(items, seq![v as int] + wu, v as int) && dur_sum(
                            items,
                            seq![v as int] + wu,
                        ) == total as int - lsv as int);
                    } else {
                        // no successor: the chain is the item alone
                        let w = seq![v as int];
                        assert(is_walk(items, w));
                        assert(dur_sum(items, w) == spec_duration(items[v as int]) + dur_sum(
                            items,
                            w.drop_first(),
                        ));
                        assert(w.drop_first() =~= Seq::<int>::empty());
                        assert(starts_at(items, w, v as int) && dur_sum(items, w) == total as int
                            - lsv as int);
                    }
                }
                // earlier tails are untouched
                assert forall|i: int| n - b - 1 <= i < n implies tail_ok(
                    items,
                    (#[trigger] order[i]) as int,
                    total as int - ls@[order[i] as int] as int,
                ) by {
                    if i > n - b - 1 {
                        assert(order[i] != order[idx as int]);
                        assert(ls@[order[i] as int] == ls_pre[order[i] as int]);
                    } else {
                        assert(order[i] == v);
                    }
                }
            }
        }
        b = b + 1;
    }
    // slack per item, in item order
    let mut slack: Vec<(String, u32)> = Vec::new();
    let mut critical: Vec<bool> = Vec::new();
    let total32: u32 = if total > (u32::MAX as u64) {
        u32::MAX
    } else {
        total as u32
    };
    proof {
        if well_formed(items) && sums_fit(items) {
            let w = choose|w: Seq<int>| is_walk(items, w) && dur_sum(items, w) == total as int;
            assert(dur_sum(items, w) <= u32::MAX);
            assert(total32 as int == total as int);
            assert forall|x: int| 0 <= x < n implies tail_ok(
                items,
                x,
                total as int - (#[trigger] ls@[x]) as int,
            ) by {
                lemma_complete_order_onto(items, order, x);
                let i = pos_in(order, x);
                assert(tail_ok(items, order[i] as int, total as int - ls@[order[i] as int] as int));
            }
            assert forall|x: int| 0 <= x < n implies head_ok(
                items,
                x,
                (#[trigger] ef@[x]) as int,
            ) by {
                lemma_complete_order_onto(items, order, x);
                let i = pos_in(order, x);
                assert(head_ok(items, order[i] as int, ef@[order[i] as int] as int));
            }
            assert forall|x: int| 0 <= x < n implies (#[trigger] ef@[x]) as int == es@[x] as int
                + spec_duration(items[x]) by {
                lemma_complete_order_onto(items, order, x);
                let i = pos_in(order, x);
                assert(ef@[order[i] as int] as int == es@[order[i] as int] as int
                    + spec_duration(items[order[i] as int]));
            }
        }
    }
    for v in 0..n
        invariant
            n == items.len(),
            n >= 1,
            beads@ == items,
            es@.len() == n,
            ef@.len() == n,
            ls@.len() == n,
            forall|x: int| 0 <= x < n ==> (#[trigger] ls@[x]) <= total,
            slack@.len() == v,
            critical@.len() == v,
            forall|i: int| 0 <= i < v ==> (#[trigger] slack@[i].0)@ == items[i].id@,
            forall|i: int| 0 <= i < v ==> ((#[trigger] critical@[i]) <==> slack@[i].1 == 0),
            well_formed(items) && sums_fit(items) ==> {
                &&& total32 as int == total as int
                &&& (forall|x: int|
                    0 <= x < n ==> head_ok(items, x, (#[trigger] ef@[x]) as int))
                &&& (forall|x: int|
                    0 <= x < n ==> tail_ok(items, x, total as int - (#[trigger] ls@[x]) as int))
                &&& (forall|x: int|
                    0 <= x < n ==> (#[trigger] ef@[x]) as int == es@[x] as int + spec_duration(
                        items[x],
                    ))
                &&& total_bound(items, total as int)
                &&& (forall|i: int|
                    0 <= i < v ==> ((#[trigger] slack@[i]).1 == 0 <==> on_chain_of(
                        items,
                        i,
                        total as int,
                    )))
                &&& (forall|i: int|
                    0 <= i < v ==> slack_pinned(
                        items,
                        total as int,
                        i,
                        (#[trigger] slack@[i]).1 as int,
                    ))
                &&& (forall|i: int| 0 <= i < v ==> ((#[trigger] es@[i]) as int) <= ls@[i] as int)
                &&& (forall|i: int|
                    0 <= i < v ==> ((#[trigger] critical@[i]) <==> on_chain_of(
                        items,
                        i,
                        total as int,
                    )))
                &&& (forall|i: int| 0 <= i < v && #[trigger] critical@[i] ==> ls@[i] == es@[i])
            },
    {
        let sv: u64 = if ls[v] >= es[v] {
            ls[v] - es[v]
        } else {
            0
        };
        let sv32: u32 = if sv > (u32::MAX as u64) {
            u32::MAX
        } else {
            sv as u32
        };
        slack.push((beads[v].id.clone(), sv32));
        critical.push(sv32 == 0);
        proof {
            if well_formed(items) && sums_fit(items) {
                // join the head and tail witnesses: a chain through v
                let w1 = choose|w: Seq<int>|
                    ends_at(items, w, v as int) && dur_sum(items, w) == ef@[v as int] as int;
                let w2 = choose|w: Seq<int>|
                    starts_at(items, w, v as int) && dur_sum(items, w) == total as int - ls@[
                    v as int] as int;
                lemma_walk_join(items, w1, w2, v as int);
                let wj = w1 + w2.drop_first();
                assert(dur_sum(items, wj) == ef@[v as int] as int + (total as int - ls@[
                v as int] as int) - spec_duration(items[v as int]));
                assert(dur_sum(items, wj) == es@[v as int] as int + total as int - ls@[
                v as int] as int);
                assert(dur_sum(items, wj) <= total as int);
                assert(es@[v as int] <= ls@[v as int]);
                assert(sv as int == ls@[v as int] as int - es@[v as int] as int);
                assert(sv as int <= total as int);
                assert(sv32 as int == sv as int);
                if sv32 == 0 {
                    assert(dur_sum(items, wj) == total as int);
                    assert(on_chain_of(items, v as int, total as int));
                } else {
                    if on_chain_of(items, v as int, total as int) {
                        let w = choose|w: Seq<int>|
                            thru(items, w, v as int) && dur_sum(items, w) == total as int;
                        let j = choose|j: int| 0 <= j < w.len() && w[j] == v as int;
                        lemma_walk_split(items, w, j);
                        let wa = w.subrange(0, j + 1);
                        let wb = w.subrange(j, w.len() as int);
                        assert(dur_sum(items, wa) <= ef@[v as int] as int);
                        assert(dur_sum(items, wb) <= total as int - ls@[v as int] as int);
                        assert(total as int <= ef@[v as int] as int + total as int - ls@[
                        v as int] as int - spec_duration(items[v as int]));
                        assert(false);
                    }
                }
                assert(slack@[v as int].1 == 0 <==> on_chain_of(items, v as int, total as int));
                assert(critical@[v as int] <==> on_chain_of(items, v as int, total as int));
                assert(critical@[v as int] ==> ls@[v as int] == es@[v as int]);
                assert(slack_pinned(items, total as int, v as int, slack@[v as int].1 as int)) by {
                    let h = ef@[v as int] as int;
                    let tl = total as int - ls@[v as int] as int;
                    assert(head_ok(items, v as int, h) && tail_ok(items, v as int, tl)
                        && slack@[v as int].1 as int == total as int - tl - h + spec_duration(
                        items[v as int],
                    ));
                }
            }
            assert(slack@[v as int].0@ == items[v as int].id@);
        }
    }
    proof {
        if well_formed(items) && sums_fit(items) {
            assert(passes_ok(items, es@, ef@, ls@, critical@, total as int));
            // the item of greatest earliest finish is always critical
            assert(critical@[vmax as int]) by {
                assert(head_ok(items, vmax as int, ef@[vmax as int] as int));
                let w = choose|w: Seq<int>|
                    ends_at(items, w, vmax as int) && dur_sum(items, w) == ef@[vmax as int] as int;
                assert(w.contains(vmax as int)) by {
                    assert(w[w.len() - 1] == vmax as int);
                }
                assert(on_chain_of(items, vmax as int, total as int));
                assert(slack@[vmax as int].1 == 0);
            }
        }
    }
    let path = reconstruct_path(
        beads,
        &snap,
        &critical,
        total,
        Ghost(order),
        Ghost(es@),
        Ghost(ef@),
        Ghost(ls@),
    );
    proof {
        if well_formed(items) && sums_fit(items) {
            assert forall|p: int| 0 <= p < path@.len() implies exists|x: int|
                0 <= x < n && items[x].id@ == (#[trigger] path@[p])@ && on_chain_of(
                items,
                x,
                total32 as int,
            ) by {
                assert(crit_entry(items, critical@, path@[p]@));
                let x = choose|x: int|
                    0 <= x < n && (#[trigger] critical@[x]) && items[x].id@ == path@[p]@;
                assert(on_chain_of(items, x, total as int));
            }
            assert(total32 as int == total as int);
            assert(path@.len() >= 1);
            if reconstructed_path(items, total as int, path@) {
                assert(reconstructed_path(items, total32 as int, path@));
            } else {
                assert(no_chain_start(items, total as int) && path@.map_values(|x: String| x@)
                    == critical_id_list(items, total as int, n as int));
                assert(no_chain_start(items, total32 as int));
                assert(critical_id_list(items, total32 as int, n as int) == critical_id_list(
                    items,
                    total as int,
                    n as int,
                ));
            }
            if unique_critical_succ(items, total32 as int) {
                assert(unique_critical_succ(items, total as int));
                if chain_of_ids(items, total as int, path@) {
                    assert(chain_of_ids(items, total32 as int, path@));
                } else {
                    assert(no_chain_start(items, total32 as int));
                }
            }
        }
    }
    Ok(CriticalPathResult { path, total_duration: total32, slack })
}

/// A flagged item whose declared blockers are all unflagged is a chain
/// start; no earlier item with a flagged blocker can be one; and it starts
/// at time zero.
proof fn lemma_start_facts(
    items: Seq<BeadNode>,
    esv: Seq<u64>,
    efv: Seq<u64>,
    lsv: Seq<u64>,
    critical: Seq<bool>,
    total: u64,
    s0: int,
)
    requires
        well_formed(items),
        passes_ok(items, esv, efv, lsv, critical, total as int),
        0 <= s0 < items.len(),
        critical[s0],
        !crit_dep_before(items, critical, s0, items[s0].blocked_by@.len() as int),
        forall|x: int|
            0 <= x < s0 && critical[x] ==> crit_dep_before(
                items,
                critical,
                x,
                (#[trigger] items[x].blocked_by@).len() as int,
            ),
    ensures
        chain_start(items, total as int, s0),
        forall|x: int| 0 <= x < s0 ==> !chain_start(items, total as int, x),
        esv[s0] == 0,
        forall|u: int|
            0 <= u < items.len() && #[trigger] edge(items, u, s0) ==> !critical[u],
{
    let n = items.len() as int;
    assert forall|u: int| 0 <= u < n && #[trigger] edge(items, u, s0) implies !critical[u] by {
        if critical[u] {
            crate::model::lemma_wf_edge_iff_blocker(items, u, s0);
            let k4 = choose|k4: int|
                0 <= k4 < items[s0].blocked_by@.len() && (#[trigger] items[s0].blocked_by@[k4])@
                    == items[u].id@;
            assert(crit_dep_before(
                items,
                critical,
                s0,
                items[s0].blocked_by@.len() as int,
            ));
        }
    }
    assert(chain_start(items, total as int, s0)) by {
        assert(on_chain_of(items, s0, total as int));
        assert forall|u: int|
            0 <= u < n && #[trigger] edge(items, u, s0) implies !on_chain_of(
            items,
            u,
            total as int,
        ) by {
            assert(!critical[u]);
        }
    }
    assert forall|x: int| 0 <= x < s0 implies !chain_start(items, total as int, x) by {
        if chain_start(items, total as int, x) {
            assert(critical[x]);
            assert(crit_dep_before(items, critical, x, items[x].blocked_by@.len() as int));
            let (k4, u) = choose|k4: int, u: int|
                #![trigger items[x].blocked_by@[k4], critical[u]]
                0 <= k4 < items[x].blocked_by@.len() && 0 <= u < n && (items[x].blocked_by@[k4])@
                    == items[u].id@ && critical[u];
            assert(declares_blocker(items, x, u));
            assert(edge(items, u, x));
            assert(on_chain_of(items, u, total as int));
            assert(false);
        }
    }
    lemma_start_es_zero(items, esv, efv, lsv, critical, total as int, s0);
}

/// Extending the walk by its first flagged successor preserves every
/// structural fact the reconstruction tracks.
#[verifier::rlimit(100)]
proof fn lemma_extend_step(
    items: Seq<BeadNode>,
    order: Seq<usize>,
    critical: Seq<bool>,
    prev: Seq<int>,
    prev_path: Seq<String>,
    newid: String,
    u: int,
    prev_cur: int,
)
    requires
        complete_respecting_order(items, order),
        critical.len() == items.len(),
        is_walk(items, prev),
        prev.len() == prev_path.len(),
        prev.len() >= 1,
        forall|p: int| 0 <= p < prev.len() ==> 0 <= #[trigger] prev[p] < items.len(),
        forall|p: int| 0 <= p < prev.len() ==> items[#[trigger] prev[p]].id@ == prev_path[p]@,
        forall|p: int| 0 <= p < prev.len() ==> critical[#[trigger] prev[p]],
        prev[prev.len() - 1] == prev_cur,
        forall|p: int| 0 <= p < prev.len() - 1 ==> edge(items, #[trigger] prev[p], prev[p + 1]),
        forall|p: int|
            0 <= p < prev.len() - 1 ==> pos_in(order, #[trigger] prev[p]) < pos_in(
                order,
                prev[p + 1],
            ),
        forall|p: int|
            0 <= p < prev.len() ==> 0 <= pos_in(order, #[trigger] prev[p]) < items.len() && (
            order[pos_in(order, #[trigger] prev[p])] as int) == prev[p],
        0 <= u < items.len(),
        critical[u],
        edge(items, prev_cur, u),
        newid@ == items[u].id@,
    ensures
        is_walk(items, prev.push(u)),
        prev.push(u).len() == prev_path.push(newid).len(),
        forall|p: int|
            0 <= p < prev.push(u).len() ==> 0 <= #[trigger] prev.push(u)[p] < items.len(),
        forall|p: int|
            0 <= p < prev.push(u).len() ==> items[#[trigger] prev.push(u)[p]].id@
                == prev_path.push(newid)[p]@,
        forall|p: int| 0 <= p < prev.push(u).len() ==> critical[#[trigger] prev.push(u)[p]],
        prev.push(u)[prev.push(u).len() - 1] == u,
        prev.push(u)[0] == prev[0],
        forall|p: int|
            0 <= p < prev.push(u).len() - 1 ==> edge(
                items,
                #[trigger] prev.push(u)[p],
                prev.push(u)[p + 1],
            ),
        forall|p: int|
            0 <= p < prev.push(u).len() - 1 ==> pos_in(order, #[trigger] prev.push(u)[p])
                < pos_in(order, prev.push(u)[p + 1]),
        forall|p: int|
            0 <= p < prev.push(u).len() ==> 0 <= pos_in(order, #[trigger] prev.push(u)[p])
                < items.len() && (order[pos_in(order, #[trigger] prev.push(u)[p])] as int)
                == prev.push(u)[p],
        dur_sum(items, prev.push(u)) == dur_sum(items, prev) + spec_duration(items[u]),
{
    let w = prev.push(u);
    lemma_walk_push(items, prev, u);
    lemma_dur_sum_snoc(items, prev, u);
    lemma_complete_order_onto(items, order, u);
    let pc = pos_in(order, prev_cur);
    let pu = pos_in(order, u);
    assert(edge(items, order[pc] as int, order[pu] as int));
    assert(pc < pu);
    assert forall|p: int| 0 <= p < w.len() - 1 implies edge(items, #[trigger] w[p], w[p + 1]) by {
        if p < prev.len() - 1 {
            assert(w[p] == prev[p]);
            assert(w[p + 1] == prev[p + 1]);
            assert(edge(items, prev[p], prev[p + 1]));
        } else {
            assert(w[p] == prev_cur);
        }
    }
    assert forall|p: int|
        0 <= p < w.len() - 1 implies pos_in(order, #[trigger] w[p]) < pos_in(order, w[p + 1]) by {
        if p < prev.len() - 1 {
            assert(w[p] == prev[p]);
            assert(w[p + 1] == prev[p + 1]);
            assert(pos_in(order, prev[p]) < pos_in(order, prev[p + 1]));
        } else {
            assert(w[p] == prev_cur);
        }
    }
}

/// A walk over all items whose positions strictly increase ends at the
/// final position, so nothing follows its last item.
proof fn lemma_full_walk_last(items: Seq<BeadNode>, order: Seq<usize>, widx: Seq<int>, cur: int)
    requires
        complete_respecting_order(items, order),
        widx.len() == items.len(),
        widx.len() >= 1,
        widx[widx.len() - 1] == cur,
        0 <= cur < items.len(),
        forall|p: int|
            0 <= p < widx.len() - 1 ==> pos_in(order, #[trigger] widx[p]) < pos_in(
                order,
                widx[p + 1],
            ),
        forall|p: int|
            0 <= p < widx.len() ==> 0 <= pos_in(order, #[trigger] widx[p]) < items.len() && (
            order[pos_in(order, #[trigger] widx[p])] as int) == widx[p],
    ensures
        forall|u: int| 0 <= u < items.len() ==> !edge(items, cur, u),
{
    lemma_mono_pos_lower(order, widx, widx.len() - 1);
    assert(pos_in(order, cur) >= items.len() - 1);
    assert forall|u: int| 0 <= u < items.len() implies !edge(items, cur, u) by {
        if edge(items, cur, u) {
            lemma_complete_order_onto(items, order, u);
            let pu = pos_in(order, u);
            assert(edge(items, order[pos_in(order, cur)] as int, order[pu] as int));
            assert(pos_in(order, cur) < pu);
        }
    }
}

/// At the end of the reconstruction the tracked walk certifies the path
/// shape, and, when the critical subgraph does not branch, the full
/// longest-chain duration.
#[verifier::rlimit(100)]
proof fn lemma_assemble_path(
    items: Seq<BeadNode>,
    order: Seq<usize>,
    esv: Seq<u64>,
    efv: Seq<u64>,
    lsv: Seq<u64>,
    critical: Seq<bool>,
    total: u64,
    widx: Seq<int>,
    pathv: Seq<String>,
    s0: int,
    cur: int,
)
    requires
        well_formed(items),
        passes_ok(items, esv, efv, lsv, critical, total as int),
        is_walk(items, widx),
        widx.len() == pathv.len(),
        widx.len() >= 1,
        forall|p: int| 0 <= p < widx.len() ==> 0 <= #[trigger] widx[p] < items.len(),
        forall|p: int| 0 <= p < widx.len() ==> items[#[trigger] widx[p]].id@ == pathv[p]@,
        forall|p: int| 0 <= p < widx.len() ==> critical[#[trigger] widx[p]],
        widx[widx.len() - 1] == cur,
        widx[0] == s0,
        chain_start(items, total as int, s0),
        forall|x: int| 0 <= x < s0 ==> !chain_start(items, total as int, x),
        forall|p: int| 0 <= p < widx.len() - 1 ==> edge(items, #[trigger] widx[p], widx[p + 1]),
        forall|p: int|
            0 <= p < widx.len() - 1 ==> pos_in(order, #[trigger] widx[p]) < pos_in(
                order,
                widx[p + 1],
            ),
        0 <= cur < items.len(),
        forall|u: int| 0 <= u < items.len() && #[trigger] edge(items, cur, u) ==> !critical[u],
        unique_critical_succ(items, total as int) ==> dur_sum(items, widx) == efv[cur] as int,
    ensures
        reconstructed_path(items, total as int, pathv),
        unique_critical_succ(items, total as int) ==> chain_of_ids(items, total as int, pathv),
{
    lemma_mono_pos_nodup(order, widx);
    assert forall|p: int| 0 <= p < widx.len() implies on_chain_of(
        items,
        #[trigger] widx[p],
        total as int,
    ) by {
        assert(critical[widx[p]]);
    }
    assert forall|u: int|
        0 <= u < items.len() && #[trigger] edge(items, widx[widx.len() - 1], u)
            implies !on_chain_of(items, u, total as int) by {
        assert(!critical[u]);
    }
    assert(reconstructed_path(items, total as int, pathv));
    if unique_critical_succ(items, total as int) {
        lemma_no_crit_succ_total(items, esv, efv, lsv, critical, total as int, cur);
        assert(dur_sum(items, widx) == total as int);
        assert(chain_of_ids(items, total as int, pathv));
    }
}

/// When every flagged item keeps a flagged blocker, no item qualifies as
/// a chain start.
proof fn lemma_all_trapped_no_start(
    items: Seq<BeadNode>,
    esv: Seq<u64>,
    efv: Seq<u64>,
    lsv: Seq<u64>,
    critical: Seq<bool>,
    total: u64,
)
    requires
        well_formed(items),
        passes_ok(items, esv, efv, lsv, critical, total as int),
        forall|x: int|
            0 <= x < items.len() && critical[x] ==> crit_dep_before(
                items,
                critical,
                x,
                (#[trigger] items[x].blocked_by@).len() as int,
            ),
    ensures
        no_chain_start(items, total as int),
{
    let n = items.len() as int;
    assert forall|x: int| 0 <= x < n implies !chain_start(items, total as int, x) by {
        if chain_start(items, total as int, x) {
            assert(critical[x]);
            assert(crit_dep_before(items, critical, x, items[x].blocked_by@.len() as int));
            let (k4, u) = choose|k4: int, u: int|
                #![trigger items[x].blocked_by@[k4], critical[u]]
                0 <= k4 < items[x].blocked_by@.len() && 0 <= u < n && (items[x].blocked_by@[k4])@
                    == items[u].id@ && critical[u];
            assert(declares_blocker(items, x, u));
            assert(edge(items, u, x));
            assert(on_chain_of(items, u, total as int));
            assert(false);
        }
    }
}

/// Reconstruct one longest-duration chain from the criticality flags:
/// start at the first flagged item with no flagged blocker and follow, at
/// each step, the first flagged successor in the out-edge list. On
/// well-formed acyclic input such a start always exists; the fallback that
/// lists the flagged items in item order is kept for other inputs.
#[verifier::rlimit(100)]
fn reconstruct_path(
    beads: &Vec<BeadNode>,
    snap: &crate::snapshot::Snapshot,
    critical: &Vec<bool>,
    total: u64,
    Ghost(order): Ghost<Seq<usize>>,
    Ghost(esv): Ghost<Seq<u64>>,
    Ghost(efv): Ghost<Seq<u64>>,
    Ghost(lsv): Ghost<Seq<u64>>,
) -> (path: Vec<String>)
    requires
        beads@.len() >= 1,
        snap_wf(*snap, beads@),
        critical@.len() == beads@.len(),
        kahn_post(beads@, order),
        order.len() == beads@.len(),
        well_formed(beads@) && sums_fit(beads@) ==> passes_ok(
            beads@,
            esv,
            efv,
            lsv,
            critical@,
            total as int,
        ),
        well_formed(beads@) && sums_fit(beads@) ==> exists|x: int|
            0 <= x < beads@.len() && #[trigger] critical@[x],
    ensures
        forall|p: int|
            0 <= p < path@.len() ==> crit_entry(beads@, critical@, (#[trigger] path@[p])@),
        well_formed(beads@) && sums_fit(beads@) ==> path@.len() >= 1,
        well_formed(beads@) && sums_fit(beads@) ==> (reconstructed_path(beads@, total as int, path@)
            || (no_chain_start(beads@, total as int) && path@.map_values(|x: String| x@)
            == critical_id_list(beads@, total as int, beads@.len() as int))),
        well_formed(beads@) && sums_fit(beads@) && unique_critical_succ(beads@, total as int)
            ==> (chain_of_ids(beads@, total as int, path@) || no_chain_start(
            beads@,
            total as int,
        )),
{
    let ghost items = beads@;
    let n = beads.len();
    // find the first flagged item without a flagged blocker
    let mut start: Option<usize> = None;
    let mut v2: usize = 0;
    while v2 < n && start.is_none()
        invariant
            n == items.len(),
            beads@ == items,
            critical@.len() == n,
            v2 <= n,
            match start {
                Some(sv) => {
                    &&& 0 <= (sv as int) < n
                    &&& critical@[sv as int]
                    &&& (well_formed(items) ==> !crit_dep_before(
                        items,
                        critical@,
                        sv as int,
                        items[sv as int].blocked_by@.len() as int,
                    ))
                    &&& (well_formed(items) ==> forall|x: int|
                        0 <= x < sv as int && critical@[x] ==> crit_dep_before(
                            items,
                            critical@,
                            x,
                            (#[trigger] items[x].blocked_by@).len() as int,
                        ))
                },
                None => well_formed(items) ==> forall|x: int|
                    0 <= x < v2 && critical@[x] ==> crit_dep_before(
                        items,
                        critical@,
                        x,
                        (#[trigger] items[x].blocked_by@).len() as int,
                    ),
            },
        decreases n - v2,
    {
        if critical[v2] {
            let m2 = beads[v2].blocked_by.len();
            let mut has_crit_dep = false;
            let mut k2: usize = 0;
            while k2 < m2
                invariant
                    n == items.len(),
                    beads@ == items,
                    critical@.len() == n,
                    v2 < n,
                    m2 == items[v2 as int].blocked_by@.len(),
                    k2 <= m2,
                    well_formed(items) ==> (has_crit_dep <==> crit_dep_before(
                        items,
                        critical@,
                        v2 as int,
                        k2 as int,
                    )),
                decreases m2 - k2,
            {
                let ghost had = has_crit_dep;
                match crate::snapshot::index_of_id(beads, &beads[v2].blocked_by[k2]) {
                    Some(u) => {
                        if critical[u] {
                            has_crit_dep = true;
                            proof {
                                assert((items[v2 as int].blocked_by@[k2 as int])@ == items[
                                u as int].id@);
                                assert(crit_dep_before(
                                    items,
                                    critical@,
                                    v2 as int,
                                    k2 as int + 1,
                                ));
                            }
                        } else {
                            proof {
                                if well_formed(items) && !had && crit_dep_before(
                                    items,
                                    critical@,
                                    v2 as int,
                                    k2 as int + 1,
                                ) {
                                    let (k4, u2) = choose|k4: int, u2: int|
                                        #![trigger items[v2 as int].blocked_by@[k4], critical@[u2]]
                                        0 <= k4 < k2 as int + 1 && 0 <= u2 < n && (items[
                                        v2 as int].blocked_by@[k4])@ == items[u2].id@
                                            && critical@[u2];
                                    assert(k4 == k2 as int);
                                    assert(items[u2].id@ == items[u as int].id@);
                                    assert(u2 == u as int) by {
                                        if u2 != u as int {
                                            if u2 < u as int {
                                                assert(items[u2].id@ != items[u as int].id@);
                                            } else {
                                                assert(items[u as int].id@ != items[u2].id@);
                                            }
                                        }
                                    }
                                    assert(false);
                                }
                            }
                        }
                    },
                    None => {
                        proof {
                            if well_formed(items) && !had && crit_dep_before(
                                items,
                                critical@,
                                v2 as int,
                                k2 as int + 1,
                            ) {
                                let (k4, u2) = choose|k4: int, u2: int|
                                    #![trigger items[v2 as int].blocked_by@[k4], critical@[u2]]
                                    0 <= k4 < k2 as int + 1 && 0 <= u2 < n && (items[
                                    v2 as int].blocked_by@[k4])@ == items[u2].id@ && critical@[u2];
                                assert(k4 == k2 as int);
                                assert((#[trigger] beads@[u2]).id@ != (items[
                                v2 as int].blocked_by@[k2 as int])@);
                                assert(false);
                            }
                        }
                    },
                }
                k2 = k2 + 1;
            }
            if !has_crit_dep {
                start = Some(v2);
            }
        }
        v2 = v2 + 1;
    }
    let ghost gate = well_formed(beads@) && sums_fit(beads@);
    let path: Vec<String> = match start {
        Some(s0) => follow_chain(
            beads,
            snap,
            critical,
            total,
            s0,
            Ghost(gate),
            Ghost(order),
            Ghost(esv),
            Ghost(efv),
            Ghost(lsv),
        ),
        None => fallback_list(beads, critical, total, Ghost(esv), Ghost(efv), Ghost(lsv)),
    };
    path
}

/// Follow the chain from a start item: push it, then repeatedly step to a
/// flagged successor from the out-edge list until none remains.
#[verifier::rlimit(100)]
fn follow_chain(
    beads: &Vec<BeadNode>,
    snap: &crate::snapshot::Snapshot,
    critical: &Vec<bool>,
    total: u64,
    s0: usize,
    Ghost(g): Ghost<bool>,
    Ghost(order): Ghost<Seq<usize>>,
    Ghost(esv): Ghost<Seq<u64>>,
    Ghost(efv): Ghost<Seq<u64>>,
    Ghost(lsv): Ghost<Seq<u64>>,
) -> (path: Vec<String>)
    requires
        beads@.len() >= 1,
        snap_wf(*snap, beads@),
        critical@.len() == beads@.len(),
        kahn_post(beads@, order),
        order.len() == beads@.len(),
        0 <= (s0 as int) < beads@.len(),
        critical@[s0 as int],
        g ==> well_formed(beads@),
        g ==> passes_ok(beads@, esv, efv, lsv, critical@, total as int),
        g ==> !crit_dep_before(
            beads@,
            critical@,
            s0 as int,
            beads@[s0 as int].blocked_by@.len() as int,
        ),
        g ==> forall|x: int|
            0 <= x < s0 as int && critical@[x] ==> crit_dep_before(
                beads@,
                critical@,
                x,
                (#[trigger] beads@[x].blocked_by@).len() as int,
            ),
    ensures
        forall|p: int|
            0 <= p < path@.len() ==> crit_entry(beads@, critical@, (#[trigger] path@[p])@),
        path@.len() >= 1,
        g ==> reconstructed_path(beads@, total as int, path@),
        g && unique_critical_succ(beads@, total as int) ==> chain_of_ids(
            beads@,
            total as int,
            path@,
        ),
{
    let ghost items = beads@;
    let n = beads.len();
    let mut path: Vec<String> = Vec::new();
    let mut cur = s0;
    let mut done = false;
    let ghost mut widx: Seq<int> = seq![s0 as int];
    path.push(beads[s0].id.clone());
    proof {
        assert(path@[0]@ == items[s0 as int].id@);
        assert(crit_entry(items, critical@, path@[0]@));
        assert(is_walk(items, widx));
        if g {
            lemma_start_facts(items, esv, efv, lsv, critical@, total, s0 as int);
            assert(dur_sum(items, widx) == efv[s0 as int] as int) by {
                assert(widx.drop_first() =~= Seq::<int>::empty());
                assert(dur_sum(items, Seq::<int>::empty()) == 0);
                assert(widx[0] == s0 as int);
            }
            lemma_complete_order_onto(items, order, s0 as int);
        }
    }
    while path.len() < n && !done
        invariant
            n == items.len(),
            beads@ == items,
            critical@.len() == n,
            snap_wf(*snap, items),
            kahn_post(items, order),
            order.len() == n,
            g ==> well_formed(items),
            0 <= (cur as int) < n,
            0 <= (s0 as int) < n,
            critical@[cur as int],
            1 <= path@.len() <= n,
            forall|p: int|
                0 <= p < path@.len() ==> crit_entry(items, critical@, (#[trigger] path@[p])@),
            g ==> {
                &&& passes_ok(items, esv, efv, lsv, critical@, total as int)
                &&& is_walk(items, widx)
                &&& widx.len() == path@.len()
                &&& (forall|p: int| 0 <= p < widx.len() ==> 0 <= #[trigger] widx[p] < n as int)
                &&& (forall|p: int|
                    0 <= p < widx.len() ==> items[#[trigger] widx[p]].id@ == path@[p]@)
                &&& (forall|p: int| 0 <= p < widx.len() ==> critical@[#[trigger] widx[p]])
                &&& widx[widx.len() - 1] == cur as int
                &&& widx[0] == s0 as int
                &&& chain_start(items, total as int, s0 as int)
                &&& (forall|x: int| 0 <= x < s0 as int ==> !chain_start(items, total as int, x))
                &&& (forall|p: int|
                    0 <= p < widx.len() - 1 ==> edge(items, #[trigger] widx[p], widx[p + 1]))
                &&& (forall|p: int|
                    0 <= p < widx.len() - 1 ==> pos_in(order, #[trigger] widx[p]) < pos_in(
                        order,
                        widx[p + 1],
                    ))
                &&& (forall|p: int|
                    0 <= p < widx.len() ==> 0 <= pos_in(order, #[trigger] widx[p]) < n as int && (
                    order[pos_in(order, #[trigger] widx[p])] as int) == widx[p])
                &&& (unique_critical_succ(items, total as int) ==> dur_sum(items, widx) == efv[
                    cur as int] as int)
                &&& (done ==> (forall|u: int|
                    0 <= u < n && #[trigger] edge(items, cur as int, u) ==> !critical@[u]))
            },
        decreases n - path@.len() + (if done {
            0int
        } else {
            1int
        }),
    {
        // find the first flagged successor in the out-edge list
        let row_len2 = snap.out[cur].len();
        let mut nxt: Option<usize> = None;
        let mut k3: usize = 0;
        while k3 < row_len2 && nxt.is_none()
            invariant
                n == items.len(),
                critical@.len() == n,
                snap_wf(*snap, items),
                0 <= (cur as int) < n,
                row_len2 == snap.out@[cur as int]@.len(),
                k3 <= row_len2,
                match nxt {
                    Some(u) => {
                        &&& 0 <= (u as int) < n
                        &&& critical@[u as int]
                        &&& edge(items, cur as int, u as int)
                    },
                    None => forall|k4: int|
                        0 <= k4 < k3 ==> !critical@[(#[trigger] snap.out@[
                        cur as int]@[k4]) as int],
                },
            decreases row_len2 - k3,
        {
            let u = snap.out[cur][k3];
            if critical[u] {
                proof {
                    assert(snap.out@[cur as int]@[k3 as int] == u);
                    assert(snap.out@[cur as int]@.contains(u));
                    assert(edge(items, cur as int, u as int));
                }
                nxt = Some(u);
            }
            k3 = k3 + 1;
        }
        match nxt {
            Some(u) => {
                let ghost prev_path = path@;
                let ghost prev_widx = widx;
                let ghost prev_cur = cur;
                path.push(beads[u].id.clone());
                cur = u;
                proof {
                    assert(path@[path@.len() - 1]@ == items[u as int].id@);
                    assert(crit_entry(items, critical@, path@[path@.len() - 1]@));
                    assert forall|p: int| 0 <= p < path@.len() implies crit_entry(
                        items,
                        critical@,
                        (#[trigger] path@[p])@,
                    ) by {
                        if p < prev_path.len() {
                            assert(path@[p] == prev_path[p]);
                        }
                    }
                    if g {
                        assert(complete_respecting_order(items, order));
                        lemma_extend_step(
                            items,
                            order,
                            critical@,
                            prev_widx,
                            prev_path,
                            path@[path@.len() - 1],
                            u as int,
                            prev_cur as int,
                        );
                        widx = prev_widx.push(u as int);
                        assert(path@ =~= prev_path.push(path@[path@.len() - 1]));
                        if unique_critical_succ(items, total as int) {
                            lemma_step_tight(
                                items,
                                esv,
                                efv,
                                lsv,
                                critical@,
                                total as int,
                                prev_cur as int,
                                u as int,
                            );
                            assert(dur_sum(items, widx) == efv[u as int] as int);
                        }
                    }
                }
            },
            None => {
                proof {
                    if g {
                        assert forall|u: int|
                            0 <= u < n && #[trigger] edge(items, cur as int, u)
                                implies !critical@[u] by {
                            assert(snap.out@[cur as int]@.contains(u as usize));
                            let k4 = choose|k4: int|
                                0 <= k4 < snap.out@[cur as int]@.len() && (#[trigger] snap.out@[
                                cur as int]@[k4]) == u as usize;
                        }
                    }
                }
                done = true;
            },
        }
    }
    proof {
        if g {
            if !done {
                // the walk covers every item, so nothing follows it
                assert(path@.len() == n);
                assert(complete_respecting_order(items, order));
                lemma_full_walk_last(items, order, widx, cur as int);
            }
            lemma_assemble_path(
                items,
                order,
                esv,
                efv,
                lsv,
                critical@,
                total,
                widx,
                path@,
                s0 as int,
                cur as int,
            );
        }
    }
    path
}

/// The fallback when no flagged item lacks a flagged blocker: list the
/// flagged items themselves, in item order.
#[verifier::rlimit(100)]
fn fallback_list(
    beads: &Vec<BeadNode>,
    critical: &Vec<bool>,
    total: u64,
    Ghost(esv): Ghost<Seq<u64>>,
    Ghost(efv): Ghost<Seq<u64>>,
    Ghost(lsv): Ghost<Seq<u64>>,
) -> (path: Vec<String>)
    requires
        beads@.len() >= 1,
        critical@.len() == beads@.len(),
        well_formed(beads@) && sums_fit(beads@) ==> passes_ok(
            beads@,
            esv,
            efv,
            lsv,
            critical@,
            total as int,
        ),
        well_formed(beads@) && sums_fit(beads@) ==> exists|x: int|
            0 <= x < beads@.len() && #[trigger] critical@[x],
        well_formed(beads@) ==> forall|x: int|
            0 <= x < beads@.len() && critical@[x] ==> crit_dep_before(
                beads@,
                critical@,
                x,
                (#[trigger] beads@[x].blocked_by@).len() as int,
            ),
    ensures
        forall|p: int|
            0 <= p < path@.len() ==> crit_entry(beads@, critical@, (#[trigger] path@[p])@),
        well_formed(beads@) && sums_fit(beads@) ==> {
            &&& path@.len() >= 1
            &&& no_chain_start(beads@, total as int)
            &&& path@.map_values(|x: String| x@) == critical_id_list(
                beads@,
                total as int,
                beads@.len() as int,
            )
        },
{
    let ghost items = beads@;
    let n = beads.len();
    let mut path: Vec<String> = Vec::new();
    proof {
        if well_formed(items) && sums_fit(items) {
            lemma_all_trapped_no_start(items, esv, efv, lsv, critical@, total);
        }
    }
    for v3 in 0..n
        invariant
            n == items.len(),
            beads@ == items,
            critical@.len() == n,
            forall|p: int|
                0 <= p < path@.len() ==> crit_entry(items, critical@, (#[trigger] path@[p])@),
            path@.len() >= 1 || (forall|x: int| 0 <= x < v3 ==> !(#[trigger] critical@[x])),
            well_formed(items) && sums_fit(items) ==> {
                &&& passes_ok(items, esv, efv, lsv, critical@, total as int)
                &&& no_chain_start(items, total as int)
                &&& path@.map_values(|x: String| x@) == critical_id_list(
                    items,
                    total as int,
                    v3 as int,
                )
            },
    {
        let ghost prev_path = path@;
        if critical[v3] {
            path.push(beads[v3].id.clone());
            proof {
                assert(path@[path@.len() - 1]@ == items[v3 as int].id@);
                assert(crit_entry(items, critical@, path@[path@.len() - 1]@));
                assert forall|p: int| 0 <= p < path@.len() implies crit_entry(
                    items,
                    critical@,
                    (#[trigger] path@[p])@,
                ) by {
                    if p < prev_path.len() {
                        assert(path@[p] == prev_path[p]);
                    }
                }
            }
        }
        proof {
            if well_formed(items) && sums_fit(items) {
                if on_chain_of(items, v3 as int, total as int) {
                    assert(critical@[v3 as int]);
                    assert(path@.map_values(|x: String| x@) =~= critical_id_list(
                        items,
                        total as int,
                        v3 as int + 1,
                    ));
                } else {
                    assert(!critical@[v3 as int]);
                    assert(path@ == prev_path);
                    assert(path@.map_values(|x: String| x@) =~= critical_id_list(
                        items,
                        total as int,
                        v3 as int + 1,
                    ));
                }
            }
        }
    }
    proof {
        if well_formed(items) && sums_fit(items) {
            let x0 = choose|x: int| 0 <= x < n && #[trigger] critical@[x];
            assert(on_chain_of(items, x0, total as int));
            assert(path@.len() >= 1);
        }
    }
    path
}


} // verus!
