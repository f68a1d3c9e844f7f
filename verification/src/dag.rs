//! Structural questions over the dependency graph: cycle existence, cycle
//! membership, the outward adjacency view, and readiness.
//!
//! Cycle existence is answered through the same Kahn pass as the sorter;
//! cycle membership reports every item inside a strongly connected component
//! of size greater than one, which the reachability closure decides.

use vstd::prelude::*;
use crate::BeadNode;
use crate::model::edge;
use crate::model::well_formed;
use crate::model::has_cycle_spec;
use crate::model::is_closed_walk;
use crate::model::ids_distinct;
use crate::snapshot::build_snapshot;
use crate::snapshot::contains_str;
use crate::topo::kahn_order;
use crate::model::in_cycle;
use crate::model::reaches;
use crate::model::is_walk;
use crate::model::lemma_walk_join;
use crate::model::ends_at;
use crate::model::starts_at;
use crate::snapshot::snap_wf;

verus! {

/// True when the dependency graph of at least two items contains a directed
/// cycle; graphs with fewer than two items report none.
pub fn has_cycle_internal(beads: &Vec<BeadNode>) -> (r: bool)
    ensures
        beads@.len() < 2 ==> r == false,
        well_formed(beads@) && beads@.len() >= 2 ==> r == has_cycle_spec(beads@),
        well_formed(beads@) && !(beads@.len() == 1 && edge(beads@, 0, 0)) ==> r == has_cycle_spec(
            beads@,
        ),
{
    let n = beads.len();
    if n < 2 {
        proof {
            if !(beads@.len() == 1 && edge(beads@, 0, 0)) && has_cycle_spec(beads@) {
                let w = choose|w: Seq<int>| is_closed_walk(beads@, w);
                assert(0 <= w[0] < beads@.len());
                assert(beads@.len() == 1);
                assert(w[0] == 0 && w[1] == 0);
                assert(edge(beads@, w[0int], w[1int]));
            }
        }
        return false;
    }
    let s = build_snapshot(beads);
    let kr = kahn_order(&s, Ghost(beads@));
    kr.order.len() != n
}

/// Some item carries this id and is closed.
pub open spec fn blocker_closed(items: Seq<BeadNode>, id: Seq<char>) -> bool {
    exists|j: int|
        0 <= j < items.len() && (#[trigger] items[j]).id@ == id && items[j].status@ == "closed"@
}

/// An open item whose every declared blocker names a closed item. A blocker
/// naming no known item keeps the item blocked.
pub open spec fn is_ready(items: Seq<BeadNode>, u: int) -> bool {
    &&& items[u].status@ != "closed"@
    &&& forall|k: int|
        0 <= k < items[u].blocked_by@.len() ==> blocker_closed(
            items,
            (#[trigger] items[u].blocked_by@[k])@,
        )
}

/// The ids of the ready items among the first `upto`, in item order.
pub open spec fn ready_ids(items: Seq<BeadNode>, upto: int) -> Seq<Seq<char>>
    decreases upto,
{
    if upto <= 0 {
        Seq::empty()
    } else {
        ready_ids(items, upto - 1) + if is_ready(items, upto - 1) {
            seq![items[upto - 1].id@]
        } else {
            Seq::<Seq<char>>::empty()
        }
    }
}

/// Is this item's status the label `"closed"`?
fn status_closed(b: &BeadNode) -> (r: bool)
    ensures
        r == (b.status@ == "closed"@),
{
    let closed: String = "closed".to_owned();
    b.status == closed
}

/// Does some item carry this id with status `"closed"`?
fn closed_item_exists(beads: &Vec<BeadNode>, id: &String) -> (r: bool)
    ensures
        r == blocker_closed(beads@, id@),
{
    let n = beads.len();
    for j in 0..n
        invariant
            n == beads@.len(),
            forall|i: int|
                0 <= i < j ==> !((#[trigger] beads@[i]).id@ == id@ && beads@[i].status@
                    == "closed"@),
    {
        if beads[j].id == *id && status_closed(&beads[j]) {
            return true;
        }
    }
    false
}

/// The items ready to work on: open, with every declared blocker closed.
/// Returned in item order.
pub fn get_ready_beads_internal(beads: &Vec<BeadNode>) -> (r: Vec<String>)
    ensures
        r@.map_values(|x: String| x@) == ready_ids(beads@, beads@.len() as int),
        beads@.len() == 0 ==> r@.len() == 0,
{
    let n = beads.len();
    let mut ready: Vec<String> = Vec::new();
    for u in 0..n
        invariant
            n == beads@.len(),
            ready@.map_values(|x: String| x@) == ready_ids(beads@, u as int),
    {
        let ghost prev = ready@;
        if !status_closed(&beads[u]) {
            let m = beads[u].blocked_by.len();
            let mut all_closed = true;
            for k in 0..m
                invariant
                    n == beads@.len(),
                    0 <= u < n,
                    m == beads@[u as int].blocked_by@.len(),
                    all_closed == forall|i: int|
                        0 <= i < k ==> blocker_closed(
                            beads@,
                            (#[trigger] beads@[u as int].blocked_by@[i])@,
                        ),
            {
                if !closed_item_exists(beads, &beads[u].blocked_by[k]) {
                    all_closed = false;
                }
            }
            if all_closed {
                ready.push(beads[u].id.clone());
                proof {
                    assert(is_ready(beads@, u as int));
                }
            } else {
                proof {
                    assert(!is_ready(beads@, u as int));
                }
            }
        } else {
            proof {
                assert(!is_ready(beads@, u as int));
            }
        }
        proof {
            if is_ready(beads@, u as int) {
                assert(ready@.map_values(|x: String| x@) =~= ready_ids(beads@, u as int + 1));
            } else {
                assert(ready@ == prev);
                assert(ready@.map_values(|x: String| x@) =~= ready_ids(beads@, u as int + 1));
            }
        }
    }
    ready
}

/// The adjacency export: each item's id mapped to its declared `blocks`
/// list, verbatim and in declaration order. The `blocked_by` view is not
/// merged in here.
pub fn build_adjacency_internal(beads: &Vec<BeadNode>) -> (r: Vec<(String, Vec<String>)>)
    ensures
        beads@.len() == 0 ==> r@.len() == 0,
        ids_distinct(beads@) ==> {
            &&& r@.len() == beads@.len()
            &&& forall|i: int| 0 <= i < r@.len() ==> (#[trigger] r@[i].0)@ == beads@[i].id@
            &&& forall|i: int|
                0 <= i < r@.len() ==> (#[trigger] r@[i].1)@.map_values(|x: String| x@)
                    == beads@[i].blocks@.map_values(|x: String| x@)
        },
{
    let n = beads.len();
    let mut adjacency: Vec<(String, Vec<String>)> = Vec::new();
    for u in 0..n
        invariant
            n == beads@.len(),
            ids_distinct(beads@) ==> {
                &&& adjacency@.len() == u
                &&& forall|i: int|
                    0 <= i < u as int ==> (#[trigger] adjacency@[i].0)@ == beads@[i].id@
                &&& forall|i: int|
                    0 <= i < u as int ==> (#[trigger] adjacency@[i].1)@.map_values(
                        |x: String| x@,
                    ) == beads@[i].blocks@.map_values(|x: String| x@)
            },
    {
        // merge into an existing entry when the id repeats
        let mut found = false;
        let mut at: usize = 0;
        let m = adjacency.len();
        for i in 0..m
            invariant
                m == adjacency@.len(),
                0 <= u < n,
                n == beads@.len(),
                found ==> at < m && adjacency@[at as int].0@ == beads@[u as int].id@,
                !found ==> forall|i2: int|
                    0 <= i2 < i ==> (#[trigger] adjacency@[i2].0)@ != beads@[u as int].id@,
        {
            if !found && adjacency[i].0 == beads[u].id {
                found = true;
                at = i;
            }
        }
        if found {
            proof {
                if ids_distinct(beads@) {
                    assert(adjacency@[at as int].0@ == beads@[at as int].id@);
                    assert(beads@[at as int].id@ == beads@[u as int].id@);
                    if (at as int) < u as int {
                        assert(false);
                    }
                    assert(false);
                }
            }
            let mut row = adjacency[at].1.clone();
            let bl = beads[u].blocks.len();
            for k in 0..bl
                invariant
                    bl == beads@[u as int].blocks@.len(),
                    0 <= u < n,
                    n == beads@.len(),
            {
                row.push(beads[u].blocks[k].clone());
            }
            let id = adjacency[at].0.clone();
            adjacency[at] = (id, row);
        } else {
            let mut row: Vec<String> = Vec::new();
            let bl = beads[u].blocks.len();
            for k in 0..bl
                invariant
                    bl == beads@[u as int].blocks@.len(),
                    0 <= u < n,
                    n == beads@.len(),
                    row@.len() == k,
                    forall|k2: int|
                        0 <= k2 < k ==> (#[trigger] row@[k2])@ == beads@[u as int].blocks@[k2]@,
            {
                row.push(beads[u].blocks[k].clone());
            }
            adjacency.push((beads[u].id.clone(), row));
            proof {
                if ids_distinct(beads@) {
                    assert forall|i: int| 0 <= i < u as int + 1 implies (
                    #[trigger] adjacency@[i].1)@.map_values(|x: String| x@) == beads@[i].blocks@.map_values(
                        |x: String| x@,
                    ) by {
                        if i == u as int {
                            assert(adjacency@[i].1@.map_values(|x: String| x@)
                                =~= beads@[i].blocks@.map_values(|x: String| x@));
                        }
                    }
                }
            }
        }
    }
    adjacency
}

/// The execution waves plus the size of the largest wave. A cyclic graph
/// is rejected.
pub fn compute_levels_internal(beads: &Vec<BeadNode>) -> (r: Result<
    crate::LevelsResult,
    crate::GraphError,
>)
    ensures
        beads@.len() == 0 ==> (r matches Ok(lr) ==> lr.levels@.len() == 0 && lr.max_parallelism
            == 0) && !(r matches Err(_)),
        well_formed(beads@) ==> ((r matches Ok(_)) <==> !has_cycle_spec(beads@)),
        r matches Err(e) ==> (e matches crate::GraphError::CycleDetected),
        well_formed(beads@) ==> match r {
            Ok(lr) => {
                &&& crate::topo::waves_certified(beads@, crate::topo::wave_view(lr.levels@))
                &&& (forall|L: int|
                    0 <= L < lr.levels@.len() ==> (#[trigger] lr.levels@[L])@.len()
                        <= lr.max_parallelism)
                &&& (lr.levels@.len() > 0 ==> exists|L: int|
                    0 <= L < lr.levels@.len() && (#[trigger] lr.levels@[L])@.len()
                        == lr.max_parallelism)
                &&& (lr.levels@.len() == 0 ==> lr.max_parallelism == 0)
            },
            Err(_) => has_cycle_spec(beads@),
        },
{
    let waves = match crate::topo::get_execution_order_internal(beads) {
        Ok(w) => w,
        Err(e) => {
            return Err(e);
        },
    };
    let m = waves.len();
    let mut mp: usize = 0;
    let mut at: usize = 0;
    for l in 0..m
        invariant
            m == waves@.len(),
            forall|j: int| 0 <= j < l ==> (#[trigger] waves@[j])@.len() <= mp,
            l > 0 ==> at < l && mp == waves@[at as int]@.len(),
            l == 0 ==> mp == 0,
    {
        let sz = waves[l].len();
        if l == 0 || sz > mp {
            mp = sz;
            at = l;
        }
    }
    proof {
        if well_formed(beads@) && m > 0 {
            assert(waves@[at as int]@.len() == mp);
        }
    }
    Ok(crate::LevelsResult { levels: waves, max_parallelism: mp })
}

/// The intermediate nodes of a walk all lie below `b`.
pub open spec fn walk_inter_lt(w: Seq<int>, b: int) -> bool {
    forall|i: int| 1 <= i < w.len() - 1 ==> #[trigger] w[i] < b
}

/// `u` reaches `v` by a walk whose intermediates all lie below `b`.
pub open spec fn reach_lt(items: Seq<BeadNode>, u: int, v: int, b: int) -> bool {
    exists|w: Seq<int>|
        is_walk(items, w) && w.len() >= 2 && w[0] == u && w[w.len() - 1] == v && walk_inter_lt(
            w,
            b,
        )
}

/// Bounded reachability only grows with the bound.
proof fn lemma_reach_mono(items: Seq<BeadNode>, u: int, v: int, b1: int, b2: int)
    requires
        reach_lt(items, u, v, b1),
        b1 <= b2,
    ensures
        reach_lt(items, u, v, b2),
{
    let w = choose|w: Seq<int>|
        is_walk(items, w) && w.len() >= 2 && w[0] == u && w[w.len() - 1] == v && walk_inter_lt(
            w,
            b1,
        );
    assert(walk_inter_lt(w, b2));
}

/// Two bounded walks joined at `mm` reach with the bound raised past `mm`.
proof fn lemma_reach_concat(items: Seq<BeadNode>, u: int, mm: int, v: int)
    requires
        reach_lt(items, u, mm, mm),
        reach_lt(items, mm, v, mm),
    ensures
        reach_lt(items, u, v, mm + 1),
{
    let w1 = choose|w: Seq<int>|
        is_walk(items, w) && w.len() >= 2 && w[0] == u && w[w.len() - 1] == mm && walk_inter_lt(
            w,
            mm,
        );
    let w2 = choose|w: Seq<int>|
        is_walk(items, w) && w.len() >= 2 && w[0] == mm && w[w.len() - 1] == v && walk_inter_lt(
            w,
            mm,
        );
    assert(ends_at(items, w1, mm));
    assert(starts_at(items, w2, mm));
    lemma_walk_join(items, w1, w2, mm);
    let w = w1 + w2.drop_first();
    assert(is_walk(items, w));
    assert(w.len() == w1.len() + w2.len() - 1);
    assert(w[0] == w1[0]);
    assert(w[w.len() - 1] == w2[w2.len() - 2 + 1]);
    assert(walk_inter_lt(w, mm + 1)) by {
        assert forall|i: int| 1 <= i < w.len() - 1 implies #[trigger] w[i] < mm + 1 by {
            if i < w1.len() - 1 {
                assert(w[i] == w1[i]);
                assert(w1[i] < mm);
            } else if i == w1.len() - 1 {
                assert(w[i] == w1[i]);
                assert(w1[w1.len() - 1] == mm);
            } else {
                assert(w[i] == w2[i - w1.len() + 1]);
                assert(1 <= i - w1.len() + 1 < w2.len() - 1);
                assert(w2[i - w1.len() + 1] < mm);
            }
        }
    }
    assert(reach_lt(items, u, v, mm + 1));
}

/// A walk bounded by `mm + 1` either avoids `mm` entirely or splits into
/// two walks through `mm`, each bounded by `mm`.
proof fn lemma_reach_split(items: Seq<BeadNode>, w: Seq<int>, mm: int)
    requires
        is_walk(items, w),
        w.len() >= 2,
        walk_inter_lt(w, mm + 1),
    ensures
        reach_lt(items, w[0], w[w.len() - 1], mm) || (reach_lt(items, w[0], mm, mm) && reach_lt(
            items,
            mm,
            w[w.len() - 1],
            mm,
        )),
    decreases w.len(),
{
    if forall|i: int| 1 <= i < w.len() - 1 ==> #[trigger] w[i] != mm {
        assert(walk_inter_lt(w, mm));
        assert(reach_lt(items, w[0], w[w.len() - 1], mm));
    } else {
        let i = choose|i: int| 1 <= i < w.len() - 1 && #[trigger] w[i] == mm;
        crate::model::lemma_walk_subrange(items, w, 0, i + 1);
        crate::model::lemma_walk_subrange(items, w, i, w.len() as int);
        let w1 = w.subrange(0, i + 1);
        let w2 = w.subrange(i, w.len() as int);
        assert(w1.len() >= 2 && w2.len() >= 2);
        assert(w1[0] == w[0] && w1[w1.len() - 1] == mm);
        assert(w2[0] == mm && w2[w2.len() - 1] == w[w.len() - 1]);
        assert(walk_inter_lt(w1, mm + 1)) by {
            assert forall|j: int| 1 <= j < w1.len() - 1 implies #[trigger] w1[j] < mm + 1 by {
                assert(w1[j] == w[j]);
            }
        }
        assert(walk_inter_lt(w2, mm + 1)) by {
            assert forall|j: int| 1 <= j < w2.len() - 1 implies #[trigger] w2[j] < mm + 1 by {
                assert(w2[j] == w[i + j]);
                assert(1 <= i + j < w.len() - 1);
            }
        }
        lemma_reach_split(items, w1, mm);
        assert(reach_lt(items, w[0], mm, mm)) by {
            if !reach_lt(items, w1[0], w1[w1.len() - 1], mm) {
            } else {
                lemma_reach_mono(items, w[0], mm, mm, mm);
            }
        }
        lemma_reach_split(items, w2, mm);
        assert(reach_lt(items, mm, w[w.len() - 1], mm)) by {
            if !reach_lt(items, w2[0], w2[w2.len() - 1], mm) {
            }
        }
    }
}

/// Reachability bounded by the item count is plain reachability.
proof fn lemma_reach_full(items: Seq<BeadNode>, u: int, v: int)
    ensures
        reach_lt(items, u, v, items.len() as int) <==> reaches(items, u, v),
{
    if reach_lt(items, u, v, items.len() as int) {
        let w = choose|w: Seq<int>|
            is_walk(items, w) && w.len() >= 2 && w[0] == u && w[w.len() - 1] == v
                && walk_inter_lt(w, items.len() as int);
        assert(reaches(items, u, v));
    }
    if reaches(items, u, v) {
        let w = choose|w: Seq<int>|
            is_walk(items, w) && w.len() >= 2 && w[0] == u && w[w.len() - 1] == v;
        assert(walk_inter_lt(w, items.len() as int)) by {
            assert forall|i: int| 1 <= i < w.len() - 1 implies #[trigger] w[i]
                < items.len() as int by {
                assert(0 <= w[i] < items.len());
            }
        }
        assert(reach_lt(items, u, v, items.len() as int));
    }
}

/// The ids of the items among the first `upto` that sit in a strongly
/// connected component of size greater than one, in item order.
pub open spec fn cycle_ids(items: Seq<BeadNode>, upto: int) -> Seq<Seq<char>>
    decreases upto,
{
    if upto <= 0 {
        Seq::empty()
    } else {
        cycle_ids(items, upto - 1) + if in_cycle(items, upto - 1) {
            seq![items[upto - 1].id@]
        } else {
            Seq::<Seq<char>>::empty()
        }
    }
}

/// The ids of every item participating in a cycle: members of strongly
/// connected components of size greater than one. Self-loops alone do not
/// qualify. Returned in item order.
pub fn find_cycle_nodes_internal(beads: &Vec<BeadNode>) -> (r: Vec<String>)
    ensures
        r@.map_values(|x: String| x@) == cycle_ids(beads@, beads@.len() as int),
        beads@.len() < 2 ==> r@.len() == 0,
{
    let ghost items = beads@;
    let n = beads.len();
    if n < 2 {
        proof {
            if n == 1 {
                assert(!in_cycle(items, 0));
                assert(cycle_ids(items, 1) =~= cycle_ids(items, 0));
            }
            assert(cycle_ids(items, n as int) =~= Seq::<Seq<char>>::empty());
            assert(Seq::<String>::empty().map_values(|x: String| x@) =~= Seq::<Seq<char>>::empty());
        }
        return Vec::new();
    }
    let snap = build_snapshot(beads);
    // reachability closure, one bound at a time
    let mut reach: Vec<Vec<bool>> = Vec::new();
    for u in 0..n
        invariant
            n == items.len(),
            beads@ == items,
            snap_wf(snap, items),
            reach@.len() == u,
            forall|a: int| 0 <= a < u ==> (#[trigger] reach@[a])@.len() == n,
            forall|a: int, bb: int|
                0 <= a < u && 0 <= bb < n ==> ((#[trigger] reach@[a]@[bb]) <==> reach_lt(
                    items,
                    a,
                    bb,
                    0,
                )),
    {
        let mut rowf: Vec<bool> = Vec::new();
        for v in 0..n
            invariant
                n == items.len(),
                beads@ == items,
                snap_wf(snap, items),
                0 <= u < n,
                rowf@.len() == v,
                forall|bb: int|
                    0 <= bb < v ==> ((#[trigger] rowf@[bb]) <==> reach_lt(items, u as int, bb, 0)),
        {
            let e = contains_str(&beads[u].blocks, &beads[v].id) || contains_str(
                &beads[v].blocked_by,
                &beads[u].id,
            );
            rowf.push(e);
            proof {
                if e {
                    assert(edge(items, u as int, v as int));
                    let w = seq![u as int, v as int];
                    assert(is_walk(items, w)) by {
                        assert(w[0] == u as int && w[1] == v as int);
                        assert forall|i: int| 0 <= i < w.len() - 1 implies edge(
                            items,
                            #[trigger] w[i],
                            w[i + 1],
                        ) by {
                            assert(i == 0);
                        }
                    }
                    assert(walk_inter_lt(w, 0));
                    assert(reach_lt(items, u as int, v as int, 0));
                } else {
                    assert(!edge(items, u as int, v as int));
                    if reach_lt(items, u as int, v as int, 0) {
                        let w = choose|w: Seq<int>|
                            is_walk(items, w) && w.len() >= 2 && w[0] == u as int && w[w.len() - 1]
                                == v as int && walk_inter_lt(w, 0);
                        assert(w.len() == 2) by {
                            if w.len() > 2 {
                                assert(w[1] < 0);
                                assert(0 <= w[1]);
                            }
                        }
                        assert(edge(items, w[0int], w[1int]));
                    }
                }
            }
        }
        reach.push(rowf);
    }
    let mut m: usize = 0;
    while m < n
        invariant
            n == items.len(),
            m <= n,
            reach@.len() == n,
            forall|a: int| 0 <= a < n ==> (#[trigger] reach@[a])@.len() == n,
            forall|a: int, bb: int|
                0 <= a < n && 0 <= bb < n ==> ((#[trigger] reach@[a]@[bb]) <==> reach_lt(
                    items,
                    a,
                    bb,
                    m as int,
                )),
        decreases n - m,
    {
        let mut next: Vec<Vec<bool>> = Vec::new();
        for u in 0..n
            invariant
                n == items.len(),
                m < n,
                reach@.len() == n,
                forall|a: int| 0 <= a < n ==> (#[trigger] reach@[a])@.len() == n,
                forall|a: int, bb: int|
                    0 <= a < n && 0 <= bb < n ==> ((#[trigger] reach@[a]@[bb]) <==> reach_lt(
                        items,
                        a,
                        bb,
                        m as int,
                    )),
                next@.len() == u,
                forall|a: int| 0 <= a < u ==> (#[trigger] next@[a])@.len() == n,
                forall|a: int, bb: int|
                    0 <= a < u && 0 <= bb < n ==> ((#[trigger] next@[a]@[bb]) <==> reach_lt(
                        items,
                        a,
                        bb,
                        m as int + 1,
                    )),
        {
            let mut rowf: Vec<bool> = Vec::new();
            for v in 0..n
                invariant
                    n == items.len(),
                    m < n,
                    0 <= u < n,
                    reach@.len() == n,
                    forall|a: int| 0 <= a < n ==> (#[trigger] reach@[a])@.len() == n,
                    forall|a: int, bb: int|
                        0 <= a < n && 0 <= bb < n ==> ((#[trigger] reach@[a]@[bb]) <==> reach_lt(
                            items,
                            a,
                            bb,
                            m as int,
                        )),
                    rowf@.len() == v,
                    forall|bb: int|
                        0 <= bb < v ==> ((#[trigger] rowf@[bb]) <==> reach_lt(
                            items,
                            u as int,
                            bb,
                            m as int + 1,
                        )),
            {
                let val = reach[u][v] || (reach[u][m] && reach[m][v]);
                rowf.push(val);
                proof {
                    if val {
                        if reach_lt(items, u as int, v as int, m as int) {
                            lemma_reach_mono(
                                items,
                                u as int,
                                v as int,
                                m as int,
                                m as int + 1,
                            );
                        } else {
                            lemma_reach_concat(items, u as int, m as int, v as int);
                        }
                    } else {
                        if reach_lt(items, u as int, v as int, m as int + 1) {
                            let w = choose|w: Seq<int>|
                                is_walk(items, w) && w.len() >= 2 && w[0] == u as int && w[w.len()
                                    - 1] == v as int && walk_inter_lt(w, m as int + 1);
                            lemma_reach_split(items, w, m as int);
                            assert(false);
                        }
                    }
                }
            }
            next.push(rowf);
        }
        reach = next;
        m = m + 1;
    }
    // an item is in a cycle exactly when it reaches a distinct item that
    // reaches it back
    let mut out: Vec<String> = Vec::new();
    for u in 0..n
        invariant
            n == items.len(),
            beads@ == items,
            reach@.len() == n,
            forall|a: int| 0 <= a < n ==> (#[trigger] reach@[a])@.len() == n,
            forall|a: int, bb: int|
                0 <= a < n && 0 <= bb < n ==> ((#[trigger] reach@[a]@[bb]) <==> reach_lt(
                    items,
                    a,
                    bb,
                    n as int,
                )),
            out@.map_values(|x: String| x@) == cycle_ids(items, u as int),
    {
        let ghost prev = out@;
        let mut found = false;
        for v in 0..n
            invariant
                n == items.len(),
                0 <= u < n,
                reach@.len() == n,
                forall|a: int| 0 <= a < n ==> (#[trigger] reach@[a])@.len() == n,
                forall|a: int, bb: int|
                    0 <= a < n && 0 <= bb < n ==> ((#[trigger] reach@[a]@[bb]) <==> reach_lt(
                        items,
                        a,
                        bb,
                        n as int,
                    )),
                found == exists|v2: int|
                    0 <= v2 < v && v2 != u as int && reach_lt(items, u as int, v2, n as int)
                        && reach_lt(items, v2, u as int, n as int),
        {
            if v != u && reach[u][v] && reach[v][u] {
                proof {
                    assert(reach_lt(items, u as int, v as int, n as int) && reach_lt(
                        items,
                        v as int,
                        u as int,
                        n as int,
                    ));
                }
                found = true;
            }
            proof {
                if found && !exists|v2: int|
                    0 <= v2 < v && v2 != u as int && reach_lt(items, u as int, v2, n as int)
                        && reach_lt(items, v2, u as int, n as int) {
                    assert(v as int != u as int && reach_lt(items, u as int, v as int, n as int)
                        && reach_lt(items, v as int, u as int, n as int));
                }
            }
        }
        proof {
            assert(found == in_cycle(items, u as int)) by {
                if found {
                    let v2 = choose|v2: int|
                        0 <= v2 < n && v2 != u as int && reach_lt(items, u as int, v2, n as int)
                            && reach_lt(items, v2, u as int, n as int);
                    lemma_reach_full(items, u as int, v2);
                    lemma_reach_full(items, v2, u as int);
                }
                if in_cycle(items, u as int) {
                    let v2 = choose|v2: int|
                        0 <= v2 < n && v2 != u as int && reaches(items, u as int, v2) && reaches(
                            items,
                            v2,
                            u as int,
                        );
                    lemma_reach_full(items, u as int, v2);
                    lemma_reach_full(items, v2, u as int);
                }
            }
        }
        if found {
            out.push(beads[u].id.clone());
        }
        proof {
            if in_cycle(items, u as int) {
                assert(out@.map_values(|x: String| x@) =~= cycle_ids(items, u as int + 1));
            } else {
                assert(out@ == prev);
                assert(out@.map_values(|x: String| x@) =~= cycle_ids(items, u as int + 1));
            }
        }
    }
    out
}

} // verus!
