//! The canonical indexed snapshot (the graph builder).
//!
//! From the item list it produces a dense integer-indexed view: the id and
//! effective duration of each item, the reconciled out-edge lists, and the
//! declared in-degrees. The out-edge list of `u` holds, in ascending index
//! order and without duplicates, exactly the targets of canonical edges
//! leaving `u`.

use vstd::prelude::*;
use crate::BeadNode;
use crate::effective_duration;
use crate::spec_duration;
use crate::model::edge;

verus! {

/// The canonical dense form of the graph: parallel arrays indexed by item
/// position.
pub struct Snapshot {
    pub ids: Vec<String>,
    pub durs: Vec<u32>,
    pub out: Vec<Vec<usize>>,
    pub in_deg: Vec<usize>,
}

/// The snapshot is the canonical form of `items`.
pub open spec fn snap_wf(s: Snapshot, items: Seq<BeadNode>) -> bool {
    &&& s.ids@.len() == items.len()
    &&& s.durs@.len() == items.len()
    &&& s.out@.len() == items.len()
    &&& s.in_deg@.len() == items.len()
    &&& forall|i: int| 0 <= i < items.len() ==> (#[trigger] s.ids@[i])@ == items[i].id@
    &&& forall|i: int|
        0 <= i < items.len() ==> (#[trigger] s.durs@[i]) as int == spec_duration(items[i])
    &&& forall|i: int|
        0 <= i < items.len() ==> (#[trigger] s.in_deg@[i]) as int == items[i].blocked_by@.len()
    &&& forall|i: int| 0 <= i < items.len() ==> (#[trigger] s.out@[i])@.no_duplicates()
    &&& forall|i: int, k1: int, k2: int|
        0 <= i < items.len() && 0 <= k1 < k2 < s.out@[i]@.len() ==> (#[trigger] s.out@[i]@[k1])
            < (#[trigger] s.out@[i]@[k2])
    &&& forall|i: int, k: int|
        0 <= i < items.len() && 0 <= k < s.out@[i]@.len() ==> ((#[trigger] s.out@[i]@[k]) as int)
            < items.len()
    &&& forall|i: int, v: int|
        0 <= i < items.len() && 0 <= v < items.len() ==> (s.out@[i]@.contains(v as usize)
            <==> #[trigger] edge(items, i, v))
}

/// Does `v` hold a string whose characters equal `s`'s?
pub fn contains_str(v: &Vec<String>, s: &String) -> (r: bool)
    ensures
        r == exists|k: int| 0 <= k < v@.len() && (#[trigger] v@[k])@ == s@,
{
    let n = v.len();
    for k in 0..n
        invariant
            n == v@.len(),
            forall|j: int| 0 <= j < k ==> (#[trigger] v@[j])@ != s@,
    {
        if v[k] == *s {
            return true;
        }
    }
    false
}

/// The index of the first item carrying this id, if any.
pub fn index_of_id(beads: &Vec<BeadNode>, id: &String) -> (r: Option<usize>)
    ensures
        match r {
            Some(i) => 0 <= i < beads@.len() && beads@[i as int].id@ == id@ && forall|j: int|
                0 <= j < i ==> (#[trigger] beads@[j]).id@ != id@,
            None => forall|j: int| 0 <= j < beads@.len() ==> (#[trigger] beads@[j]).id@ != id@,
        },
{
    let n = beads.len();
    for i in 0..n
        invariant
            n == beads@.len(),
            forall|j: int| 0 <= j < i ==> (#[trigger] beads@[j]).id@ != id@,
    {
        if beads[i].id == *id {
            return Some(i);
        }
    }
    None
}

/// Build the canonical snapshot of `items` in one pass per array.
pub fn build_snapshot(items: &Vec<BeadNode>) -> (s: Snapshot)
    ensures
        snap_wf(s, items@),
{
    let n = items.len();
    let mut ids: Vec<String> = Vec::new();
    let mut durs: Vec<u32> = Vec::new();
    let mut in_deg: Vec<usize> = Vec::new();
    for i in 0..n
        invariant
            n == items@.len(),
            ids@.len() == i,
            durs@.len() == i,
            in_deg@.len() == i,
            forall|j: int| 0 <= j < i ==> (#[trigger] ids@[j])@ == items@[j].id@,
            forall|j: int| 0 <= j < i ==> (#[trigger] durs@[j]) as int == spec_duration(items@[j]),
            forall|j: int|
                0 <= j < i ==> (#[trigger] in_deg@[j]) as int == items@[j].blocked_by@.len(),
    {
        ids.push(items[i].id.clone());
        durs.push(effective_duration(&items[i]));
        in_deg.push(items[i].blocked_by.len());
    }
    let mut out: Vec<Vec<usize>> = Vec::new();
    for u in 0..n
        invariant
            n == items@.len(),
            out@.len() == u,
            forall|j: int| 0 <= j < u ==> (#[trigger] out@[j])@.no_duplicates(),
            forall|j: int, k1: int, k2: int|
                0 <= j < u && 0 <= k1 < k2 < out@[j]@.len() ==> (#[trigger] out@[j]@[k1]) < (
                #[trigger] out@[j]@[k2]),
            forall|j: int, k: int|
                0 <= j < u && 0 <= k < out@[j]@.len() ==> ((#[trigger] out@[j]@[k]) as int) < n,
            forall|j: int, v: int|
                0 <= j < u && 0 <= v < n ==> (out@[j]@.contains(v as usize) <==> #[trigger] edge(
                    items@,
                    j,
                    v,
                )),
    {
        let mut row: Vec<usize> = Vec::new();
        for v in 0..n
            invariant
                n == items@.len(),
                0 <= u < n,
                row@.no_duplicates(),
                forall|k1: int, k2: int|
                    0 <= k1 < k2 < row@.len() ==> (#[trigger] row@[k1]) < (#[trigger] row@[k2]),
                forall|k: int| 0 <= k < row@.len() ==> ((#[trigger] row@[k]) as int) < v as int,
                forall|x: int|
                    0 <= x < v ==> (row@.contains(x as usize) <==> #[trigger] edge(
                        items@,
                        u as int,
                        x,
                    )),
        {
            let is_edge = contains_str(&items[u].blocks, &items[v].id) || contains_str(
                &items[v].blocked_by,
                &items[u].id,
            );
            if is_edge {
                let ghost old_row = row@;
                row.push(v);
                assert(edge(items@, u as int, v as int));
                assert forall|x: int| 0 <= x < v + 1 implies (row@.contains(x as usize)
                    <==> #[trigger] edge(items@, u as int, x)) by {
                    if x < v {
                        assert(row@.contains(x as usize) <==> old_row.contains(x as usize)) by {
                            if old_row.contains(x as usize) {
                                let k = choose|k: int|
                                    0 <= k < old_row.len() && old_row[k] == x as usize;
                                assert(row@[k] == x as usize);
                            }
                            if row@.contains(x as usize) {
                                let k = choose|k: int|
                                    0 <= k < row@.len() && row@[k] == x as usize;
                                assert(k < old_row.len());  // last element is v != x
                                assert(old_row[k] == x as usize);
                            }
                        }
                    } else {
                        assert(row@[row@.len() - 1] == v as usize);
                        assert(row@.contains(v as usize));
                    }
                }
            } else {
                assert(!edge(items@, u as int, v as int));
                assert forall|x: int| 0 <= x < v + 1 implies (row@.contains(x as usize)
                    <==> #[trigger] edge(items@, u as int, x)) by {
                    if x == v {
                        if row@.contains(v as usize) {
                            let k = choose|k: int| 0 <= k < row@.len() && row@[k] == v as usize;
                            assert((row@[k] as int) < v as int);
                        }
                    }
                }
            }
        }
        out.push(row);
    }
    Snapshot { ids, durs, out, in_deg }
}

} // verus!
