//! Putting the record together: numbering the kept hollows as bodies, finding each reach by
//! its first node, re-pointing reach links at bodies, marking river nodes and outlet cuts,
//! splitting a notch line where it jumps, and counting the reaches by class.
use vstd::prelude::*;
use crate::drainage::NO_NODE;
use crate::graph::LandGraph;
use crate::reaches::{Downstream, Reach, ReachClass};

verus! {

/// How many of `kept` are set.
pub open spec fn count_kept(kept: Seq<bool>) -> nat
    decreases kept.len(),
{
    if kept.len() == 0 {
        0
    } else {
        count_kept(kept.drop_last()) + if kept.last() {
            1nat
        } else {
            0nat
        }
    }
}

/// Each kept hollow's body id, and `None` for the others: kept hollows are numbered from 0 in
/// hollow order.
pub fn body_ids(kept: &Vec<bool>) -> (ids: Vec<Option<u32>>)
    requires
        kept@.len() <= u32::MAX,
    ensures
        ids@.len() == kept@.len(),
        forall|i: int|
            0 <= i < kept@.len() ==> #[trigger] ids@[i] == if kept@[i] {
                Some(count_kept(kept@.take(i)) as u32)
            } else {
                None
            },
{
    let mut ids: Vec<Option<u32>> = Vec::new();
    let mut next: u32 = 0;
    let mut i: usize = 0;
    while i < kept.len()
        invariant
            i <= kept@.len(),
            kept@.len() <= u32::MAX,
            ids@.len() == i,
            next == count_kept(kept@.take(i as int)),
            next <= i,
            forall|j: int|
                0 <= j < i ==> #[trigger] ids@[j] == if kept@[j] {
                    Some(count_kept(kept@.take(j)) as u32)
                } else {
                    None
                },
        decreases kept@.len() - i,
    {
        proof {
            assert(kept@.take(i + 1).drop_last() =~= kept@.take(i as int));
        }
        if kept[i] {
            ids.push(Some(next));
            next += 1;
        } else {
            ids.push(None);
        }
        i += 1;
    }
    ids
}

/// The last of the first `k` reaches that starts at node `x`, or `u32::MAX` if none does.
pub open spec fn first_node_owner(reaches: Seq<Reach>, x: int, k: int) -> u32
    decreases k,
{
    if k <= 0 {
        u32::MAX
    } else if reaches[k - 1].nodes@[0] == x {
        (k - 1) as u32
    } else {
        first_node_owner(reaches, x, k - 1)
    }
}

/// For each node, the reach that starts there (the last, if more than one does), or
/// `u32::MAX`.
pub fn reach_of_first_node(reaches: &Vec<Reach>, node_count: usize) -> (owner: Vec<u32>)
    requires
        reaches@.len() < u32::MAX,
        forall|k: int| 0 <= k < reaches@.len() ==> (#[trigger] reaches@[k]).nodes@.len() > 0 && reaches@[k].nodes@[0] < node_count,
    ensures
        owner@.len() == node_count,
        forall|x: int| 0 <= x < node_count ==> #[trigger] owner@[x] == first_node_owner(reaches@, x, reaches@.len() as int),
{
    let mut owner: Vec<u32> = Vec::new();
    let mut x: usize = 0;
    while x < node_count
        invariant
            x <= node_count,
            owner@.len() == x,
            forall|y: int| 0 <= y < x ==> owner@[y] == u32::MAX,
        decreases node_count - x,
    {
        owner.push(u32::MAX);
        x += 1;
    }
    let mut id: usize = 0;
    while id < reaches.len()
        invariant
            id <= reaches@.len(),
            reaches@.len() < u32::MAX,
            owner@.len() == node_count,
            forall|k: int| 0 <= k < reaches@.len() ==> (#[trigger] reaches@[k]).nodes@.len() > 0 && reaches@[k].nodes@[0] < node_count,
            forall|y: int| 0 <= y < node_count ==> #[trigger] owner@[y] == first_node_owner(reaches@, y, id as int),
        decreases reaches@.len() - id,
    {
        let first = reaches[id].nodes[0] as usize;
        owner.set(first, id as u32);
        id += 1;
    }
    owner
}

/// An open lake's outlet reach: the one that starts where its water leaves, if any; a closed
/// lake has none.
pub fn outlet_reach(closed: bool, leaves_to: u32, reach_of_first_node: &Vec<u32>) -> (outlet: Option<u32>)
    requires
        leaves_to == NO_NODE || leaves_to < reach_of_first_node@.len(),
    ensures
        outlet == if closed || leaves_to == NO_NODE || reach_of_first_node@[leaves_to as int] == u32::MAX {
            None
        } else {
            Some(reach_of_first_node@[leaves_to as int])
        },
{
    if closed || leaves_to == NO_NODE || reach_of_first_node[leaves_to as usize] == u32::MAX {
        None
    } else {
        Some(reach_of_first_node[leaves_to as usize])
    }
}

/// A reach link with a lake's hollow index replaced by that lake's body id.
pub open spec fn remapped(d: Downstream, body_id_of_hollow: Seq<Option<u32>>) -> Downstream {
    match d {
        Downstream::Body(h) => Downstream::Body(body_id_of_hollow[h as int].unwrap()),
        other => other,
    }
}

/// Every reach link, re-pointed from a lake's hollow index to its body id.
pub fn remap_links(links: &Vec<Downstream>, body_id_of_hollow: &Vec<Option<u32>>) -> (out: Vec<Downstream>)
    requires
        forall|k: int|
            0 <= k < links@.len() ==> (#[trigger] links@[k] matches Downstream::Body(h) ==> h < body_id_of_hollow@.len()
                && body_id_of_hollow@[h as int] is Some),
    ensures
        out@.len() == links@.len(),
        forall|k: int| 0 <= k < links@.len() ==> #[trigger] out@[k] == remapped(links@[k], body_id_of_hollow@),
{
    let mut out: Vec<Downstream> = Vec::new();
    let mut k: usize = 0;
    while k < links.len()
        invariant
            k <= links@.len(),
            out@.len() == k,
            forall|j: int|
                0 <= j < links@.len() ==> (#[trigger] links@[j] matches Downstream::Body(h) ==> h < body_id_of_hollow@.len()
                    && body_id_of_hollow@[h as int] is Some),
            forall|j: int| 0 <= j < k ==> #[trigger] out@[j] == remapped(links@[j], body_id_of_hollow@),
        decreases links@.len() - k,
    {
        let d = match links[k] {
            Downstream::Body(h) => Downstream::Body(body_id_of_hollow[h as usize].unwrap()),
            other => other,
        };
        out.push(d);
        k += 1;
    }
    out
}

/// Which nodes some reach runs through.
pub fn river_nodes(reaches: &Vec<Reach>, node_count: usize) -> (river: Vec<bool>)
    requires
        forall|k: int, j: int|
            0 <= k < reaches@.len() && 0 <= j < reaches@[k].nodes@.len() ==> #[trigger] reaches@[k].nodes@[j] < node_count,
    ensures
        river@.len() == node_count,
        forall|x: int|
            0 <= x < node_count ==> (#[trigger] river@[x] <==> exists|k: int, j: int|
                0 <= k < reaches@.len() && 0 <= j < reaches@[k].nodes@.len() && reaches@[k].nodes@[j] == x),
{
    let mut river: Vec<bool> = Vec::new();
    let mut x: usize = 0;
    while x < node_count
        invariant
            x <= node_count,
            river@.len() == x,
            forall|y: int| 0 <= y < x ==> !river@[y],
        decreases node_count - x,
    {
        river.push(false);
        x += 1;
    }
    let mut k: usize = 0;
    while k < reaches.len()
        invariant
            k <= reaches@.len(),
            river@.len() == node_count,
            forall|a: int, j: int|
                0 <= a < reaches@.len() && 0 <= j < reaches@[a].nodes@.len() ==> #[trigger] reaches@[a].nodes@[j] < node_count,
            forall|y: int|
                0 <= y < node_count ==> (#[trigger] river@[y] <==> exists|a: int, j: int|
                    0 <= a < k && 0 <= j < reaches@[a].nodes@.len() && reaches@[a].nodes@[j] == y),
        decreases reaches@.len() - k,
    {
        let mut j: usize = 0;
        while j < reaches[k].nodes.len()
            invariant
                k < reaches@.len(),
                j <= reaches@[k as int].nodes@.len(),
                river@.len() == node_count,
                forall|a: int, i: int|
                    0 <= a < reaches@.len() && 0 <= i < reaches@[a].nodes@.len() ==> #[trigger] reaches@[a].nodes@[i] < node_count,
                forall|y: int|
                    0 <= y < node_count ==> (#[trigger] river@[y] <==> (exists|a: int, i: int|
                        0 <= a < k && 0 <= i < reaches@[a].nodes@.len() && reaches@[a].nodes@[i] == y) || exists|i: int|
                        0 <= i < j && reaches@[k as int].nodes@[i] == y),
            decreases reaches@[k as int].nodes@.len() - j,
        {
            let node = reaches[k].nodes[j] as usize;
            river.set(node, true);
            proof {
                assert(reaches@[k as int].nodes@[j as int] == node);
            }
            j += 1;
        }
        proof {
            assert forall|y: int| 0 <= y < node_count implies (#[trigger] river@[y] <==> exists|a: int, i: int|
                0 <= a < k + 1 && 0 <= i < reaches@[a].nodes@.len() && reaches@[a].nodes@[i] == y) by {
                if exists|i: int| 0 <= i < reaches@[k as int].nodes@.len() && reaches@[k as int].nodes@[i] == y {
                    let i = choose|i: int| 0 <= i < reaches@[k as int].nodes@.len() && reaches@[k as int].nodes@[i] == y;
                    assert(0 <= k < k + 1);
                }
                if exists|a: int, i: int| 0 <= a < k + 1 && 0 <= i < reaches@[a].nodes@.len() && reaches@[a].nodes@[i] == y {
                    let (a, i) = choose|a: int, i: int| 0 <= a < k + 1 && 0 <= i < reaches@[a].nodes@.len() && reaches@[a].nodes@[i] == y;
                    if a == k {
                        assert(exists|i2: int| 0 <= i2 < reaches@[k as int].nodes@.len() && reaches@[k as int].nodes@[i2] == y);
                    } else {
                        assert(exists|a2: int, i2: int| 0 <= a2 < k && 0 <= i2 < reaches@[a2].nodes@.len() && reaches@[a2].nodes@[i2] == y);
                    }
                }
            }
        }
        k += 1;
    }
    river
}

/// Which routing notches are outlet cuts: those some fresh basin names as its outlet.
pub fn outlet_marks(outlet_notch: &Vec<Option<usize>>, notch_count: usize) -> (marks: Vec<bool>)
    requires
        forall|j: int| 0 <= j < outlet_notch@.len() ==> (#[trigger] outlet_notch@[j] matches Some(i) ==> i < notch_count),
    ensures
        marks@.len() == notch_count,
        forall|i: int| 0 <= i < notch_count ==> (#[trigger] marks@[i] <==> exists|j: int|
            0 <= j < outlet_notch@.len() && outlet_notch@[j] == Some(i as usize)),
{
    let mut marks: Vec<bool> = Vec::new();
    let mut i: usize = 0;
    while i < notch_count
        invariant
            i <= notch_count,
            marks@.len() == i,
            forall|y: int| 0 <= y < i ==> !marks@[y],
        decreases notch_count - i,
    {
        marks.push(false);
        i += 1;
    }
    let mut j: usize = 0;
    while j < outlet_notch.len()
        invariant
            j <= outlet_notch@.len(),
            marks@.len() == notch_count,
            forall|a: int| 0 <= a < outlet_notch@.len() ==> (#[trigger] outlet_notch@[a] matches Some(i) ==> i < notch_count),
            forall|y: int| 0 <= y < notch_count ==> (#[trigger] marks@[y] <==> exists|a: int|
                0 <= a < j && outlet_notch@[a] == Some(y as usize)),
        decreases outlet_notch@.len() - j,
    {
        if let Some(idx) = outlet_notch[j] {
            marks.set(idx, true);
        }
        proof {
            assert forall|y: int| 0 <= y < notch_count implies (#[trigger] marks@[y] <==> exists|a: int|
                0 <= a < j + 1 && outlet_notch@[a] == Some(y as usize)) by {
                if outlet_notch@[j as int] == Some(y as usize) {
                    assert(0 <= j < j + 1);
                }
                if exists|a: int| 0 <= a < j + 1 && outlet_notch@[a] == Some(y as usize) {
                    let a = choose|a: int| 0 <= a < j + 1 && outlet_notch@[a] == Some(y as usize);
                    if a < j {
                        assert(exists|a2: int| 0 <= a2 < j && outlet_notch@[a2] == Some(y as usize));
                    }
                }
            }
        }
        j += 1;
    }
    marks
}

/// The positions below `k` where a line over `nodes` starts: the first, and each whose node is
/// not a neighbour of the one before.
pub open spec fn line_starts_below(rows: Seq<Seq<u32>>, nodes: Seq<u32>, k: int) -> Seq<usize>
    decreases k,
{
    if k <= 0 {
        Seq::empty()
    } else if k - 1 == 0 || !rows[nodes[k - 2] as int].contains(nodes[k - 1]) {
        line_starts_below(rows, nodes, k - 1).push((k - 1) as usize)
    } else {
        line_starts_below(rows, nodes, k - 1)
    }
}

/// Where a notch line over `nodes` splits: the position of its first node, and of each node
/// that is not a graph neighbour of the node before it. Each run between two starts is one line.
pub fn line_starts(graph: &LandGraph, nodes: &Vec<u32>) -> (starts: Vec<usize>)
    requires
        forall|k: int| 0 <= k < nodes@.len() ==> #[trigger] nodes@[k] < graph.node_count(),
    ensures
        starts@ == line_starts_below(graph.rows(), nodes@, nodes@.len() as int),
{
    let mut starts: Vec<usize> = Vec::new();
    let mut k: usize = 0;
    while k < nodes.len()
        invariant
            k <= nodes@.len(),
            forall|j: int| 0 <= j < nodes@.len() ==> #[trigger] nodes@[j] < graph.node_count(),
            starts@ == line_starts_below(graph.rows(), nodes@, k as int),
        decreases nodes@.len() - k,
    {
        if k == 0 {
            starts.push(0);
        } else {
            let row = graph.neighbours(nodes[k - 1]);
            let here = nodes[k];
            let mut adjacent = false;
            let mut j: usize = 0;
            while j < row.len()
                invariant
                    j <= row@.len(),
                    here == nodes@[k as int],
                    adjacent <==> exists|i: int| 0 <= i < j && row@[i] == nodes@[k as int],
                decreases row@.len() - j,
            {
                if row[j] == here {
                    adjacent = true;
                }
                j += 1;
            }
            proof {
                assert(row@ == graph.rows()[nodes@[k - 1] as int]);
                assert(adjacent <==> graph.rows()[nodes@[k - 1] as int].contains(nodes@[k as int]));
            }
            if !adjacent {
                starts.push(k);
            }
        }
        k += 1;
    }
    starts
}

/// How many of `reaches` are of `class`.
pub open spec fn count_class(reaches: Seq<Reach>, class: ReachClass) -> nat
    decreases reaches.len(),
{
    if reaches.len() == 0 {
        0
    } else {
        count_class(reaches.drop_last(), class) + if reaches.last().class == class {
            1nat
        } else {
            0nat
        }
    }
}

/// The highest order among `reaches`, or 0 with none.
pub open spec fn top_order_of(reaches: Seq<Reach>) -> u32
    decreases reaches.len(),
{
    if reaches.len() == 0 {
        0
    } else if reaches.last().order > top_order_of(reaches.drop_last()) {
        reaches.last().order
    } else {
        top_order_of(reaches.drop_last())
    }
}

/// How many streams, rivers and great rivers there are, and the highest Strahler order.
pub fn reach_tally(reaches: &Vec<Reach>) -> (tally: (u32, u32, u32, u32))
    requires
        reaches@.len() <= u32::MAX,
    ensures
        tally.0 == count_class(reaches@, ReachClass::Stream),
        tally.1 == count_class(reaches@, ReachClass::River),
        tally.2 == count_class(reaches@, ReachClass::Great),
        tally.3 == top_order_of(reaches@),
{
    let mut streams: u32 = 0;
    let mut rivers: u32 = 0;
    let mut great: u32 = 0;
    let mut top: u32 = 0;
    let mut k: usize = 0;
    while k < reaches.len()
        invariant
            k <= reaches@.len(),
            reaches@.len() <= u32::MAX,
            streams == count_class(reaches@.take(k as int), ReachClass::Stream),
            rivers == count_class(reaches@.take(k as int), ReachClass::River),
            great == count_class(reaches@.take(k as int), ReachClass::Great),
            top == top_order_of(reaches@.take(k as int)),
            streams + rivers + great == k,
        decreases reaches@.len() - k,
    {
        proof {
            assert(reaches@.take(k + 1).drop_last() =~= reaches@.take(k as int));
        }
        match reaches[k].class {
            ReachClass::Stream => streams += 1,
            ReachClass::River => rivers += 1,
            ReachClass::Great => great += 1,
        }
        if reaches[k].order > top {
            top = reaches[k].order;
        }
        k += 1;
    }
    proof {
        assert(reaches@.take(k as int) =~= reaches@);
    }
    (streams, rivers, great, top)
}

/// The points of a notch worth recording, among its first `k` lowered nodes: every one for an
/// outlet cut; otherwise those that are not a reach's own channel node and were cut deep enough.
pub open spec fn recorded_upto(nodes: Seq<u32>, outlet: bool, river: Seq<bool>, deep: Seq<bool>, k: int) -> Seq<u32>
    decreases k,
{
    if k <= 0 {
        Seq::empty()
    } else if outlet || (!river[nodes[k - 1] as int] && deep[nodes[k - 1] as int]) {
        recorded_upto(nodes, outlet, river, deep, k - 1).push(nodes[k - 1])
    } else {
        recorded_upto(nodes, outlet, river, deep, k - 1)
    }
}

/// The nodes a notch records, and the node it stopped at when its own last lowered node is
/// recorded and drains somewhere: a recorded line reaches the water it drains into.
pub fn notch_points(
    nodes: &Vec<u32>,
    outlet: bool,
    river: &Vec<bool>,
    deep: &Vec<bool>,
    receiver: &Vec<u32>,
) -> (points: (Vec<u32>, Option<u32>))
    requires
        river@.len() == receiver@.len(),
        deep@.len() == receiver@.len(),
        forall|k: int| 0 <= k < nodes@.len() ==> #[trigger] nodes@[k] < receiver@.len(),
    ensures
        points.0@ == recorded_upto(nodes@, outlet, river@, deep@, nodes@.len() as int),
        points.1 == if nodes@.len() > 0 && points.0@.len() > 0 && points.0@.last() == nodes@.last()
            && receiver@[nodes@.last() as int] != NO_NODE {
            Some(receiver@[nodes@.last() as int])
        } else {
            None
        },
{
    let mut kept: Vec<u32> = Vec::new();
    let mut k: usize = 0;
    while k < nodes.len()
        invariant
            k <= nodes@.len(),
            river@.len() == receiver@.len(),
            deep@.len() == receiver@.len(),
            forall|j: int| 0 <= j < nodes@.len() ==> #[trigger] nodes@[j] < receiver@.len(),
            kept@ == recorded_upto(nodes@, outlet, river@, deep@, k as int),
        decreases nodes@.len() - k,
    {
        let node = nodes[k];
        if outlet || (!river[node as usize] && deep[node as usize]) {
            kept.push(node);
        }
        k += 1;
    }
    let mut stop: Option<u32> = None;
    if nodes.len() > 0 && kept.len() > 0 {
        let last = nodes[nodes.len() - 1];
        let to = receiver[last as usize];
        if kept[kept.len() - 1] == last && to != NO_NODE {
            stop = Some(to);
        }
    }
    (kept, stop)
}

} // verus!
