//! The record folded together from a routing that drains: one body per kept lake, numbered in
//! lake order; the reaches with their links re-pointed at body ids; each notch reduced to the
//! points worth recording and split where it jumps; and the counts.
//!
//! What was measured in metres -- a lake's level, area and depth, where its floor lies, a
//! reach's points, whether a cut went deep -- comes in as it was measured.
use vstd::prelude::*;
use crate::assembly::{
    body_ids, count_kept, count_class, line_starts, line_starts_below, notch_points, outlet_marks, outlet_reach,
    reach_of_first_node, reach_tally, recorded_upto, remap_links, remapped, river_nodes, first_node_owner, top_order_of,
};
use crate::drainage::{NO_LAKE, NO_NODE};
use crate::graph::LandGraph;
use crate::hydro::{Body, BodyKind, ReachLine, ReachPoint};
use crate::links::{body_downstream, downstream_is_fresh, fresh_within, lake_way_out, link_in_range};
use crate::reaches::{Downstream, Reach, ReachClass};
use crate::routing::Lake;
use crate::extent::{is_extent, lake_extents};

verus! {

/// What was measured of one lake, as it was measured.
#[derive(Debug, Clone, Copy)]
pub struct LakeMeasure {
    pub level_m: u64,
    pub area_m2: u64,
    pub depth_m: u64,
    /// Latitude and longitude of its floor.
    pub anchor: (u64, u64),
    /// Its area is under the largest a pond may have.
    pub small: bool,
    /// A forced outlet point lies on one of its nodes.
    pub forced: bool,
    /// The longest of its usable shore steps ([`crate::extent::shore_of`]), in metres; zero
    /// when none is usable.
    pub shore_reach_m: u64,
}

/// What a kept lake becomes: a closed lake a salt flat where its water all evaporates and a
/// salt lake otherwise; an open one a pond when small and a lake otherwise.
pub open spec fn kind_for(closed: bool, salt_flat: bool, small: bool) -> BodyKind {
    if closed && salt_flat {
        BodyKind::SaltFlat
    } else if closed {
        BodyKind::SaltLake
    } else if small {
        BodyKind::Pond
    } else {
        BodyKind::Lake
    }
}

/// What a kept lake becomes: a salt flat exactly when it closed and dried to one, a salt lake
/// exactly when it closed and still holds water, a pond exactly when it is open and small, and
/// a lake exactly when it is open and not small.
pub proof fn lemma_body_kinds(closed: bool, salt_flat: bool, small: bool)
    ensures
        kind_for(closed, salt_flat, small) == BodyKind::SaltFlat <==> closed && salt_flat,
        kind_for(closed, salt_flat, small) == BodyKind::SaltLake <==> closed && !salt_flat,
        kind_for(closed, salt_flat, small) == BodyKind::Pond <==> !closed && small,
        kind_for(closed, salt_flat, small) == BodyKind::Lake <==> !closed && !small,
{
}

/// The record's bodies, reaches, notch lines and counts.
pub struct Assembly {
    pub bodies: Vec<Body>,
    pub reaches: Vec<ReachLine>,
    /// For each notch, the nodes it records and where along them each line starts.
    pub notches: Vec<(Vec<u32>, Vec<usize>)>,
    pub streams: u32,
    pub rivers: u32,
    pub great: u32,
    pub max_order: u32,
    pub kept: u32,
    pub notched: u32,
}

/// `body` is a kept lake's body, numbered `id`, its outline the lake's extent with `count`
/// shore members.
pub open spec fn is_body_for(
    body: Body,
    id: u32,
    outline: Seq<(u64, u64)>,
    count: u32,
    closed: bool,
    salt_flat: bool,
    enclosed: bool,
    measure: LakeMeasure,
    outlet: Option<u32>,
    downstream: Downstream,
) -> bool {
    &&& body.id == id
    &&& body.kind == kind_for(closed, salt_flat, measure.small)
    &&& body.fresh == !closed
    &&& body.enclosed == enclosed
    &&& body.forced == measure.forced
    &&& body.level_m == measure.level_m
    &&& body.area_m2 == measure.area_m2
    &&& body.depth_m == measure.depth_m
    &&& body.outlet_reach == outlet
    &&& body.anchor == measure.anchor
    &&& body.outline@ == outline
    &&& body.downstream == downstream
    &&& body.shore_member_count == count
    &&& body.shore_reach_m == measure.shore_reach_m
}

proof fn lemma_count_kept_prefix(kept: Seq<bool>, l: int, m: int)
    requires
        0 <= l <= m <= kept.len(),
    ensures
        count_kept(kept.take(l)) <= count_kept(kept.take(m)),
        l < m && kept[l] ==> count_kept(kept.take(l)) < count_kept(kept.take(m)),
        count_kept(kept.take(m)) <= m,
    decreases m,
{
    if m > 0 {
        assert(kept.take(m).drop_last() =~= kept.take(m - 1));
        if l < m {
            lemma_count_kept_prefix(kept, l, m - 1);
        }
        lemma_count_kept_prefix(kept, m - 1, m - 1);
    } else {
        assert(kept.take(0) =~= Seq::<bool>::empty());
    }
}

/// Which lakes are kept.
pub open spec fn lakes_kept(lakes: Seq<Lake>) -> Seq<bool> {
    Seq::new(lakes.len(), |l: int| lakes[l].kept)
}

/// Where a kept lake's water leaves to: its outlet reach and where it drains, for lake `l`.
pub open spec fn lake_outlet(closed: bool, receiver: Seq<u32>, entry: u32, owner: Seq<u32>) -> Option<u32> {
    let leaves = receiver[entry as int];
    if closed || leaves == NO_NODE || owner[leaves as int] == u32::MAX {
        None
    } else {
        Some(owner[leaves as int])
    }
}

/// Where kept lake `l`'s water goes: nowhere for a closed lake, else down its receiver chain.
pub open spec fn lake_downstream(
    closed: bool,
    ocean: Seq<bool>,
    receiver: Seq<u32>,
    lake_of: Seq<u32>,
    l: int,
    entry: u32,
    owner: Seq<u32>,
    ids: Seq<Option<u32>>,
) -> Downstream {
    if closed {
        Downstream::Sink
    } else {
        lake_way_out(ocean, receiver, lake_of, l as u32, owner, ids, receiver[entry as int], receiver.len())
    }
}

fn copy_pairs(v: &Vec<(u64, u64)>) -> (out: Vec<(u64, u64)>)
    ensures
        out@ == v@,
{
    let mut out: Vec<(u64, u64)> = Vec::new();
    let mut i: usize = 0;
    while i < v.len()
        invariant
            i <= v@.len(),
            out@ == v@.take(i as int),
        decreases v@.len() - i,
    {
        out.push(v[i]);
        proof {
            assert(v@.take(i + 1) =~= v@.take(i as int).push(v@[i as int]));
        }
        i += 1;
    }
    proof {
        assert(v@.take(v@.len() as int) =~= v@);
    }
    out
}

/// One body per kept lake, numbered from 0 in lake order.
fn assemble_bodies(
    ocean: &Vec<bool>,
    receiver: &Vec<u32>,
    lake_of: &Vec<u32>,
    lakes: &Vec<Lake>,
    closed: &Vec<bool>,
    salt_flat: &Vec<bool>,
    measures: &Vec<LakeMeasure>,
    owner: &Vec<u32>,
    ids: &Vec<Option<u32>>,
    reach_count: usize,
    extents: &Vec<(Vec<(u64, u64)>, u32)>,
) -> (bodies: Vec<Body>)
    requires
        extents@.len() == lakes@.len(),
        forall|x: int| 0 <= x < owner@.len() ==> #[trigger] owner@[x] == u32::MAX || owner@[x] < reach_count,
        ocean@.len() == receiver@.len(),
        lake_of@.len() == receiver@.len(),
        owner@.len() == receiver@.len(),
        lakes@.len() < u32::MAX,
        closed@.len() == lakes@.len(),
        salt_flat@.len() == lakes@.len(),
        measures@.len() == lakes@.len(),
        ids@.len() == lakes@.len(),
        forall|l: int| 0 <= l < lakes@.len() ==> (#[trigger] lakes@[l]).entry < receiver@.len(),
        forall|i: int| 0 <= i < receiver@.len() ==> #[trigger] receiver@[i] == NO_NODE || receiver@[i] < receiver@.len(),
        forall|i: int| 0 <= i < receiver@.len() && #[trigger] lake_of@[i] != NO_LAKE ==> lake_of@[i] < lakes@.len()
            && ids@[lake_of@[i] as int] is Some,
        forall|l: int| 0 <= l < lakes@.len() ==> #[trigger] ids@[l] == if lakes@[l].kept {
            Some(count_kept(lakes_kept(lakes@).take(l)) as u32)
        } else {
            None
        },
    ensures
        bodies@.len() == count_kept(lakes_kept(lakes@)),
        forall|b: int| 0 <= b < bodies@.len() ==> link_in_range((#[trigger] bodies@[b]).downstream, bodies@.len(), reach_count as nat),
        forall|l: int| 0 <= l < lakes@.len() && (#[trigger] lakes@[l]).kept ==> is_body_for(
            bodies@[count_kept(lakes_kept(lakes@).take(l)) as int],
            count_kept(lakes_kept(lakes@).take(l)) as u32,
            extents@[l].0@,
            extents@[l].1,
            closed@[l],
            salt_flat@[l],
            lakes@[l].enclosed,
            measures@[l],
            lake_outlet(closed@[l], receiver@, lakes@[l].entry, owner@),
            lake_downstream(closed@[l], ocean@, receiver@, lake_of@, l, lakes@[l].entry, owner@, ids@),
        ),
        forall|l: int| 0 <= l < lakes@.len() && (#[trigger] lakes@[l]).kept ==> {
            let kind = bodies@[count_kept(lakes_kept(lakes@).take(l)) as int].kind;
            &&& (kind == BodyKind::SaltFlat <==> closed@[l] && salt_flat@[l])
            &&& (kind == BodyKind::SaltLake <==> closed@[l] && !salt_flat@[l])
            &&& (kind == BodyKind::Pond <==> !closed@[l] && measures@[l].small)
            &&& (kind == BodyKind::Lake <==> !closed@[l] && !measures@[l].small)
        },
{
    proof {
        assert forall|c: bool, f: bool, m: bool| #![trigger kind_for(c, f, m)] true implies {
            &&& (kind_for(c, f, m) == BodyKind::SaltFlat <==> c && f)
            &&& (kind_for(c, f, m) == BodyKind::SaltLake <==> c && !f)
            &&& (kind_for(c, f, m) == BodyKind::Pond <==> !c && m)
            &&& (kind_for(c, f, m) == BodyKind::Lake <==> !c && !m)
        } by {
            lemma_body_kinds(c, f, m);
        }
    }
    let ghost kf = lakes_kept(lakes@);
    let ghost total = count_kept(kf);
    proof {
        assert forall|m: int| 0 <= m < lakes@.len() && (#[trigger] ids@[m]) is Some implies ids@[m].unwrap() < total by {
            lemma_count_kept_prefix(kf, m, lakes@.len() as int);
            assert(kf.take(lakes@.len() as int) =~= kf);
        }
    }
    let mut bodies: Vec<Body> = Vec::new();
    let mut l: usize = 0;
    while l < lakes.len()
        invariant
            l <= lakes@.len(),
            kf == lakes_kept(lakes@),
            ocean@.len() == receiver@.len(),
            lake_of@.len() == receiver@.len(),
            owner@.len() == receiver@.len(),
            lakes@.len() < u32::MAX,
            closed@.len() == lakes@.len(),
            salt_flat@.len() == lakes@.len(),
            measures@.len() == lakes@.len(),
            ids@.len() == lakes@.len(),
            extents@.len() == lakes@.len(),
            forall|m: int| 0 <= m < lakes@.len() ==> (#[trigger] lakes@[m]).entry < receiver@.len(),
            forall|i: int| 0 <= i < receiver@.len() ==> #[trigger] receiver@[i] == NO_NODE || receiver@[i] < receiver@.len(),
            forall|i: int| 0 <= i < receiver@.len() && #[trigger] lake_of@[i] != NO_LAKE ==> lake_of@[i] < lakes@.len()
                && ids@[lake_of@[i] as int] is Some,
            forall|m: int| 0 <= m < lakes@.len() ==> #[trigger] ids@[m] == if lakes@[m].kept {
                Some(count_kept(kf.take(m)) as u32)
            } else {
                None
            },
            bodies@.len() == count_kept(kf.take(l as int)),
            total == count_kept(kf),
            forall|x: int| 0 <= x < owner@.len() ==> #[trigger] owner@[x] == u32::MAX || owner@[x] < reach_count,
            forall|m: int| 0 <= m < lakes@.len() && (#[trigger] ids@[m]) is Some ==> ids@[m].unwrap() < total,
            forall|b: int| 0 <= b < bodies@.len() ==> link_in_range((#[trigger] bodies@[b]).downstream, total, reach_count as nat),
            forall|m: int| 0 <= m < l && (#[trigger] lakes@[m]).kept ==> is_body_for(
                bodies@[count_kept(kf.take(m)) as int],
                count_kept(kf.take(m)) as u32,
                extents@[m].0@,
                extents@[m].1,
                closed@[m],
                salt_flat@[m],
                lakes@[m].enclosed,
                measures@[m],
                lake_outlet(closed@[m], receiver@, lakes@[m].entry, owner@),
                lake_downstream(closed@[m], ocean@, receiver@, lake_of@, m, lakes@[m].entry, owner@, ids@),
            ),
        decreases lakes@.len() - l,
    {
        proof {
            assert(kf.take(l + 1).drop_last() =~= kf.take(l as int));
            lemma_count_kept_prefix(kf, l as int, l as int);
        }
        if lakes[l].kept {
            let entry = lakes[l].entry;
            let c = closed[l];
            let kind = if c && salt_flat[l] {
                BodyKind::SaltFlat
            } else if c {
                BodyKind::SaltLake
            } else if measures[l].small {
                BodyKind::Pond
            } else {
                BodyKind::Lake
            };
            let outlet = outlet_reach(c, receiver[entry as usize], owner);
            let downstream = if c {
                Downstream::Sink
            } else {
                body_downstream(ocean, receiver, lake_of, l as u32, entry, owner, ids)
            };
            proof {
                if !c {
                    lemma_way_out_in_range(ocean@, receiver@, lake_of@, l as u32, owner@, ids@, receiver@[entry as int],
                        receiver@.len(), total, reach_count as nat);
                }
            }
            let id = bodies.len() as u32;
            let m = measures[l];
            let ghost before = bodies@;
            bodies.push(Body {
                id,
                kind,
                fresh: !c,
                enclosed: lakes[l].enclosed,
                forced: m.forced,
                level_m: m.level_m,
                area_m2: m.area_m2,
                depth_m: m.depth_m,
                outlet_reach: outlet,
                anchor: m.anchor,
                outline: copy_pairs(&extents[l].0),
                downstream,
                shore_member_count: extents[l].1,
                shore_reach_m: m.shore_reach_m,
            });
            proof {
                assert forall|q: int| 0 <= q < l + 1 && (#[trigger] lakes@[q]).kept implies is_body_for(
                    bodies@[count_kept(kf.take(q)) as int],
                    count_kept(kf.take(q)) as u32,
                    extents@[q].0@,
                    extents@[q].1,
                    closed@[q],
                    salt_flat@[q],
                    lakes@[q].enclosed,
                    measures@[q],
                    lake_outlet(closed@[q], receiver@, lakes@[q].entry, owner@),
                    lake_downstream(closed@[q], ocean@, receiver@, lake_of@, q, lakes@[q].entry, owner@, ids@),
                ) by {
                    if q < l {
                        lemma_count_kept_prefix(kf, q, l as int);
                        assert(bodies@[count_kept(kf.take(q)) as int] == before[count_kept(kf.take(q)) as int]);
                    }
                }
            }
        }
        l += 1;
    }
    proof {
        assert(kf.take(lakes@.len() as int) =~= kf);
    }
    bodies
}

/// Where a lake's water goes names a body or a reach that exists.
proof fn lemma_way_out_in_range(
    ocean: Seq<bool>,
    receiver: Seq<u32>,
    lake_of: Seq<u32>,
    hollow_index: u32,
    owner: Seq<u32>,
    ids: Seq<Option<u32>>,
    node: u32,
    fuel: nat,
    bodies: nat,
    reaches: nat,
)
    requires
        ocean.len() == receiver.len(),
        lake_of.len() == receiver.len(),
        owner.len() == receiver.len(),
        node == NO_NODE || node < receiver.len(),
        forall|i: int| 0 <= i < receiver.len() ==> #[trigger] receiver[i] == NO_NODE || receiver[i] < receiver.len(),
        forall|i: int| 0 <= i < receiver.len() && #[trigger] lake_of[i] != NO_LAKE ==> lake_of[i] < ids.len()
            && ids[lake_of[i] as int] is Some,
        forall|m: int| 0 <= m < ids.len() && (#[trigger] ids[m]) is Some ==> ids[m].unwrap() < bodies,
        forall|x: int| 0 <= x < owner.len() ==> #[trigger] owner[x] == u32::MAX || owner[x] < reaches,
    ensures
        link_in_range(lake_way_out(ocean, receiver, lake_of, hollow_index, owner, ids, node, fuel), bodies, reaches),
    decreases fuel,
{
    if node != NO_NODE && fuel > 0 {
        let i = node as int;
        if !ocean[i] && !(lake_of[i] != NO_LAKE && lake_of[i] != hollow_index) && owner[i] == u32::MAX {
            lemma_way_out_in_range(ocean, receiver, lake_of, hollow_index, owner, ids, receiver[i], (fuel - 1) as nat, bodies, reaches);
        } else if !ocean[i] && lake_of[i] != NO_LAKE && lake_of[i] != hollow_index {
            assert(ids[lake_of[i] as int] is Some);
        }
    }
}

fn copy_points(points: &Vec<ReachPoint>) -> (out: Vec<ReachPoint>)
    ensures
        out@ == points@,
{
    let mut out: Vec<ReachPoint> = Vec::new();
    let mut i: usize = 0;
    while i < points.len()
        invariant
            i <= points@.len(),
            out@ == points@.take(i as int),
        decreases points@.len() - i,
    {
        out.push(points[i]);
        proof {
            assert(points@.take(i + 1) =~= points@.take(i as int).push(points@[i as int]));
        }
        i += 1;
    }
    proof {
        assert(points@.take(points@.len() as int) =~= points@);
    }
    out
}

/// The reach lines: each reach with its id, class and order, its link `links[k]` and its
/// points, fresh when following the links from it ends at the ocean.
fn assemble_reaches(
    reaches: &Vec<Reach>,
    points: &Vec<Vec<ReachPoint>>,
    links: &Vec<Downstream>,
    body_links: &Vec<Downstream>,
) -> (lines: Vec<ReachLine>)
    requires
        points@.len() == reaches@.len(),
        links@.len() == reaches@.len(),
        reaches@.len() < u32::MAX,
        links@.len() + body_links@.len() + 1 <= usize::MAX,
        forall|i: int| 0 <= i < body_links@.len() ==> link_in_range(#[trigger] body_links@[i], body_links@.len(), links@.len()),
        forall|i: int| 0 <= i < links@.len() ==> link_in_range(#[trigger] links@[i], body_links@.len(), links@.len()),
    ensures
        lines@.len() == reaches@.len(),
        forall|k: int| 0 <= k < reaches@.len() ==> {
            &&& (#[trigger] lines@[k]).id == k
            &&& lines@[k].class == reaches@[k].class
            &&& lines@[k].order == reaches@[k].order
            &&& lines@[k].downstream == links@[k]
            &&& lines@[k].fresh == fresh_within(body_links@, links@, links@[k], (links@.len() + body_links@.len() + 1) as nat)
            &&& lines@[k].points@ == points@[k]@
        },
{
    let mut lines: Vec<ReachLine> = Vec::new();
    let mut k: usize = 0;
    while k < reaches.len()
        invariant
            k <= reaches@.len(),
            points@.len() == reaches@.len(),
            links@.len() == reaches@.len(),
            reaches@.len() < u32::MAX,
            links@.len() + body_links@.len() + 1 <= usize::MAX,
            forall|i: int| 0 <= i < body_links@.len() ==> link_in_range(#[trigger] body_links@[i], body_links@.len(), links@.len()),
            forall|i: int| 0 <= i < links@.len() ==> link_in_range(#[trigger] links@[i], body_links@.len(), links@.len()),
            lines@.len() == k,
            forall|j: int| 0 <= j < k ==> {
                &&& (#[trigger] lines@[j]).id == j
                &&& lines@[j].class == reaches@[j].class
                &&& lines@[j].order == reaches@[j].order
                &&& lines@[j].downstream == links@[j]
                &&& lines@[j].fresh == fresh_within(body_links@, links@, links@[j], (links@.len() + body_links@.len() + 1) as nat)
                &&& lines@[j].points@ == points@[j]@
            },
        decreases reaches@.len() - k,
    {
        let fresh = downstream_is_fresh(body_links, links, links[k]);
        lines.push(ReachLine {
            id: k as u32,
            class: reaches[k].class,
            order: reaches[k].order,
            downstream: links[k],
            fresh,
            points: copy_points(&points[k]),
        });
        k += 1;
    }
    lines
}

/// The nodes a notch records: its points worth recording, then the node it stopped at when
/// its own last lowered node is among them and drains somewhere.
pub open spec fn notch_record(nodes: Seq<u32>, outlet: bool, river: Seq<bool>, deep: Seq<bool>, receiver: Seq<u32>) -> Seq<u32> {
    let kept = recorded_upto(nodes, outlet, river, deep, nodes.len() as int);
    if nodes.len() > 0 && kept.len() > 0 && kept.last() == nodes.last() && receiver[nodes.last() as int] != NO_NODE {
        kept.push(receiver[nodes.last() as int])
    } else {
        kept
    }
}

proof fn lemma_recorded_in(nodes: Seq<u32>, outlet: bool, river: Seq<bool>, deep: Seq<bool>, k: int, n: int)
    requires
        0 <= k <= nodes.len(),
        forall|j: int| 0 <= j < nodes.len() ==> #[trigger] nodes[j] < n,
    ensures
        forall|j: int| 0 <= j < recorded_upto(nodes, outlet, river, deep, k).len() ==> #[trigger] recorded_upto(nodes, outlet, river, deep, k)[j] < n,
    decreases k,
{
    if k > 0 {
        lemma_recorded_in(nodes, outlet, river, deep, k - 1, n);
        let prev = recorded_upto(nodes, outlet, river, deep, k - 1);
        let here = recorded_upto(nodes, outlet, river, deep, k);
        assert forall|j: int| 0 <= j < here.len() implies #[trigger] here[j] < n by {
            if j < prev.len() {
                assert(here[j] == prev[j]);
            } else {
                assert(here[j] == nodes[k - 1]);
            }
        }
    }
}

/// Each notch's recorded nodes and where along them each line starts.
fn assemble_notches(
    graph: &LandGraph,
    receiver: &Vec<u32>,
    river: &Vec<bool>,
    deep: &Vec<bool>,
    notches: &Vec<Vec<u32>>,
    marks: &Vec<bool>,
) -> (out: Vec<(Vec<u32>, Vec<usize>)>)
    requires
        receiver@.len() == graph.node_count(),
        river@.len() == graph.node_count(),
        deep@.len() == graph.node_count(),
        marks@.len() == notches@.len(),
        forall|i: int| 0 <= i < receiver@.len() ==> #[trigger] receiver@[i] == NO_NODE || receiver@[i] < receiver@.len(),
        forall|j: int, k: int| 0 <= j < notches@.len() && 0 <= k < notches@[j]@.len() ==> #[trigger] notches@[j]@[k] < graph.node_count(),
    ensures
        out@.len() == notches@.len(),
        forall|j: int| 0 <= j < notches@.len() ==> {
            &&& (#[trigger] out@[j]).0@ == notch_record(notches@[j]@, marks@[j], river@, deep@, receiver@)
            &&& out@[j].1@ == line_starts_below(graph.rows(), out@[j].0@, out@[j].0@.len() as int)
        },
{
    let mut out: Vec<(Vec<u32>, Vec<usize>)> = Vec::new();
    let mut j: usize = 0;
    while j < notches.len()
        invariant
            j <= notches@.len(),
            receiver@.len() == graph.node_count(),
            river@.len() == graph.node_count(),
            deep@.len() == graph.node_count(),
            marks@.len() == notches@.len(),
            forall|i: int| 0 <= i < receiver@.len() ==> #[trigger] receiver@[i] == NO_NODE || receiver@[i] < receiver@.len(),
            forall|a: int, k: int| 0 <= a < notches@.len() && 0 <= k < notches@[a]@.len() ==> #[trigger] notches@[a]@[k] < graph.node_count(),
            out@.len() == j,
            forall|a: int| 0 <= a < j ==> {
                &&& (#[trigger] out@[a]).0@ == notch_record(notches@[a]@, marks@[a], river@, deep@, receiver@)
                &&& out@[a].1@ == line_starts_below(graph.rows(), out@[a].0@, out@[a].0@.len() as int)
            },
        decreases notches@.len() - j,
    {
        proof {
            assert forall|k: int| 0 <= k < notches@[j as int]@.len() implies #[trigger] notches@[j as int]@[k] < receiver@.len() by {
                assert(notches@[j as int]@[k] < graph.node_count());
            }
        }
        let (mut nodes, stop) = notch_points(&notches[j], marks[j], river, deep, receiver);
        proof {
            lemma_recorded_in(notches@[j as int]@, marks@[j as int], river@, deep@, notches@[j as int]@.len() as int, graph.node_count());
        }
        if let Some(to) = stop {
            nodes.push(to);
        }
        proof {
            assert forall|k: int| 0 <= k < nodes@.len() implies #[trigger] nodes@[k] < graph.node_count() by {
            }
        }
        let starts = line_starts(graph, &nodes);
        out.push((nodes, starts));
        j += 1;
    }
    out
}

/// Folds a routing that drains into the record's bodies, reaches, notch lines and counts.
///
/// Bodies are one per kept lake, numbered from 0 in lake order ([`is_body_for`]): a closed lake
/// is a salt flat or a salt lake and drains nowhere, an open one a pond or a lake with the
/// reach its water leaves by and the place its water goes. A reach's link to a lake names that
/// lake's body, and it is fresh when its links end at the ocean. Each notch keeps the points
/// worth recording, and its line starts again wherever two of them are not neighbours. The
/// counts are the streams, rivers and great rivers, the highest order, and the lakes kept and
/// notched.
pub fn assemble_record(
    graph: &LandGraph,
    ocean: &Vec<bool>,
    receiver: &Vec<u32>,
    lake_of: &Vec<u32>,
    lakes: &Vec<Lake>,
    reaches: &Vec<Reach>,
    points: &Vec<Vec<ReachPoint>>,
    closed: &Vec<bool>,
    salt_flat: &Vec<bool>,
    measures: &Vec<LakeMeasure>,
    notches: &Vec<Vec<u32>>,
    outlet_notch: &Vec<Option<usize>>,
    deep: &Vec<bool>,
    height_key: &Vec<u64>,
    lat: &Vec<u64>,
    lon: &Vec<u64>,
) -> (record: Assembly)
    requires
        graph.node_count() <= u32::MAX,
        height_key@.len() == graph.node_count(),
        lat@.len() == graph.node_count(),
        lon@.len() == graph.node_count(),
        forall|l: int, k: int| 0 <= l < lakes@.len() && 0 <= k < lakes@[l].members@.len() ==> #[trigger] lakes@[l].members@[k]
            < graph.node_count(),
        ocean@.len() == graph.node_count(),
        receiver@.len() == graph.node_count(),
        lake_of@.len() == graph.node_count(),
        deep@.len() == graph.node_count(),
        lakes@.len() < u32::MAX,
        closed@.len() == lakes@.len(),
        salt_flat@.len() == lakes@.len(),
        measures@.len() == lakes@.len(),
        reaches@.len() < u32::MAX,
        reaches@.len() + lakes@.len() + 1 <= usize::MAX,
        points@.len() == reaches@.len(),
        forall|l: int| 0 <= l < lakes@.len() ==> (#[trigger] lakes@[l]).entry < graph.node_count(),
        forall|i: int| 0 <= i < graph.node_count() ==> #[trigger] receiver@[i] == NO_NODE || receiver@[i] < graph.node_count(),
        forall|i: int| 0 <= i < graph.node_count() && #[trigger] lake_of@[i] != NO_LAKE ==> lake_of@[i] < lakes@.len()
            && lakes@[lake_of@[i] as int].kept,
        forall|k: int| 0 <= k < reaches@.len() ==> {
            &&& (#[trigger] reaches@[k]).nodes@.len() > 0
            &&& forall|j: int| 0 <= j < reaches@[k].nodes@.len() ==> #[trigger] reaches@[k].nodes@[j] < graph.node_count()
            &&& reaches@[k].downstream matches Downstream::Body(h) ==> h < lakes@.len() && lakes@[h as int].kept
            &&& reaches@[k].downstream matches Downstream::Reach(r) ==> r < reaches@.len()
        },
        forall|j: int, k: int| 0 <= j < notches@.len() && 0 <= k < notches@[j]@.len() ==> #[trigger] notches@[j]@[k] < graph.node_count(),
        forall|j: int| 0 <= j < outlet_notch@.len() ==> (#[trigger] outlet_notch@[j] matches Some(i) ==> i < notches@.len()),
    ensures
        ({
            let kf = lakes_kept(lakes@);
            let ids = Seq::new(lakes@.len(), |l: int| if lakes@[l].kept { Some(count_kept(kf.take(l)) as u32) } else { None });
            let owner = Seq::new(graph.node_count() as nat, |x: int| first_node_owner(reaches@, x, reaches@.len() as int));
            let links = Seq::new(reaches@.len(), |k: int| remapped(reaches@[k].downstream, ids));
            let river = Seq::new(graph.node_count() as nat, |x: int| exists|k: int, j: int|
                0 <= k < reaches@.len() && 0 <= j < reaches@[k].nodes@.len() && reaches@[k].nodes@[j] == x);
            let marks = Seq::new(notches@.len(), |i: int| exists|j: int| 0 <= j < outlet_notch@.len() && outlet_notch@[j] == Some(i as usize));
            let body_links = Seq::new(record.bodies@.len(), |b: int| record.bodies@[b].downstream);
            &&& record.bodies@.len() == count_kept(kf)
            &&& forall|l: int| 0 <= l < lakes@.len() && (#[trigger] lakes@[l]).kept ==> exists|outline: Seq<(u64, u64)>, count: u32|
                #[trigger] is_extent(outline, count, graph.rows(), lake_of@, l as u32, lakes@[l].members@, lat@, lon@) && is_body_for(
                record.bodies@[count_kept(kf.take(l)) as int],
                count_kept(kf.take(l)) as u32,
                outline,
                count,
                closed@[l],
                salt_flat@[l],
                lakes@[l].enclosed,
                measures@[l],
                lake_outlet(closed@[l], receiver@, lakes@[l].entry, owner),
                lake_downstream(closed@[l], ocean@, receiver@, lake_of@, l, lakes@[l].entry, owner, ids),
            )
            &&& forall|l: int| 0 <= l < lakes@.len() && (#[trigger] lakes@[l]).kept ==> {
                let kind = record.bodies@[count_kept(kf.take(l)) as int].kind;
                &&& (kind == BodyKind::SaltFlat <==> closed@[l] && salt_flat@[l])
                &&& (kind == BodyKind::SaltLake <==> closed@[l] && !salt_flat@[l])
                &&& (kind == BodyKind::Pond <==> !closed@[l] && measures@[l].small)
                &&& (kind == BodyKind::Lake <==> !closed@[l] && !measures@[l].small)
            }
            &&& record.reaches@.len() == reaches@.len()
            &&& forall|k: int| 0 <= k < reaches@.len() ==> {
                &&& (#[trigger] record.reaches@[k]).id == k
                &&& record.reaches@[k].class == reaches@[k].class
                &&& record.reaches@[k].order == reaches@[k].order
                &&& record.reaches@[k].downstream == links[k]
                &&& record.reaches@[k].fresh == fresh_within(body_links, links, links[k], (links.len() + body_links.len() + 1) as nat)
                &&& record.reaches@[k].points@ == points@[k]@
            }
            &&& record.notches@.len() == notches@.len()
            &&& forall|j: int| 0 <= j < notches@.len() ==> {
                &&& (#[trigger] record.notches@[j]).0@ == notch_record(notches@[j]@, marks[j], river, deep@, receiver@)
                &&& record.notches@[j].1@ == line_starts_below(graph.rows(), record.notches@[j].0@, record.notches@[j].0@.len() as int)
            }
            &&& record.streams == count_class(reaches@, ReachClass::Stream)
            &&& record.rivers == count_class(reaches@, ReachClass::River)
            &&& record.great == count_class(reaches@, ReachClass::Great)
            &&& record.max_order == top_order_of(reaches@)
            &&& record.kept == count_kept(kf)
            &&& record.notched == lakes@.len() - count_kept(kf)
        }),
{
    let n = graph.len();
    let ghost kf = lakes_kept(lakes@);
    let mut kept: Vec<bool> = Vec::new();
    let mut l: usize = 0;
    while l < lakes.len()
        invariant
            l <= lakes@.len(),
            kf == lakes_kept(lakes@),
            kept@ == kf.take(l as int),
        decreases lakes@.len() - l,
    {
        kept.push(lakes[l].kept);
        proof {
            assert(kf.take(l + 1) =~= kf.take(l as int).push(kf[l as int]));
        }
        l += 1;
    }
    proof {
        assert(kf.take(lakes@.len() as int) =~= kf);
    }
    let ids = body_ids(&kept);
    let owner = reach_of_first_node(reaches, n);
    proof {
        assert forall|x: int| 0 <= x < n implies #[trigger] owner@[x] == u32::MAX || owner@[x] < reaches@.len() by {
            lemma_owner_in_range(reaches@, x, reaches@.len() as int);
        }
        assert forall|i: int| 0 <= i < n && #[trigger] lake_of@[i] != NO_LAKE implies lake_of@[i] < lakes@.len()
            && ids@[lake_of@[i] as int] is Some by {
        }
    }
    let extents = lake_extents(graph, lake_of, lakes, height_key, lat, lon);
    let bodies = assemble_bodies(ocean, receiver, lake_of, lakes, closed, salt_flat, measures, &owner, &ids, reaches.len(), &extents);
    proof {
        assert forall|l: int| 0 <= l < lakes@.len() && (#[trigger] lakes@[l]).kept implies exists|outline: Seq<(u64, u64)>, count: u32|
            #[trigger] is_extent(outline, count, graph.rows(), lake_of@, l as u32, lakes@[l].members@, lat@, lon@) && is_body_for(
            bodies@[count_kept(kf.take(l)) as int],
            count_kept(kf.take(l)) as u32,
            outline,
            count,
            closed@[l],
            salt_flat@[l],
            lakes@[l].enclosed,
            measures@[l],
            lake_outlet(closed@[l], receiver@, lakes@[l].entry, owner@),
            lake_downstream(closed@[l], ocean@, receiver@, lake_of@, l, lakes@[l].entry, owner@, ids@),
        ) by {
            assert(is_extent(extents@[l].0@, extents@[l].1, graph.rows(), lake_of@, l as u32, lakes@[l].members@, lat@, lon@));
        }
    }
    let mut body_links: Vec<Downstream> = Vec::new();
    let mut b: usize = 0;
    while b < bodies.len()
        invariant
            b <= bodies@.len(),
            body_links@.len() == b,
            forall|c: int| 0 <= c < b ==> #[trigger] body_links@[c] == bodies@[c].downstream,
        decreases bodies@.len() - b,
    {
        body_links.push(bodies[b].downstream);
        b += 1;
    }
    let mut reach_links: Vec<Downstream> = Vec::new();
    let mut k: usize = 0;
    while k < reaches.len()
        invariant
            k <= reaches@.len(),
            reach_links@.len() == k,
            forall|c: int| 0 <= c < k ==> #[trigger] reach_links@[c] == reaches@[c].downstream,
        decreases reaches@.len() - k,
    {
        reach_links.push(reaches[k].downstream);
        k += 1;
    }
    proof {
        assert forall|c: int| 0 <= c < reach_links@.len() implies (#[trigger] reach_links@[c] matches Downstream::Body(h) ==> h < ids@.len()
            && ids@[h as int] is Some) by {
        }
    }
    let links = remap_links(&reach_links, &ids);
    proof {
        assert(body_links@ =~= Seq::new(bodies@.len(), |c: int| bodies@[c].downstream));
        assert forall|c: int| 0 <= c < body_links@.len() implies link_in_range(#[trigger] body_links@[c], body_links@.len(), links@.len()) by {
            assert(link_in_range(bodies@[c].downstream, bodies@.len(), reaches@.len() as nat));
        }
        assert forall|c: int| 0 <= c < links@.len() implies link_in_range(#[trigger] links@[c], body_links@.len(), links@.len()) by {
            match reaches@[c].downstream {
                Downstream::Body(h) => {
                    lemma_count_kept_prefix(kf, h as int, lakes@.len() as int);
                }
                _ => {}
            }
        }
    }
    proof {
        lemma_count_kept_prefix(kf, lakes@.len() as int, lakes@.len() as int);
        assert(kf.take(lakes@.len() as int) =~= kf);
    }
    let lines = assemble_reaches(reaches, points, &links, &body_links);
    let river = river_nodes(reaches, n);
    let marks = outlet_marks(outlet_notch, notches.len());
    let notch_lines = assemble_notches(graph, receiver, &river, deep, notches, &marks);
    let (streams, rivers, great, max_order) = reach_tally(reaches);
    let kept_count = bodies.len() as u32;
    let notched_count = (lakes.len() - bodies.len()) as u32;
    proof {
        lemma_count_kept_prefix(kf, lakes@.len() as int, lakes@.len() as int);
        assert(kf.take(lakes@.len() as int) =~= kf);
        assert(owner@ =~= Seq::new(n as nat, |x: int| first_node_owner(reaches@, x, reaches@.len() as int)));
        assert(ids@ =~= Seq::new(lakes@.len(), |l: int| if lakes@[l].kept { Some(count_kept(kf.take(l)) as u32) } else { None }));
        assert(links@ =~= Seq::new(reaches@.len(), |c: int| remapped(reaches@[c].downstream, ids@)));
        assert(river@ =~= Seq::new(n as nat, |x: int| exists|c: int, j: int|
            0 <= c < reaches@.len() && 0 <= j < reaches@[c].nodes@.len() && reaches@[c].nodes@[j] == x));
        assert(marks@ =~= Seq::new(notches@.len(), |i: int| exists|j: int| 0 <= j < outlet_notch@.len() && outlet_notch@[j] == Some(i as usize)));
    }
    Assembly {
        bodies,
        reaches: lines,
        notches: notch_lines,
        streams,
        rivers,
        great,
        max_order,
        kept: kept_count,
        notched: notched_count,
    }
}

/// A reach's owner is a reach index, or `u32::MAX`.
proof fn lemma_owner_in_range(reaches: Seq<Reach>, x: int, k: int)
    requires
        0 <= k <= reaches.len(),
    ensures
        first_node_owner(reaches, x, k) == u32::MAX || first_node_owner(reaches, x, k) < k,
    decreases k,
{
    if k > 0 {
        lemma_owner_in_range(reaches, x, k - 1);
    }
}

proof fn lemma_owner_starts_there(reaches: Seq<Reach>, x: int, k: int)
    requires
        0 <= k <= reaches.len(),
        k < u32::MAX,
        first_node_owner(reaches, x, k) != u32::MAX,
    ensures
        first_node_owner(reaches, x, k) < k,
        reaches[first_node_owner(reaches, x, k) as int].nodes@[0] == x,
    decreases k,
{
    if k > 0 && reaches[k - 1].nodes@[0] != x {
        lemma_owner_starts_there(reaches, x, k - 1);
    }
}

/// A lake's outlet reach is the one its water enters: a closed lake has none and drains into
/// nothing; an open lake's outlet reach, where it has one, is a reach that starts at the node
/// its entry sends its water to.
pub proof fn lemma_outlet_reach_starts_where_the_lake_leaves(
    closed: bool,
    ocean: Seq<bool>,
    receiver: Seq<u32>,
    lake_of: Seq<u32>,
    reaches: Seq<Reach>,
    l: int,
    entry: u32,
    ids: Seq<Option<u32>>,
)
    requires
        reaches.len() < u32::MAX,
        0 <= entry < receiver.len(),
        receiver[entry as int] == NO_NODE || receiver[entry as int] < receiver.len(),
    ensures
        ({
            let owner = Seq::new(receiver.len(), |x: int| first_node_owner(reaches, x, reaches.len() as int));
            let out = lake_outlet(closed, receiver, entry, owner);
            &&& closed ==> out is None && lake_downstream(closed, ocean, receiver, lake_of, l, entry, owner, ids) == Downstream::Sink
            &&& out matches Some(k) ==> k < reaches.len() && reaches[k as int].nodes@[0] == receiver[entry as int]
        }),
{
    let owner = Seq::new(receiver.len(), |x: int| first_node_owner(reaches, x, reaches.len() as int));
    let leaves = receiver[entry as int];
    if !closed && leaves != NO_NODE && owner[leaves as int] != u32::MAX {
        lemma_owner_starts_there(reaches, leaves as int, reaches.len() as int);
    }
}

} // verus!
