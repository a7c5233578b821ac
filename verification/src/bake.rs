//! The bake up to the drainage check: each hollow judged, the water routed, and the routing
//! refused if anything fails to drain.
use vstd::prelude::*;
use crate::drainage::{drainage_check, drains};
use crate::flood::Flood;
use crate::graph::{LandGraph, ascending};
use crate::hollows::{Fate, HollowShape, Verdict, judge, meets_forced, verdict_for};
use crate::hydro::HydroError;
use crate::routing::{Routing, hollows_in_range, is_routing, member_total, route};

verus! {

/// Judges every hollow: `deep_and_wide` and `over_cap` carry, per hollow, what was measured of
/// its depth and area.
pub fn judge_all(hollows: &Vec<HollowShape>, forced: &Vec<u32>, deep_and_wide: &Vec<bool>, over_cap: &Vec<bool>) -> (verdicts: Vec<Verdict>)
    requires
        ascending(forced@),
        deep_and_wide@.len() == hollows@.len(),
        over_cap@.len() == hollows@.len(),
    ensures
        verdicts@.len() == hollows@.len(),
        forall|h: int| 0 <= h < hollows@.len() ==> #[trigger] verdicts@[h] == verdict_for(
            hollows@[h].enclosed,
            meets_forced(hollows@[h].members@, forced@),
            deep_and_wide@[h],
            over_cap@[h],
        ),
{
    let mut verdicts: Vec<Verdict> = Vec::new();
    let mut h: usize = 0;
    while h < hollows.len()
        invariant
            h <= hollows@.len(),
            ascending(forced@),
            deep_and_wide@.len() == hollows@.len(),
            over_cap@.len() == hollows@.len(),
            verdicts@.len() == h,
            forall|g: int| 0 <= g < h ==> #[trigger] verdicts@[g] == verdict_for(
                hollows@[g].enclosed,
                meets_forced(hollows@[g].members@, forced@),
                deep_and_wide@[g],
                over_cap@[g],
            ),
        decreases hollows@.len() - h,
    {
        verdicts.push(judge(&hollows[h], forced, deep_and_wide[h], over_cap[h]));
        h += 1;
    }
    verdicts
}

/// Which of `hollows` the judge keeps, given what was measured of each.
pub open spec fn kept_by(hollows: Seq<HollowShape>, forced: Seq<u32>, deep_and_wide: Seq<bool>, over_cap: Seq<bool>) -> Seq<bool> {
    Seq::new(hollows.len(), |h: int| verdict_for(
        hollows[h].enclosed,
        meets_forced(hollows[h].members@, forced),
        deep_and_wide[h],
        over_cap[h],
    ).fate == Fate::Keep)
}

/// Which hollows the verdicts keep.
pub fn kept_of(verdicts: &Vec<Verdict>) -> (kept: Vec<bool>)
    ensures
        kept@.len() == verdicts@.len(),
        forall|h: int| 0 <= h < verdicts@.len() ==> #[trigger] kept@[h] == (verdicts@[h].fate == Fate::Keep),
{
    let mut kept: Vec<bool> = Vec::new();
    let mut h: usize = 0;
    while h < verdicts.len()
        invariant
            h <= verdicts@.len(),
            kept@.len() == h,
            forall|g: int| 0 <= g < h ==> #[trigger] kept@[g] == (verdicts@[g].fate == Fate::Keep),
        decreases verdicts@.len() - h,
    {
        kept.push(verdicts[h].fate == Fate::Keep);
        h += 1;
    }
    kept
}

/// Which hollows stay kept: those `kept` and not `blocked`.
pub fn unblocked(kept: &Vec<bool>, blocked: &Vec<bool>) -> (out: Vec<bool>)
    requires
        blocked@.len() == kept@.len(),
    ensures
        out@.len() == kept@.len(),
        forall|h: int| 0 <= h < kept@.len() ==> #[trigger] out@[h] == (kept@[h] && !blocked@[h]),
{
    let mut out: Vec<bool> = Vec::new();
    let mut h: usize = 0;
    while h < kept.len()
        invariant
            h <= kept@.len(),
            blocked@.len() == kept@.len(),
            out@.len() == h,
            forall|g: int| 0 <= g < h ==> #[trigger] out@[g] == (kept@[g] && !blocked@[g]),
        decreases kept@.len() - h,
    {
        out.push(kept[h] && !blocked[h]);
        h += 1;
    }
    out
}

/// Which of the hollows, then the first `shore_count` of the pools after them, the verdicts cap.
fn capped_flags(verdicts: &Vec<Verdict>, nested: &Vec<Verdict>, shore_count: usize) -> (out: Vec<bool>)
    ensures
        out@.len() == verdicts@.len() + nested@.len(),
        forall|h: int| 0 <= h < out@.len() ==> #[trigger] out@[h] == if h < verdicts@.len() {
            verdicts@[h].capped
        } else {
            h - verdicts@.len() < shore_count && nested@[h - verdicts@.len()].capped
        },
{
    let mut out: Vec<bool> = Vec::new();
    let mut h: usize = 0;
    while h < verdicts.len()
        invariant
            h <= verdicts@.len(),
            out@.len() == h,
            forall|g: int| 0 <= g < h ==> #[trigger] out@[g] == verdicts@[g].capped,
        decreases verdicts@.len() - h,
    {
        out.push(verdicts[h].capped);
        h += 1;
    }
    let mut i: usize = 0;
    while i < nested.len()
        invariant
            i <= nested@.len(),
            out@.len() == verdicts@.len() + i,
            forall|g: int| 0 <= g < verdicts@.len() ==> #[trigger] out@[g] == verdicts@[g].capped,
            forall|g: int| verdicts@.len() <= g < out@.len() ==> #[trigger] out@[g] == (g - verdicts@.len() < shore_count
                && nested@[g - verdicts@.len()].capped),
        decreases nested@.len() - i,
    {
        out.push(i < shore_count && nested[i].capped);
        i += 1;
    }
    out
}

/// Which hollows, then the first `shore_count` pools after them, the judge caps: too large to
/// keep, and neither of an enclosed basin nor forced.
pub open spec fn capped_by(
    hollows: Seq<HollowShape>,
    nested: Seq<HollowShape>,
    shore_count: int,
    forced: Seq<u32>,
    deep_and_wide: Seq<bool>,
    over_cap: Seq<bool>,
    nested_deep_and_wide: Seq<bool>,
    nested_over_cap: Seq<bool>,
) -> Seq<bool> {
    Seq::new(hollows.len() + nested.len(), |h: int| if h < hollows.len() {
        verdict_for(hollows[h].enclosed, meets_forced(hollows[h].members@, forced), deep_and_wide[h], over_cap[h]).capped
    } else {
        let i = h - hollows.len();
        i < shore_count && verdict_for(nested[i].enclosed, meets_forced(nested[i].members@, forced), nested_deep_and_wide[i],
            nested_over_cap[i]).capped
    })
}

/// The bake through the drainage check: every hollow judged, and every pool found on the
/// shore of an enclosed basin or inside a capped hollow (with its level; the first
/// `shore_count` on shores), the water routed ([`route`]), and the routing handed back only if
/// every node's water reaches the sea or a closed lake. An inner basin that meets its capped
/// hollow's way out (`nested_blocked`) is not kept, whatever its verdict. `Err(Drainage(k))`
/// names the lowest-index node whose water does not drain, and comes exactly when one does not.
pub fn bake_core(
    graph: &LandGraph,
    ocean: &Vec<bool>,
    enclosed_basin: &Vec<u32>,
    height_key: &Vec<u64>,
    flood: &Flood,
    hollows: &Vec<HollowShape>,
    forced: &Vec<u32>,
    deep_and_wide: &Vec<bool>,
    over_cap: &Vec<bool>,
    nested: &Vec<HollowShape>,
    nested_levels: &Vec<u64>,
    nested_deep_and_wide: &Vec<bool>,
    nested_over_cap: &Vec<bool>,
    nested_blocked: &Vec<bool>,
    shore_count: usize,
    steepest: &Vec<u32>,
) -> (r: Result<Routing, HydroError>)
    requires
        graph.node_count() <= u32::MAX,
        ocean@.len() == graph.node_count(),
        enclosed_basin@.len() == graph.node_count(),
        height_key@.len() == graph.node_count(),
        steepest@.len() == graph.node_count(),
        flood.spill_key@.len() == graph.node_count(),
        flood.parent@.len() == graph.node_count(),
        flood.order@.no_duplicates(),
        forall|a: int| 0 <= a < flood.order@.len() ==> #[trigger] flood.order@[a] < graph.node_count(),
        forall|x: int| 0 <= x < graph.node_count() ==> #[trigger] flood.parent@[x] == crate::drainage::NO_NODE || flood.parent@[x] < graph.node_count(),
        hollows_in_range(hollows@ + nested@, graph.node_count()),
        forall|h: int| 0 <= h < hollows@.len() + nested@.len() ==> #[trigger] (hollows@ + nested@)[h].members@.contains(
            (hollows@ + nested@)[h].floor),
        forall|h: int| 0 <= h < nested@.len() ==> !(#[trigger] nested@[h]).enclosed,
        hollows@.len() + nested@.len() + member_total(hollows@ + nested@) < u32::MAX,
        ascending(forced@),
        deep_and_wide@.len() == hollows@.len(),
        over_cap@.len() == hollows@.len(),
        nested_levels@.len() == nested@.len(),
        nested_deep_and_wide@.len() == nested@.len(),
        nested_over_cap@.len() == nested@.len(),
        nested_blocked@.len() == nested@.len(),
    ensures
        ({
            let kept = kept_by(hollows@, forced@, deep_and_wide@, over_cap@);
            let nested_kept = Seq::new(nested@.len(), |i: int| kept_by(nested@, forced@, nested_deep_and_wide@,
                nested_over_cap@)[i] && !nested_blocked@[i]);
            let capped = capped_by(hollows@, nested@, shore_count as int, forced@, deep_and_wide@, over_cap@,
                nested_deep_and_wide@, nested_over_cap@);
            &&& r matches Ok(routing) ==> is_routing(graph.rows(), ocean@, enclosed_basin@, height_key@, flood.spill_key@,
                flood.parent@, flood.order@, hollows@, kept, nested@, nested_levels@, nested_kept, capped, steepest@, routing)
                && forall|i: int| 0 <= i < graph.node_count() ==> drains(ocean@, routing.receiver@, routing.lake_of@, i)
            &&& r matches Err(e) ==> exists|k: u32, routing: Routing| {
                &&& e == HydroError::Drainage(k)
                &&& is_routing(graph.rows(), ocean@, enclosed_basin@, height_key@, flood.spill_key@, flood.parent@,
                    flood.order@, hollows@, kept, nested@, nested_levels@, nested_kept, capped, steepest@, routing)
                &&& k < graph.node_count()
                &&& !drains(ocean@, routing.receiver@, routing.lake_of@, k as int)
                &&& forall|i: int| 0 <= i < k ==> drains(ocean@, routing.receiver@, routing.lake_of@, i)
            }
        }),
{
    let verdicts = judge_all(hollows, forced, deep_and_wide, over_cap);
    let nested_verdicts = judge_all(nested, forced, nested_deep_and_wide, nested_over_cap);
    let kept = kept_of(&verdicts);
    let nested_kept = unblocked(&kept_of(&nested_verdicts), nested_blocked);
    let capped = capped_flags(&verdicts, &nested_verdicts, shore_count);
    let ghost spec_kept = kept_by(hollows@, forced@, deep_and_wide@, over_cap@);
    let ghost spec_nested_kept = Seq::new(nested@.len(), |i: int| kept_by(nested@, forced@, nested_deep_and_wide@,
        nested_over_cap@)[i] && !nested_blocked@[i]);
    let ghost spec_capped = capped_by(hollows@, nested@, shore_count as int, forced@, deep_and_wide@, over_cap@,
        nested_deep_and_wide@, nested_over_cap@);
    proof {
        assert(kept@ =~= spec_kept);
        assert(nested_kept@ =~= spec_nested_kept);
        assert(capped@ =~= spec_capped);
    }
    let routing = route(graph, ocean, enclosed_basin, height_key, flood, hollows, &kept, nested, nested_levels, &nested_kept,
        &capped, steepest);
    match drainage_check(ocean, &routing.receiver, &routing.lake_of) {
        Ok(()) => Ok(routing),
        Err(k) => {
            proof {
                assert(is_routing(graph.rows(), ocean@, enclosed_basin@, height_key@, flood.spill_key@, flood.parent@,
                    flood.order@, hollows@, spec_kept, nested@, nested_levels@, spec_nested_kept, spec_capped, steepest@, routing));
            }
            Err(HydroError::Drainage(k))
        },
    }
}

/// The last word of the bake: a routing is handed back only if every node's water reaches the
/// sea or a closed lake; otherwise `Drainage` names the lowest-index node whose water does not.
pub fn refuse_undrained(ocean: &Vec<bool>, routing: Routing) -> (r: Result<Routing, HydroError>)
    requires
        ocean@.len() == routing.receiver@.len(),
        routing.lake_of@.len() == routing.receiver@.len(),
        routing.receiver@.len() <= u32::MAX,
    ensures
        r is Ok <==> forall|i: int| 0 <= i < routing.receiver@.len() ==> drains(ocean@, routing.receiver@, routing.lake_of@, i),
        r matches Ok(kept) ==> kept == routing,
        r matches Err(e) ==> exists|k: u32| {
            &&& e == HydroError::Drainage(k)
            &&& k < routing.receiver@.len()
            &&& !drains(ocean@, routing.receiver@, routing.lake_of@, k as int)
            &&& forall|i: int| 0 <= i < k ==> drains(ocean@, routing.receiver@, routing.lake_of@, i)
        },
{
    match drainage_check(ocean, &routing.receiver, &routing.lake_of) {
        Ok(()) => Ok(routing),
        Err(k) => Err(HydroError::Drainage(k)),
    }
}

} // verus!
