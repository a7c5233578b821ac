//! The bake's own counts, as the record states them: land, hollows and their fates, the forced
//! outlet points and how many landed in a lake, the capped basins and their inner basins, and
//! what the lakes' extents cost.
use vstd::prelude::*;
use crate::assembly::count_kept;
use crate::drainage::NO_LAKE;
use crate::hydro::Body;

verus! {

/// The counts a bake records.
pub struct Counts {
    pub land_nodes: u32,
    pub hollows: u32,
    pub kept: u32,
    pub notched: u32,
    pub closed: u32,
    pub forced_requested: u32,
    pub forced_matched: u32,
    pub capped_basins: u32,
    pub capped_inner: u32,
    pub capped_inner_kept: u32,
    pub shore_members: u32,
    pub collar_points: u32,
}

/// Which nodes are land.
pub open spec fn land_of(ocean: Seq<bool>) -> Seq<bool> {
    Seq::new(ocean.len(), |x: int| !ocean[x])
}

/// Which entries are set in both.
pub open spec fn both(a: Seq<bool>, b: Seq<bool>) -> Seq<bool> {
    Seq::new(a.len(), |i: int| a[i] && b[i])
}

/// Which forced outlet points landed on a node under a lake.
pub open spec fn landed(nearest: Seq<Option<u32>>, lake_of: Seq<u32>) -> Seq<bool> {
    Seq::new(nearest.len(), |i: int| match nearest[i] {
        Some(node) => lake_of[node as int] != NO_LAKE,
        None => false,
    })
}

/// The shore members of all `bodies`, all told.
pub open spec fn total_shore(bodies: Seq<Body>) -> nat
    decreases bodies.len(),
{
    if bodies.len() == 0 {
        0
    } else {
        total_shore(bodies.drop_last()) + bodies.last().shore_member_count as nat
    }
}

/// The collar points of all `bodies` (outline points past the shore members), all told.
pub open spec fn total_collar(bodies: Seq<Body>) -> int
    decreases bodies.len(),
{
    if bodies.len() == 0 {
        0
    } else {
        total_collar(bodies.drop_last()) + bodies.last().outline@.len() - bodies.last().shore_member_count
    }
}

/// How many of `flags` are set, as a `u32`.
fn count_set(flags: &Vec<bool>) -> (c: u32)
    requires
        flags@.len() <= u32::MAX,
    ensures
        c == count_kept(flags@),
{
    let mut c: u32 = 0;
    let mut i: usize = 0;
    while i < flags.len()
        invariant
            i <= flags@.len(),
            flags@.len() <= u32::MAX,
            c == count_kept(flags@.take(i as int)),
            c <= i,
        decreases flags@.len() - i,
    {
        proof {
            assert(flags@.take(i + 1).drop_last() =~= flags@.take(i as int));
        }
        if flags[i] {
            c = c + 1;
        }
        i += 1;
    }
    proof {
        assert(flags@.take(flags@.len() as int) =~= flags@);
    }
    c
}

/// The bake's counts: land nodes; hollows, kept and notched (`kept` has one entry per hollow);
/// lakes `closed`; forced outlet points asked for (`nearest`, the node nearest each) and those
/// that landed under a lake; hollows `capped`, inner basins of capped hollows (`inner`) and
/// those kept; and the shore members and collar points of all `bodies`.
pub fn bake_counts(
    ocean: &Vec<bool>,
    lake_of: &Vec<u32>,
    nearest: &Vec<Option<u32>>,
    kept: &Vec<bool>,
    closed: &Vec<bool>,
    capped: &Vec<bool>,
    inner: &Vec<bool>,
    bodies: &Vec<Body>,
) -> (c: Counts)
    requires
        ocean@.len() <= u32::MAX,
        lake_of@.len() == ocean@.len(),
        nearest@.len() <= u32::MAX,
        forall|i: int| 0 <= i < nearest@.len() ==> (#[trigger] nearest@[i] matches Some(node) ==> node < ocean@.len()),
        kept@.len() <= u32::MAX,
        closed@.len() <= u32::MAX,
        capped@.len() == kept@.len(),
        inner@.len() == kept@.len(),
        forall|b: int| 0 <= b < bodies@.len() ==> (#[trigger] bodies@[b]).shore_member_count <= bodies@[b].outline@.len(),
        total_shore(bodies@) <= u32::MAX,
        total_collar(bodies@) <= u32::MAX,
    ensures
        c.land_nodes == count_kept(land_of(ocean@)),
        c.hollows == kept@.len(),
        c.kept == count_kept(kept@),
        c.notched == kept@.len() - count_kept(kept@),
        c.closed == count_kept(closed@),
        c.forced_requested == nearest@.len(),
        c.forced_matched == count_kept(landed(nearest@, lake_of@)),
        c.capped_basins == count_kept(capped@),
        c.capped_inner == count_kept(inner@),
        c.capped_inner_kept == count_kept(both(inner@, kept@)),
        c.shore_members == total_shore(bodies@),
        c.collar_points == total_collar(bodies@),
{
    let mut land: Vec<bool> = Vec::new();
    let mut i: usize = 0;
    while i < ocean.len()
        invariant
            i <= ocean@.len(),
            land@ == land_of(ocean@).take(i as int),
        decreases ocean@.len() - i,
    {
        land.push(!ocean[i]);
        proof {
            assert(land@ =~= land_of(ocean@).take(i + 1));
        }
        i += 1;
    }
    proof {
        assert(land@ =~= land_of(ocean@));
    }
    let mut hit: Vec<bool> = Vec::new();
    let mut i: usize = 0;
    while i < nearest.len()
        invariant
            i <= nearest@.len(),
            lake_of@.len() == ocean@.len(),
            forall|j: int| 0 <= j < nearest@.len() ==> (#[trigger] nearest@[j] matches Some(node) ==> node < ocean@.len()),
            hit@ == landed(nearest@, lake_of@).take(i as int),
        decreases nearest@.len() - i,
    {
        let on = match nearest[i] {
            Some(node) => lake_of[node as usize] != NO_LAKE,
            None => false,
        };
        hit.push(on);
        proof {
            assert(hit@ =~= landed(nearest@, lake_of@).take(i + 1));
        }
        i += 1;
    }
    proof {
        assert(hit@ =~= landed(nearest@, lake_of@));
    }
    let mut inner_kept: Vec<bool> = Vec::new();
    let mut i: usize = 0;
    while i < inner.len()
        invariant
            i <= inner@.len(),
            inner@.len() == kept@.len(),
            inner_kept@ == both(inner@, kept@).take(i as int),
        decreases inner@.len() - i,
    {
        inner_kept.push(inner[i] && kept[i]);
        proof {
            assert(inner_kept@ =~= both(inner@, kept@).take(i + 1));
        }
        i += 1;
    }
    proof {
        assert(inner_kept@ =~= both(inner@, kept@));
        lemma_count_at_most(kept@);
    }
    let mut shore: u64 = 0;
    let mut collar: u64 = 0;
    let mut b: usize = 0;
    while b < bodies.len()
        invariant
            b <= bodies@.len(),
            forall|k: int| 0 <= k < bodies@.len() ==> (#[trigger] bodies@[k]).shore_member_count <= bodies@[k].outline@.len(),
            total_shore(bodies@) <= u32::MAX,
            total_collar(bodies@) <= u32::MAX,
            shore == total_shore(bodies@.take(b as int)),
            collar == total_collar(bodies@.take(b as int)),
        decreases bodies@.len() - b,
    {
        proof {
            assert(bodies@.take(b + 1).drop_last() =~= bodies@.take(b as int));
            lemma_totals_grow(bodies@, b + 1);
        }
        let body = &bodies[b];
        shore = shore + body.shore_member_count as u64;
        collar = collar + (body.outline.len() - body.shore_member_count as usize) as u64;
        b += 1;
    }
    proof {
        assert(bodies@.take(bodies@.len() as int) =~= bodies@);
    }
    let kept_count = count_set(kept);
    Counts {
        land_nodes: count_set(&land),
        hollows: kept.len() as u32,
        kept: kept_count,
        notched: kept.len() as u32 - kept_count,
        closed: count_set(closed),
        forced_requested: nearest.len() as u32,
        forced_matched: count_set(&hit),
        capped_basins: count_set(capped),
        capped_inner: count_set(inner),
        capped_inner_kept: count_set(&inner_kept),
        shore_members: shore as u32,
        collar_points: collar as u32,
    }
}

proof fn lemma_count_at_most(s: Seq<bool>)
    ensures
        count_kept(s) <= s.len(),
    decreases s.len(),
{
    if s.len() > 0 {
        lemma_count_at_most(s.drop_last());
    }
}

/// The totals over the first `k` bodies are no more than over all of them.
proof fn lemma_totals_grow(bodies: Seq<Body>, k: int)
    requires
        0 <= k <= bodies.len(),
        forall|j: int| 0 <= j < bodies.len() ==> (#[trigger] bodies[j]).shore_member_count <= bodies[j].outline@.len(),
    ensures
        total_shore(bodies.take(k)) <= total_shore(bodies),
        total_collar(bodies.take(k)) <= total_collar(bodies),
        0 <= total_collar(bodies.take(k)),
    decreases bodies.len() - k,
{
    let t = bodies.take(k);
    assert forall|j: int| 0 <= j < t.len() implies (#[trigger] t[j]).shore_member_count <= t[j].outline@.len() by {
        assert(t[j] == bodies[j]);
    }
    lemma_collar_nonneg(t);
    if k < bodies.len() {
        lemma_totals_grow(bodies, k + 1);
        assert(bodies.take(k + 1).drop_last() =~= bodies.take(k));
        assert(bodies.take(k + 1).last() == bodies[k]);
    } else {
        assert(bodies.take(k) =~= bodies);
        lemma_collar_nonneg(bodies);
    }
}

proof fn lemma_collar_nonneg(bodies: Seq<Body>)
    requires
        forall|j: int| 0 <= j < bodies.len() ==> (#[trigger] bodies[j]).shore_member_count <= bodies[j].outline@.len(),
    ensures
        0 <= total_collar(bodies),
    decreases bodies.len(),
{
    if bodies.len() > 0 {
        let init = bodies.drop_last();
        assert forall|j: int| 0 <= j < init.len() implies (#[trigger] init[j]).shore_member_count <= init[j].outline@.len() by {
            assert(init[j] == bodies[j]);
        }
        lemma_collar_nonneg(init);
        assert(bodies[bodies.len() - 1] == bodies.last());
    }
}

} // verus!
