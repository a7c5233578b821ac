//! Following water downstream through the record: a lake's way out, whether a chain of reaches
//! and bodies ends at the sea, and whether the reach links close a loop anywhere.
use vstd::prelude::*;
use crate::reaches::Downstream;
use crate::drainage::{NO_NODE, NO_LAKE, drains, drains_within, drainage_check};

verus! {

/// Following reach links from reach `i` leaves the reaches (at a body, the ocean or a sink)
/// within `fuel` hops, naming only reaches that exist on the way.
pub open spec fn settles_within(links: Seq<Downstream>, i: int, fuel: nat) -> bool
    decreases fuel,
{
    match links[i] {
        Downstream::Reach(next) => next < links.len() && fuel > 0 && settles_within(links, next as int,
            (fuel - 1) as nat),
        _ => true,
    }
}

/// No walk along reach links ever comes back to a reach it has passed, or names a reach that
/// does not exist.
pub open spec fn acyclic(links: Seq<Downstream>) -> bool {
    forall|i: int| 0 <= i < links.len() ==> #[trigger] settles(links, i)
}

/// Following reach links from reach `i` leaves the reaches after some number of hops.
pub open spec fn settles(links: Seq<Downstream>, i: int) -> bool {
    exists|fuel: nat| settles_within(links, i, fuel)
}

/// The reach links as a receiver chain: a link to another reach is that reach, anything else
/// is an end of its own.
pub open spec fn link_ends(links: Seq<Downstream>) -> Seq<bool> {
    Seq::new(links.len(), |i: int| !(links[i] is Reach))
}

pub open spec fn link_receivers(links: Seq<Downstream>) -> Seq<u32> {
    Seq::new(links.len(), |i: int| match links[i] {
        Downstream::Reach(next) => next,
        _ => 0u32,
    })
}

pub open spec fn no_lakes(count: nat) -> Seq<u32> {
    Seq::new(count, |i: int| NO_LAKE)
}

proof fn lemma_settles_is_drains(links: Seq<Downstream>, i: int, fuel: nat)
    requires
        0 <= i < links.len(),
        links.len() <= u32::MAX,
    ensures
        settles_within(links, i, fuel) == drains_within(link_ends(links), link_receivers(links),
            no_lakes(links.len()), i, fuel),
    decreases fuel,
{
    let (e, r, l) = (link_ends(links), link_receivers(links), no_lakes(links.len()));
    match links[i] {
        Downstream::Reach(next) => {
            if next < links.len() && fuel > 0 {
                lemma_settles_is_drains(links, next as int, (fuel - 1) as nat);
            }
            if next == NO_NODE {
                assert(l[i] == NO_LAKE);
            }
        },
        _ => {},
    }
}

/// Walks downstream from every reach and answers whether none of the walks comes back to a
/// reach it has passed or names a reach that does not exist.
pub fn reaches_are_acyclic(links: &Vec<Downstream>) -> (ok: bool)
    requires
        links@.len() <= u32::MAX,
    ensures
        ok == acyclic(links@),
{
    let n = links.len();
    let mut ends: Vec<bool> = Vec::new();
    let mut receivers: Vec<u32> = Vec::new();
    let mut lakes: Vec<u32> = Vec::new();
    let mut i: usize = 0;
    while i < n
        invariant
            i <= n,
            n == links@.len(),
            ends@ == link_ends(links@).take(i as int),
            receivers@ == link_receivers(links@).take(i as int),
            lakes@ == no_lakes(n as nat).take(i as int),
        decreases n - i,
    {
        match links[i] {
            Downstream::Reach(next) => {
                ends.push(false);
                receivers.push(next);
            },
            _ => {
                ends.push(true);
                receivers.push(0u32);
            },
        }
        lakes.push(NO_LAKE);
        proof {
            assert(ends@ =~= link_ends(links@).take(i + 1));
            assert(receivers@ =~= link_receivers(links@).take(i + 1));
            assert(lakes@ =~= no_lakes(n as nat).take(i + 1));
        }
        i += 1;
    }
    proof {
        assert(ends@ =~= link_ends(links@));
        assert(receivers@ =~= link_receivers(links@));
        assert(lakes@ =~= no_lakes(n as nat));
    }
    let checked = drainage_check(&ends, &receivers, &lakes);
    proof {
        let (e, r, l) = (link_ends(links@), link_receivers(links@), no_lakes(n as nat));
        if checked is Ok {
            assert forall|k: int| 0 <= k < n implies #[trigger] settles(links@, k) by {
                assert(drains(e, r, l, k));
                let fuel = choose|fuel: nat| drains_within(e, r, l, k, fuel);
                lemma_settles_is_drains(links@, k, fuel);
            }
        } else {
            let k = checked->Err_0 as int;
            assert(!drains(e, r, l, k));
            assert forall|fuel: nat| !settles_within(links@, k, fuel) by {
                lemma_settles_is_drains(links@, k, fuel);
            }
            assert(!settles(links@, k));
        }
    }
    checked.is_ok()
}

/// Following `here` through reach links and body links for at most `fuel` hops reaches the
/// ocean (a sink, or running out of hops, is not fresh).
pub open spec fn fresh_within(
    body_links: Seq<Downstream>,
    reach_links: Seq<Downstream>,
    here: Downstream,
    fuel: nat,
) -> bool
    decreases fuel,
{
    if fuel == 0 {
        false
    } else {
        match here {
            Downstream::Ocean => true,
            Downstream::Sink => false,
            Downstream::Reach(id) => fresh_within(body_links, reach_links, reach_links[id as int],
                (fuel - 1) as nat),
            Downstream::Body(id) => fresh_within(body_links, reach_links, body_links[id as int],
                (fuel - 1) as nat),
        }
    }
}

/// Every link names a reach or a body that exists.
pub open spec fn link_in_range(d: Downstream, bodies: nat, reaches: nat) -> bool {
    match d {
        Downstream::Reach(id) => id < reaches,
        Downstream::Body(id) => id < bodies,
        _ => true,
    }
}

/// Whether following `start` through reaches and bodies ends at the ocean rather than at a
/// closed lake's sink. The walk is cut off after one more hop than there are reaches and
/// bodies, which no chain without a loop needs; a loop answers `false`.
pub fn downstream_is_fresh(body_links: &Vec<Downstream>, reach_links: &Vec<Downstream>, start: Downstream)
    -> (fresh: bool)
    requires
        reach_links@.len() + body_links@.len() + 1 <= usize::MAX,
        link_in_range(start, body_links@.len(), reach_links@.len()),
        forall|i: int| 0 <= i < body_links@.len() ==> link_in_range(#[trigger] body_links@[i],
            body_links@.len(), reach_links@.len()),
        forall|i: int| 0 <= i < reach_links@.len() ==> link_in_range(#[trigger] reach_links@[i],
            body_links@.len(), reach_links@.len()),
    ensures
        fresh == fresh_within(body_links@, reach_links@, start,
            (reach_links@.len() + body_links@.len() + 1) as nat),
{
    let bound = reach_links.len() + body_links.len() + 1;
    let mut here = start;
    let mut step: usize = 0;
    while step < bound
        invariant
            step <= bound,
            bound == reach_links@.len() + body_links@.len() + 1,
            link_in_range(here, body_links@.len(), reach_links@.len()),
            forall|i: int| 0 <= i < body_links@.len() ==> link_in_range(#[trigger] body_links@[i],
                body_links@.len(), reach_links@.len()),
            forall|i: int| 0 <= i < reach_links@.len() ==> link_in_range(#[trigger] reach_links@[i],
                body_links@.len(), reach_links@.len()),
            fresh_within(body_links@, reach_links@, here, (bound - step) as nat)
                == fresh_within(body_links@, reach_links@, start, bound as nat),
        decreases bound - step,
    {
        match here {
            Downstream::Ocean => {
                return true;
            },
            Downstream::Sink => {
                return false;
            },
            Downstream::Reach(id) => {
                here = reach_links[id as usize];
            },
            Downstream::Body(id) => {
                here = body_links[id as usize];
            },
        }
        step += 1;
    }
    false
}

/// Where a lake's water goes, walking the receiver chain from `node` for at most `fuel`
/// nodes: the ocean, another lake (by its body id), the reach that starts at a node, or a sink
/// when the chain stops or the walk runs out. At each node the ocean is asked first, then
/// another lake, then the start of a reach.
pub open spec fn lake_way_out(
    ocean: Seq<bool>,
    receiver: Seq<u32>,
    lake_of: Seq<u32>,
    hollow_index: u32,
    reach_of_first_node: Seq<u32>,
    body_id_of_hollow: Seq<Option<u32>>,
    node: u32,
    fuel: nat,
) -> Downstream
    decreases fuel,
{
    if node == NO_NODE || fuel == 0 {
        Downstream::Sink
    } else if ocean[node as int] {
        Downstream::Ocean
    } else if lake_of[node as int] != NO_LAKE && lake_of[node as int] != hollow_index {
        Downstream::Body(body_id_of_hollow[lake_of[node as int] as int].unwrap())
    } else if reach_of_first_node[node as int] != u32::MAX {
        Downstream::Reach(reach_of_first_node[node as int])
    } else {
        lake_way_out(ocean, receiver, lake_of, hollow_index, reach_of_first_node, body_id_of_hollow,
            receiver[node as int], (fuel - 1) as nat)
    }
}

/// Where the water of the lake numbered `hollow_index` goes: down the receiver chain from its
/// lake entry, answered by `lake_way_out` with one step per node. A node of this same lake is
/// not "another lake".
pub fn body_downstream(
    ocean: &Vec<bool>,
    receiver: &Vec<u32>,
    lake_of: &Vec<u32>,
    hollow_index: u32,
    lake_entry: u32,
    reach_of_first_node: &Vec<u32>,
    body_id_of_hollow: &Vec<Option<u32>>,
) -> (way_out: Downstream)
    requires
        ocean@.len() == receiver@.len(),
        lake_of@.len() == receiver@.len(),
        reach_of_first_node@.len() == receiver@.len(),
        lake_entry < receiver@.len(),
        forall|i: int| 0 <= i < receiver@.len() ==> #[trigger] receiver@[i] == NO_NODE
            || receiver@[i] < receiver@.len(),
        forall|i: int| 0 <= i < receiver@.len() && #[trigger] lake_of@[i] != NO_LAKE
            && lake_of@[i] != hollow_index ==> lake_of@[i] < body_id_of_hollow@.len()
            && body_id_of_hollow@[lake_of@[i] as int] is Some,
    ensures
        way_out == lake_way_out(ocean@, receiver@, lake_of@, hollow_index, reach_of_first_node@,
            body_id_of_hollow@, receiver@[lake_entry as int], receiver@.len()),
{
    let n = receiver.len();
    let mut here = receiver[lake_entry as usize];
    let mut steps: usize = 0;
    loop
        invariant
            steps <= n,
            n == receiver@.len(),
            ocean@.len() == n,
            lake_of@.len() == n,
            reach_of_first_node@.len() == n,
            here == NO_NODE || here < n,
            forall|i: int| 0 <= i < n ==> #[trigger] receiver@[i] == NO_NODE || receiver@[i] < n,
            forall|i: int| 0 <= i < n && #[trigger] lake_of@[i] != NO_LAKE && lake_of@[i] != hollow_index
                ==> lake_of@[i] < body_id_of_hollow@.len() && body_id_of_hollow@[lake_of@[i] as int] is Some,
            lake_way_out(ocean@, receiver@, lake_of@, hollow_index, reach_of_first_node@,
                body_id_of_hollow@, here, (n - steps) as nat) == lake_way_out(ocean@, receiver@, lake_of@,
                hollow_index, reach_of_first_node@, body_id_of_hollow@, receiver@[lake_entry as int],
                n as nat),
        decreases n - steps,
    {
        if here == NO_NODE {
            return Downstream::Sink;
        }
        if steps >= n {
            return Downstream::Sink;
        }
        steps += 1;
        let i = here as usize;
        if ocean[i] {
            return Downstream::Ocean;
        }
        let lake = lake_of[i];
        if lake != NO_LAKE && lake != hollow_index {
            let body_id = body_id_of_hollow[lake as usize].unwrap();
            return Downstream::Body(body_id);
        }
        if reach_of_first_node[i] != u32::MAX {
            return Downstream::Reach(reach_of_first_node[i]);
        }
        here = receiver[i];
    }
}

} // verus!
