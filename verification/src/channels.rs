//! Cutting the channel network into reaches.
//!
//! A channel node carries enough water, and is neither ocean nor lake. A reach starts at every
//! channel node that is not fed by exactly one channel node -- a source, or a confluence -- and
//! at every node a lake pours into. It runs down the receiver chain until the ocean, a lake, the
//! start of another reach, or the end of the chain.
use vstd::prelude::*;
use crate::drainage::{NO_LAKE, NO_NODE, drainage_check, drains, drains_within};
use crate::reaches::{Downstream, Reach, ReachClass, inputs_of, reach_downstreams, reach_orders, strahler, strahler_rule, strahler_settled, lemma_acyclic_networks_settle};
use crate::links::{acyclic, settles, settles_within};

verus! {

/// Node `i` carries a channel.
pub open spec fn channel_spec(ocean: Seq<bool>, lake_of: Seq<u32>, wet: Seq<bool>, i: int) -> bool {
    !ocean[i] && lake_of[i] == NO_LAKE && wet[i]
}

/// How many channel nodes below `k` send their water to `i`.
pub open spec fn feeders_upto(ocean: Seq<bool>, receiver: Seq<u32>, lake_of: Seq<u32>, wet: Seq<bool>, i: int, k: int) -> nat
    decreases k,
{
    if k <= 0 {
        0
    } else {
        feeders_upto(ocean, receiver, lake_of, wet, i, k - 1) + if channel_spec(ocean, lake_of, wet, k - 1)
            && receiver[k - 1] == i {
            1nat
        } else {
            0nat
        }
    }
}

/// Node `i` is out of every lake and some lake member pours into it.
pub open spec fn lake_outlet(receiver: Seq<u32>, lake_of: Seq<u32>, i: int) -> bool {
    lake_of[i] == NO_LAKE && exists|j: int| 0 <= j < receiver.len() && lake_of[j] != NO_LAKE && #[trigger] receiver[j] == i
}

/// A reach starts at node `i`.
pub open spec fn starts_reach(ocean: Seq<bool>, receiver: Seq<u32>, lake_of: Seq<u32>, wet: Seq<bool>, i: int) -> bool {
    channel_spec(ocean, lake_of, wet, i) && (feeders_upto(ocean, receiver, lake_of, wet, i, receiver.len() as int) != 1
        || lake_outlet(receiver, lake_of, i))
}

/// Where the walk down from `here` goes within `fuel` steps: the nodes after `here`, where the
/// water ends up, and whether the walk stopped on its own rather than running out of steps.
pub open spec fn walk(
    ocean: Seq<bool>,
    receiver: Seq<u32>,
    lake_of: Seq<u32>,
    starts: Seq<u32>,
    here: int,
    fuel: nat,
) -> (Seq<u32>, Downstream, bool)
    decreases fuel,
{
    let next = receiver[here];
    if next == NO_NODE {
        (Seq::empty(), Downstream::Sink, true)
    } else if ocean[next as int] {
        (seq![next], Downstream::Ocean, true)
    } else if lake_of[next as int] != NO_LAKE {
        (seq![next], Downstream::Body(lake_of[next as int]), true)
    } else if starts.contains(next) {
        (seq![next], Downstream::Reach(starts.index_of(next) as u32), true)
    } else if fuel == 0 {
        (Seq::empty(), Downstream::Sink, false)
    } else {
        let rest = walk(ocean, receiver, lake_of, starts, next as int, (fuel - 1) as nat);
        (seq![next] + rest.0, rest.1, rest.2)
    }
}

/// The reach starts below `k`, ascending.
pub open spec fn starts_upto(ocean: Seq<bool>, receiver: Seq<u32>, lake_of: Seq<u32>, wet: Seq<bool>, k: int) -> Seq<u32>
    decreases k,
{
    if k <= 0 {
        Seq::empty()
    } else if starts_reach(ocean, receiver, lake_of, wet, k - 1) {
        starts_upto(ocean, receiver, lake_of, wet, k - 1).push((k - 1) as u32)
    } else {
        starts_upto(ocean, receiver, lake_of, wet, k - 1)
    }
}

/// Every reach start, ascending: reach `k` starts at the `k`th.
pub open spec fn reach_starts(ocean: Seq<bool>, receiver: Seq<u32>, lake_of: Seq<u32>, wet: Seq<bool>) -> Seq<u32> {
    starts_upto(ocean, receiver, lake_of, wet, receiver.len() as int)
}

proof fn lemma_starts_upto(ocean: Seq<bool>, receiver: Seq<u32>, lake_of: Seq<u32>, wet: Seq<bool>, k: int)
    requires
        0 <= k <= receiver.len(),
        receiver.len() <= u32::MAX,
    ensures
        forall|a: int, b: int|
            0 <= a < b < starts_upto(ocean, receiver, lake_of, wet, k).len() ==> #[trigger] starts_upto(ocean, receiver,
                lake_of, wet, k)[a] < #[trigger] starts_upto(ocean, receiver, lake_of, wet, k)[b],
        forall|m: int|
            0 <= m < starts_upto(ocean, receiver, lake_of, wet, k).len() ==> #[trigger] starts_upto(ocean, receiver,
                lake_of, wet, k)[m] < k && starts_reach(ocean, receiver, lake_of, wet, starts_upto(ocean, receiver,
                lake_of, wet, k)[m] as int),
        forall|x: int|
            0 <= x < k && starts_reach(ocean, receiver, lake_of, wet, x) ==> #[trigger] starts_upto(ocean, receiver,
                lake_of, wet, k).contains(x as u32),
        starts_upto(ocean, receiver, lake_of, wet, k).len() <= k,
    decreases k,
{
    if k > 0 {
        lemma_starts_upto(ocean, receiver, lake_of, wet, k - 1);
        let prev = starts_upto(ocean, receiver, lake_of, wet, k - 1);
        if starts_reach(ocean, receiver, lake_of, wet, k - 1) {
            let cur = prev.push((k - 1) as u32);
            assert(cur[cur.len() - 1] == (k - 1) as u32);
            assert forall|x: int| 0 <= x < k && starts_reach(ocean, receiver, lake_of, wet, x) implies #[trigger] cur.contains(
                x as u32,
            ) by {
                if x < k - 1 {
                    assert(prev.contains(x as u32));
                    let m = choose|m: int| 0 <= m < prev.len() && prev[m] == x as u32;
                    assert(cur[m] == prev[m]);
                } else {
                    assert(cur[cur.len() - 1] == x as u32);
                }
            }
        }
    }
}

/// Once a walk stops on its own, more steps change nothing.
pub proof fn lemma_walk_settles(
    ocean: Seq<bool>,
    receiver: Seq<u32>,
    lake_of: Seq<u32>,
    starts: Seq<u32>,
    here: int,
    f: nat,
    g: nat,
)
    requires
        walk(ocean, receiver, lake_of, starts, here, f).2,
        f <= g,
    ensures
        walk(ocean, receiver, lake_of, starts, here, g) == walk(ocean, receiver, lake_of, starts, here, f),
    decreases f,
{
    let next = receiver[here];
    if next != NO_NODE && !ocean[next as int] && lake_of[next as int] == NO_LAKE && !starts.contains(next) && f > 0 {
        lemma_walk_settles(ocean, receiver, lake_of, starts, next as int, (f - 1) as nat, (g - 1) as nat);
    }
}

/// The node whose flow classes a reach: the last, or the one before when the last is ocean or lake.
pub open spec fn gauge_of(ocean: Seq<bool>, lake_of: Seq<u32>, nodes: Seq<u32>) -> u32 {
    let last = nodes.last();
    if ocean[last as int] || lake_of[last as int] != NO_LAKE {
        nodes[nodes.len() - 2]
    } else {
        last
    }
}

/// `nodes` and `downstream` make the reach that starts at `start`: the nodes are `start` and
/// then those of a walk down from it that stops on its own, and the water goes where that walk
/// ends.
pub open spec fn walks_from(
    ocean: Seq<bool>,
    receiver: Seq<u32>,
    lake_of: Seq<u32>,
    starts: Seq<u32>,
    start: u32,
    nodes: Seq<u32>,
    downstream: Downstream,
) -> bool {
    exists|f: nat|
        #[trigger] walk(ocean, receiver, lake_of, starts, start as int, f).2 && nodes == seq![start] + walk(
            ocean,
            receiver,
            lake_of,
            starts,
            start as int,
            f,
        ).0 && downstream == walk(ocean, receiver, lake_of, starts, start as int, f).1
}

/// A reach's class by the flow at its gauge node, as order-keeping keys.
pub open spec fn class_of(flow_key: u64, river_key: u64, great_key: u64) -> ReachClass {
    if flow_key >= great_key {
        ReachClass::Great
    } else if flow_key >= river_key {
        ReachClass::River
    } else {
        ReachClass::Stream
    }
}

/// A reach's class by the flow at its gauge: a great river exactly when the flow reaches the
/// great threshold, a river exactly when it reaches the river threshold but not the great one,
/// and a stream exactly when it reaches neither.
pub proof fn lemma_class_bands(flow_key: u64, river_key: u64, great_key: u64)
    ensures
        class_of(flow_key, river_key, great_key) == ReachClass::Great <==> flow_key >= great_key,
        class_of(flow_key, river_key, great_key) == ReachClass::River <==> river_key <= flow_key < great_key,
        class_of(flow_key, river_key, great_key) == ReachClass::Stream <==> flow_key < river_key && flow_key < great_key,
{
}

/// Which nodes carry enough water for a channel.
pub open spec fn wet_of(flow_key: Seq<u64>, stream_key: u64) -> Seq<bool> {
    Seq::new(flow_key.len(), |i: int| flow_key[i] >= stream_key)
}

/// A node that drains within some number of steps drains within any larger number too.
proof fn lemma_drains_with_more(ocean: Seq<bool>, receiver: Seq<u32>, lake_of: Seq<u32>, i: int, f: nat, g: nat)
    requires
        drains_within(ocean, receiver, lake_of, i, f),
        f <= g,
    ensures
        drains_within(ocean, receiver, lake_of, i, g),
    decreases f,
{
    if !ocean[i] && receiver[i] != NO_NODE && receiver[i] < receiver.len() && f > 0 {
        lemma_drains_with_more(ocean, receiver, lake_of, receiver[i] as int, (f - 1) as nat, (g - 1) as nat);
    }
}

/// A walk that ends on another reach ends on that reach's start.
proof fn lemma_walk_ends_on_a_start(
    ocean: Seq<bool>,
    receiver: Seq<u32>,
    lake_of: Seq<u32>,
    starts: Seq<u32>,
    here: int,
    g: nat,
)
    requires
        starts.len() < u32::MAX,
        walk(ocean, receiver, lake_of, starts, here, g).2,
        walk(ocean, receiver, lake_of, starts, here, g).1 is Reach,
    ensures
        ({
            let w = walk(ocean, receiver, lake_of, starts, here, g);
            let r = w.1->Reach_0 as int;
            &&& w.0.len() >= 1
            &&& 0 <= r < starts.len()
            &&& starts[r] == w.0.last()
        }),
    decreases g,
{
    let next = receiver[here];
    if !starts.contains(next) {
        lemma_walk_ends_on_a_start(ocean, receiver, lake_of, starts, next as int, (g - 1) as nat);
    }
}

/// The start a walk ends on drains in fewer steps than the node the walk left from.
proof fn lemma_walk_drains_less(
    ocean: Seq<bool>,
    receiver: Seq<u32>,
    lake_of: Seq<u32>,
    starts: Seq<u32>,
    here: int,
    g: nat,
    f: nat,
)
    requires
        starts.len() < u32::MAX,
        walk(ocean, receiver, lake_of, starts, here, g).2,
        walk(ocean, receiver, lake_of, starts, here, g).1 is Reach,
        !ocean[here],
        drains_within(ocean, receiver, lake_of, here, f),
    ensures
        ({
            let r = walk(ocean, receiver, lake_of, starts, here, g).1->Reach_0 as int;
            &&& f >= 1
            &&& drains_within(ocean, receiver, lake_of, starts[r] as int, (f - 1) as nat)
        }),
    decreases g,
{
    lemma_walk_ends_on_a_start(ocean, receiver, lake_of, starts, here, g);
    let next = receiver[here];
    if !starts.contains(next) {
        lemma_walk_drains_less(ocean, receiver, lake_of, starts, next as int, (g - 1) as nat, (f - 1) as nat);
        let rest = walk(ocean, receiver, lake_of, starts, next as int, (g - 1) as nat);
        let r = rest.1->Reach_0 as int;
        lemma_drains_with_more(ocean, receiver, lake_of, starts[r] as int, (f - 2) as nat, (f - 1) as nat);
    }
}

/// A node that drains, and is not ocean, starts a walk that stops on its own.
proof fn lemma_draining_walk_stops(
    ocean: Seq<bool>,
    receiver: Seq<u32>,
    lake_of: Seq<u32>,
    starts: Seq<u32>,
    here: int,
    f: nat,
)
    requires
        !ocean[here],
        drains_within(ocean, receiver, lake_of, here, f),
    ensures
        walk(ocean, receiver, lake_of, starts, here, f).2,
    decreases f,
{
    let next = receiver[here];
    if next != NO_NODE && !ocean[next as int] && lake_of[next as int] == NO_LAKE && !starts.contains(next) {
        lemma_draining_walk_stops(ocean, receiver, lake_of, starts, next as int, (f - 1) as nat);
    }
}

/// If every reach link leads to a start that drains in fewer steps, following the links from a
/// reach whose start drains within `f` steps leaves the reaches within `f` hops.
proof fn lemma_settles_by_draining(
    ocean: Seq<bool>,
    receiver: Seq<u32>,
    lake_of: Seq<u32>,
    starts: Seq<u32>,
    reaches: Seq<Reach>,
    f: nat,
    k: int,
)
    requires
        starts.len() == reaches.len(),
        0 <= k < reaches.len(),
        drains_within(ocean, receiver, lake_of, starts[k] as int, f),
        forall|j: int|
            0 <= j < reaches.len() && (#[trigger] reaches[j]).downstream is Reach ==> {
                let r = reaches[j].downstream->Reach_0 as int;
                &&& r < reaches.len()
                &&& forall|e: nat|
                    #[trigger] drains_within(ocean, receiver, lake_of, starts[j] as int, e) ==> e >= 1 && drains_within(
                        ocean,
                        receiver,
                        lake_of,
                        starts[r] as int,
                        (e - 1) as nat,
                    )
            },
    ensures
        settles_within(reach_downstreams(reaches), k, f),
    decreases f,
{
    let links = reach_downstreams(reaches);
    if reaches[k].downstream is Reach {
        let r = reaches[k].downstream->Reach_0 as int;
        lemma_settles_by_draining(ocean, receiver, lake_of, starts, reaches, (f - 1) as nat, r);
    }
}

/// The walk down from `start` stops on its own after some number of steps.
pub open spec fn walk_ends(ocean: Seq<bool>, receiver: Seq<u32>, lake_of: Seq<u32>, starts: Seq<u32>, start: u32) -> bool {
    exists|f: nat| #[trigger] walk(ocean, receiver, lake_of, starts, start as int, f).2
}

/// Every walk down from a reach start stops on its own: at a sink, the ocean, a lake or the
/// start of another reach.
pub open spec fn walks_end(ocean: Seq<bool>, receiver: Seq<u32>, lake_of: Seq<u32>, starts: Seq<u32>) -> bool {
    forall|k: int| 0 <= k < starts.len() ==> #[trigger] walk_ends(ocean, receiver, lake_of, starts, starts[k])
}

/// Where every node drains, every walk down from a reach start stops on its own.
pub proof fn lemma_draining_walks_end(ocean: Seq<bool>, receiver: Seq<u32>, lake_of: Seq<u32>, wet: Seq<bool>)
    requires
        ocean.len() == receiver.len(),
        lake_of.len() == receiver.len(),
        wet.len() == receiver.len(),
        receiver.len() < u32::MAX,
        forall|i: int| 0 <= i < receiver.len() ==> #[trigger] drains(ocean, receiver, lake_of, i),
    ensures
        walks_end(ocean, receiver, lake_of, reach_starts(ocean, receiver, lake_of, wet)),
{
    let st = reach_starts(ocean, receiver, lake_of, wet);
    lemma_starts_upto(ocean, receiver, lake_of, wet, receiver.len() as int);
    assert forall|k: int| 0 <= k < st.len() implies #[trigger] walk_ends(ocean, receiver, lake_of, st, st[k]) by {
        assert(starts_reach(ocean, receiver, lake_of, wet, st[k] as int));
        assert(drains(ocean, receiver, lake_of, st[k] as int));
        let f = choose|f: nat| drains_within(ocean, receiver, lake_of, st[k] as int, f);
        lemma_draining_walk_stops(ocean, receiver, lake_of, st, st[k] as int, f);
    }
}

/// The reaches cut from a network fit together: a reach that drains into another names a reach
/// that exists, and ends on that reach's first node.
pub proof fn lemma_tributaries_meet_their_receiver(
    ocean: Seq<bool>,
    receiver: Seq<u32>,
    lake_of: Seq<u32>,
    wet: Seq<bool>,
    reaches: Seq<Reach>,
)
    requires
        ocean.len() == receiver.len(),
        lake_of.len() == receiver.len(),
        wet.len() == receiver.len(),
        receiver.len() < u32::MAX,
        reaches.len() == reach_starts(ocean, receiver, lake_of, wet).len(),
        forall|k: int|
            0 <= k < reaches.len() ==> #[trigger] walks_from(
                ocean,
                receiver,
                lake_of,
                reach_starts(ocean, receiver, lake_of, wet),
                reach_starts(ocean, receiver, lake_of, wet)[k],
                reaches[k].nodes@,
                reaches[k].downstream,
            ),
    ensures
        forall|k: int|
            0 <= k < reaches.len() && (#[trigger] reaches[k]).downstream is Reach ==> {
                let r = reaches[k].downstream->Reach_0 as int;
                r < reaches.len() && reaches[k].nodes@.last() == reaches[r].nodes@[0]
            },
{
    let st = reach_starts(ocean, receiver, lake_of, wet);
    lemma_starts_upto(ocean, receiver, lake_of, wet, receiver.len() as int);
    assert forall|k: int| 0 <= k < reaches.len() && (#[trigger] reaches[k]).downstream is Reach implies ({
        let r = reaches[k].downstream->Reach_0 as int;
        r < reaches.len() && reaches[k].nodes@.last() == reaches[r].nodes@[0]
    }) by {
        assert(walks_from(ocean, receiver, lake_of, st, st[k], reaches[k].nodes@, reaches[k].downstream));
        let g = choose|g: nat|
            #[trigger] walk(ocean, receiver, lake_of, st, st[k] as int, g).2 && reaches[k].nodes@ == seq![st[k]] + walk(
                ocean,
                receiver,
                lake_of,
                st,
                st[k] as int,
                g,
            ).0 && reaches[k].downstream == walk(ocean, receiver, lake_of, st, st[k] as int, g).1;
        let w = walk(ocean, receiver, lake_of, st, st[k] as int, g);
        let r = reaches[k].downstream->Reach_0 as int;
        lemma_walk_ends_on_a_start(ocean, receiver, lake_of, st, st[k] as int, g);
        assert(walks_from(ocean, receiver, lake_of, st, st[r], reaches[r].nodes@, reaches[r].downstream));
        let g2 = choose|g2: nat|
            #[trigger] walk(ocean, receiver, lake_of, st, st[r] as int, g2).2 && reaches[r].nodes@ == seq![st[r]] + walk(
                ocean,
                receiver,
                lake_of,
                st,
                st[r] as int,
                g2,
            ).0 && reaches[r].downstream == walk(ocean, receiver, lake_of, st, st[r] as int, g2).1;
        assert(reaches[r].nodes@[0] == st[r]);
        assert(reaches[k].nodes@.last() == w.0.last());
    }
}

/// Reach `k`'s link, when it names a reach, names one that exists and whose start drains in
/// fewer steps than reach `k`'s.
proof fn lemma_link_drains_less(
    ocean: Seq<bool>,
    receiver: Seq<u32>,
    lake_of: Seq<u32>,
    starts: Seq<u32>,
    reaches: Seq<Reach>,
    k: int,
)
    requires
        starts.len() < u32::MAX,
        0 <= k < reaches.len(),
        reaches[k].downstream is Reach,
        !ocean[starts[k] as int],
        walks_from(ocean, receiver, lake_of, starts, starts[k], reaches[k].nodes@, reaches[k].downstream),
    ensures
        ({
            let r = reaches[k].downstream->Reach_0 as int;
            &&& r < starts.len()
            &&& forall|f: nat|
                #[trigger] drains_within(ocean, receiver, lake_of, starts[k] as int, f) ==> f >= 1 && drains_within(
                    ocean,
                    receiver,
                    lake_of,
                    starts[r] as int,
                    (f - 1) as nat,
                )
        }),
{
    let g = choose|g: nat|
        #[trigger] walk(ocean, receiver, lake_of, starts, starts[k] as int, g).2 && reaches[k].nodes@ == seq![starts[k]]
            + walk(ocean, receiver, lake_of, starts, starts[k] as int, g).0 && reaches[k].downstream == walk(
            ocean,
            receiver,
            lake_of,
            starts,
            starts[k] as int,
            g,
        ).1;
    lemma_walk_ends_on_a_start(ocean, receiver, lake_of, starts, starts[k] as int, g);
    assert forall|f: nat| #[trigger] drains_within(ocean, receiver, lake_of, starts[k] as int, f) implies f >= 1
        && drains_within(
        ocean,
        receiver,
        lake_of,
        starts[(reaches[k].downstream->Reach_0) as int] as int,
        (f - 1) as nat,
    ) by {
        lemma_walk_drains_less(ocean, receiver, lake_of, starts, starts[k] as int, g, f);
    }
}

/// On a network where every node drains, no walk along the links of the reaches cut from it
/// comes back to a reach it has passed.
pub proof fn lemma_draining_reaches_close_no_loop(
    ocean: Seq<bool>,
    receiver: Seq<u32>,
    lake_of: Seq<u32>,
    wet: Seq<bool>,
    reaches: Seq<Reach>,
)
    requires
        ocean.len() == receiver.len(),
        lake_of.len() == receiver.len(),
        wet.len() == receiver.len(),
        receiver.len() < u32::MAX,
        forall|i: int| 0 <= i < receiver.len() ==> #[trigger] drains(ocean, receiver, lake_of, i),
        reaches.len() == reach_starts(ocean, receiver, lake_of, wet).len(),
        forall|k: int|
            0 <= k < reaches.len() ==> #[trigger] walks_from(
                ocean,
                receiver,
                lake_of,
                reach_starts(ocean, receiver, lake_of, wet),
                reach_starts(ocean, receiver, lake_of, wet)[k],
                reaches[k].nodes@,
                reaches[k].downstream,
            ),
    ensures
        acyclic(reach_downstreams(reaches)),
{
    let st = reach_starts(ocean, receiver, lake_of, wet);
    let links = reach_downstreams(reaches);
    lemma_starts_upto(ocean, receiver, lake_of, wet, receiver.len() as int);
    assert forall|k: int| 0 <= k < reaches.len() && (#[trigger] reaches[k]).downstream is Reach implies ({
        let r = reaches[k].downstream->Reach_0 as int;
        &&& r < reaches.len()
        &&& forall|f: nat|
            #[trigger] drains_within(ocean, receiver, lake_of, st[k] as int, f) ==> f >= 1 && drains_within(
                ocean,
                receiver,
                lake_of,
                st[r] as int,
                (f - 1) as nat,
            )
    }) by {
        assert(walks_from(ocean, receiver, lake_of, st, st[k], reaches[k].nodes@, reaches[k].downstream));
        assert(starts_reach(ocean, receiver, lake_of, wet, st[k] as int));
        lemma_link_drains_less(ocean, receiver, lake_of, st, reaches, k);
    }
    assert forall|f: nat, k: int|
        0 <= k < reaches.len() && drains_within(ocean, receiver, lake_of, st[k] as int, f) implies settles_within(
        links,
        k,
        f,
    ) by {
        lemma_settles_by_draining(ocean, receiver, lake_of, st, reaches, f, k);
    }
    assert forall|k: int| 0 <= k < links.len() implies #[trigger] settles(links, k) by {
        assert(drains(ocean, receiver, lake_of, st[k] as int));
        let f = choose|f: nat| drains_within(ocean, receiver, lake_of, st[k] as int, f);
        assert(settles_within(links, k, f));
    }
}

/// The orders of reaches not yet ordered.
pub open spec fn unordered(count: nat) -> Seq<u32> {
    Seq::new(count, |k: int| 0u32)
}

/// `reach` is the `k`th reach cut from the network: it walks down from the `k`th start, and its
/// class goes by the flow at its gauge node.
pub open spec fn cut_as(
    ocean: Seq<bool>,
    receiver: Seq<u32>,
    lake_of: Seq<u32>,
    flow_key: Seq<u64>,
    river_key: u64,
    great_key: u64,
    starts: Seq<u32>,
    k: int,
    reach: Reach,
) -> bool {
    &&& walks_from(ocean, receiver, lake_of, starts, starts[k], reach.nodes@, reach.downstream)
    &&& reach.class == class_of(flow_key[gauge_of(ocean, lake_of, reach.nodes@) as int], river_key, great_key)
}

/// Cuts the channel network into reaches and orders them. A node carries a channel when its
/// flow reaches `stream_key`; flows and thresholds come as order-keeping keys. Reach `k` starts
/// at the `k`th reach start and runs down the receiver chain as `walk` says; its class goes by
/// the flow at its gauge node, and its order follows the Strahler rule.
pub fn extract(
    ocean: &Vec<bool>,
    receiver: &Vec<u32>,
    lake_of: &Vec<u32>,
    flow_key: &Vec<u64>,
    stream_key: u64,
    river_key: u64,
    great_key: u64,
) -> (reaches: Vec<Reach>)
    requires
        ocean@.len() == receiver@.len(),
        lake_of@.len() == receiver@.len(),
        flow_key@.len() == receiver@.len(),
        receiver@.len() < u32::MAX - 1,
        forall|i: int| 0 <= i < receiver@.len() ==> #[trigger] receiver@[i] == NO_NODE || receiver@[i] < receiver@.len(),
        walks_end(ocean@, receiver@, lake_of@, reach_starts(ocean@, receiver@, lake_of@, wet_of(flow_key@, stream_key))),
    ensures
        reaches@.len() == reach_starts(ocean@, receiver@, lake_of@, wet_of(flow_key@, stream_key)).len(),
        forall|k: int|
            0 <= k < reaches@.len() ==> #[trigger] cut_as(
                ocean@,
                receiver@,
                lake_of@,
                flow_key@,
                river_key,
                great_key,
                reach_starts(ocean@, receiver@, lake_of@, wet_of(flow_key@, stream_key)),
                k,
                reaches@[k],
            ),
        exists|settled: Seq<bool>, rank: Seq<nat>|
            strahler_settled(
                reach_downstreams(reaches@),
                unordered(reaches@.len()),
                reach_orders(reaches@),
                settled,
                rank,
            ),
        (forall|i: int| 0 <= i < receiver@.len() ==> #[trigger] drains(ocean@, receiver@, lake_of@, i)) ==> forall|k: int|
            0 <= k < reaches@.len() ==> #[trigger] reaches@[k].order == strahler_rule(
                reach_orders(reaches@),
                inputs_of(reach_downstreams(reaches@), k),
            ),
        forall|k: int| 0 <= k < reaches@.len() ==> {
            let q = flow_key@[gauge_of(ocean@, lake_of@, (#[trigger] reaches@[k]).nodes@) as int];
            &&& (reaches@[k].class == ReachClass::Great <==> q >= great_key)
            &&& (reaches@[k].class == ReachClass::River <==> river_key <= q < great_key)
            &&& (reaches@[k].class == ReachClass::Stream <==> q < river_key && q < great_key)
        },
{
    let n = receiver.len();
    let mut wet: Vec<bool> = Vec::new();
    let mut i: usize = 0;
    while i < n
        invariant
            i <= n,
            n == flow_key@.len(),
            wet@.len() == i,
            forall|x: int| 0 <= x < i ==> wet@[x] == (flow_key@[x] >= stream_key),
        decreases n - i,
    {
        wet.push(flow_key[i] >= stream_key);
        i += 1;
    }
    proof {
        assert(wet@ =~= wet_of(flow_key@, stream_key));
    }
    let ghost (oc, rc, lk, wt) = (ocean@, receiver@, lake_of@, wet@);
    // How many channel nodes feed each node.
    let mut feeders: Vec<u32> = Vec::new();
    let mut i: usize = 0;
    while i < n
        invariant
            i <= n,
            feeders@.len() == i,
            forall|x: int| 0 <= x < i ==> feeders@[x] == 0,
        decreases n - i,
    {
        feeders.push(0);
        i += 1;
    }
    let mut i: usize = 0;
    while i < n
        invariant
            i <= n,
            n == rc.len(),
            n < u32::MAX,
            oc == ocean@,
            rc == receiver@,
            lk == lake_of@,
            wt == wet@,
            oc.len() == n,
            lk.len() == n,
            wt.len() == n,
            feeders@.len() == n,
            forall|j: int| 0 <= j < n ==> #[trigger] rc[j] == NO_NODE || rc[j] < n,
            forall|x: int| 0 <= x < n ==> #[trigger] feeders@[x] == feeders_upto(oc, rc, lk, wt, x, i as int),
            forall|x: int| 0 <= x < n ==> #[trigger] feeders@[x] <= i,
        decreases n - i,
    {
        if !ocean[i] && lake_of[i] == NO_LAKE && wet[i] {
            let r = receiver[i];
            if r != NO_NODE {
                feeders.set(r as usize, feeders[r as usize] + 1);
            }
        }
        proof {
            assert forall|x: int| 0 <= x < n implies #[trigger] feeders@[x] == feeders_upto(oc, rc, lk, wt, x, i + 1) by {}
        }
        i += 1;
    }
    // Which nodes a lake pours into.
    let mut outlet: Vec<bool> = Vec::new();
    let mut i: usize = 0;
    while i < n
        invariant
            i <= n,
            outlet@.len() == i,
            forall|x: int| 0 <= x < i ==> !outlet@[x],
        decreases n - i,
    {
        outlet.push(false);
        i += 1;
    }
    let mut i: usize = 0;
    while i < n
        invariant
            i <= n,
            n == rc.len(),
            n < u32::MAX,
            rc == receiver@,
            lk == lake_of@,
            lk.len() == n,
            outlet@.len() == n,
            forall|j: int| 0 <= j < n ==> #[trigger] rc[j] == NO_NODE || rc[j] < n,
            forall|x: int| 0 <= x < n ==> (#[trigger] outlet@[x] <==> lk[x] == NO_LAKE && exists|j: int| 0 <= j < i && lk[j]
                != NO_LAKE && #[trigger] rc[j] == x),
        decreases n - i,
    {
        if lake_of[i] != NO_LAKE {
            let r = receiver[i];
            if r != NO_NODE && lake_of[r as usize] == NO_LAKE {
                outlet.set(r as usize, true);
            }
        }
        proof {
            assert forall|x: int| 0 <= x < n implies (#[trigger] outlet@[x] <==> lk[x] == NO_LAKE && exists|j: int| 0 <= j < i + 1
                && lk[j] != NO_LAKE && #[trigger] rc[j] == x) by {
                if lk[i as int] != NO_LAKE && rc[i as int] == x {
                    assert(exists|j: int| 0 <= j < i + 1 && lk[j] != NO_LAKE && #[trigger] rc[j] == x);
                }
                if exists|j: int| 0 <= j < i + 1 && lk[j] != NO_LAKE && #[trigger] rc[j] == x {
                    let j = choose|j: int| 0 <= j < i + 1 && lk[j] != NO_LAKE && #[trigger] rc[j] == x;
                    if j < i {
                        assert(exists|j: int| 0 <= j < i && lk[j] != NO_LAKE && #[trigger] rc[j] == x);
                    }
                }
            }
        }
        i += 1;
    }
    // The reach starts, ascending, and the reach each start begins.
    let mut starts: Vec<u32> = Vec::new();
    let mut i: usize = 0;
    while i < n
        invariant
            i <= n,
            n == rc.len(),
            n < u32::MAX,
            oc == ocean@,
            rc == receiver@,
            lk == lake_of@,
            wt == wet@,
            oc.len() == n,
            lk.len() == n,
            wt.len() == n,
            feeders@.len() == n,
            outlet@.len() == n,
            forall|x: int| 0 <= x < n ==> #[trigger] feeders@[x] == feeders_upto(oc, rc, lk, wt, x, n as int),
            forall|x: int| 0 <= x < n ==> (#[trigger] outlet@[x] <==> lake_outlet(rc, lk, x)),
            starts@ == starts_upto(oc, rc, lk, wt, i as int),
        decreases n - i,
    {
        if !ocean[i] && lake_of[i] == NO_LAKE && wet[i] && (feeders[i] != 1 || outlet[i]) {
            starts.push(i as u32);
        }
        i += 1;
    }
    let ghost st = starts@;
    proof {
        lemma_starts_upto(oc, rc, lk, wt, n as int);
    }
    let mut reach_at: Vec<u32> = Vec::new();
    let mut i: usize = 0;
    while i < n
        invariant
            i <= n,
            reach_at@.len() == i,
            forall|x: int| 0 <= x < i ==> reach_at@[x] == u32::MAX,
        decreases n - i,
    {
        reach_at.push(u32::MAX);
        i += 1;
    }
    let mut id: usize = 0;
    while id < starts.len()
        invariant
            id <= st.len(),
            st == starts@,
            st.len() <= n,
            n < u32::MAX,
            reach_at@.len() == n,
            forall|a: int, b: int| 0 <= a < b < st.len() ==> #[trigger] st[a] < #[trigger] st[b],
            forall|m: int| 0 <= m < st.len() ==> #[trigger] st[m] < n,
            forall|x: int| 0 <= x < n && !st.take(id as int).contains(x as u32) ==> #[trigger] reach_at@[x] == u32::MAX,
            forall|m: int| 0 <= m < id ==> #[trigger] reach_at@[st[m] as int] == m,
        decreases st.len() - id,
    {
        let x = starts[id];
        reach_at.set(x as usize, id as u32);
        proof {
            let t0 = st.take(id as int);
            let t1 = st.take(id + 1);
            assert forall|y: int| 0 <= y < n && !t1.contains(y as u32) implies #[trigger] reach_at@[y] == u32::MAX by {
                assert(t1[id as int] == x);
                assert(!t0.contains(y as u32)) by {
                    if t0.contains(y as u32) {
                        let m = choose|m: int| 0 <= m < t0.len() && t0[m] == y as u32;
                        assert(t1[m] == y as u32);
                    }
                }
            }
            assert forall|m: int| 0 <= m < id + 1 implies #[trigger] reach_at@[st[m] as int] == m by {
                if m < id {
                    assert(st[m] != st[id as int]);
                }
            }
        }
        id += 1;
    }
    proof {
        assert(st.take(st.len() as int) =~= st);
        assert forall|x: int| 0 <= x < n implies (#[trigger] reach_at@[x] != u32::MAX <==> st.contains(x as u32)) && (
        st.contains(x as u32) ==> reach_at@[x] == st.index_of(x as u32)) by {
            if st.contains(x as u32) {
                let m = st.index_of(x as u32);
                assert(st[m] == x as u32);
                assert(reach_at@[st[m] as int] == m);
            }
        }
    }
    let mut reaches: Vec<Reach> = Vec::new();
    let mut k: usize = 0;
    while k < starts.len()
        invariant
            k <= st.len(),
            st == starts@,
            st == reach_starts(oc, rc, lk, wt),
            n == rc.len(),
            n < u32::MAX,
            oc == ocean@,
            rc == receiver@,
            lk == lake_of@,
            wt == wet@,
            oc.len() == n,
            lk.len() == n,
            wt.len() == n,
            reach_at@.len() == n,
            flow_key@.len() == n,
            reaches@.len() == k,
            forall|j: int| 0 <= j < n ==> #[trigger] rc[j] == NO_NODE || rc[j] < n,
            walks_end(oc, rc, lk, st),
            forall|m: int| 0 <= m < st.len() ==> #[trigger] st[m] < n && channel_spec(oc, lk, wt, st[m] as int),
            forall|x: int| 0 <= x < n ==> (#[trigger] reach_at@[x] != u32::MAX <==> st.contains(x as u32)) && (
            st.contains(x as u32) ==> reach_at@[x] == st.index_of(x as u32)),
            forall|m: int| 0 <= m < k ==> #[trigger] cut_as(oc, rc, lk, flow_key@, river_key, great_key, st, m, reaches@[m]),
            forall|m: int| 0 <= m < k ==> #[trigger] reaches@[m].order == 0,
        decreases st.len() - k,
    {
        let start = starts[k];
        let mut nodes: Vec<u32> = Vec::new();
        nodes.push(start);
        let mut here = start;
        proof {
            assert(walk_ends(oc, rc, lk, st, st[k as int]));
        }
        let ghost mut fuel: nat = choose|f: nat| #[trigger] walk(oc, rc, lk, st, start as int, f).2;
        let ghost mut steps: nat = 0;
        let mut downstream = Downstream::Sink;
        loop
            invariant_except_break
                here < n,
                !oc[here as int],
                lk[here as int] == NO_LAKE,
                walk(oc, rc, lk, st, here as int, fuel).2,
                nodes@.len() >= 1,
                nodes@[0] == start,
                nodes@.last() == here,
                forall|m: int| 0 <= m < nodes@.len() ==> #[trigger] nodes@[m] < n,
                forall|g: nat| #[trigger] walk(oc, rc, lk, st, here as int, g) == walk(oc, rc, lk, st, here as int, g)
                    ==> walk(oc, rc, lk, st, start as int, g + steps) == (
                    nodes@.skip(1) + walk(oc, rc, lk, st, here as int, g).0,
                    walk(oc, rc, lk, st, here as int, g).1,
                    walk(oc, rc, lk, st, here as int, g).2,
                ),
            invariant
                n == rc.len(),
                n < u32::MAX,
                oc == ocean@,
                rc == receiver@,
                lk == lake_of@,
                oc.len() == n,
                lk.len() == n,
                reach_at@.len() == n,
                st == starts@,
                start < n,
                forall|j: int| 0 <= j < n ==> #[trigger] rc[j] == NO_NODE || rc[j] < n,
                forall|x: int| 0 <= x < n ==> (#[trigger] reach_at@[x] != u32::MAX <==> st.contains(x as u32)) && (
                st.contains(x as u32) ==> reach_at@[x] == st.index_of(x as u32)),
            ensures
                nodes@.len() >= 1,
                nodes@[0] == start,
                forall|m: int| 0 <= m < nodes@.len() ==> #[trigger] nodes@[m] < n,
                walk(oc, rc, lk, st, start as int, steps).2,
                nodes@ == seq![start] + walk(oc, rc, lk, st, start as int, steps).0,
                downstream == walk(oc, rc, lk, st, start as int, steps).1,
            decreases fuel,
        {
            let ghost before = nodes@;
            let ghost w0 = walk(oc, rc, lk, st, here as int, 0);
            proof {
                assert(walk(oc, rc, lk, st, start as int, 0 + steps) == (before.skip(1) + w0.0, w0.1, w0.2));
                assert(before =~= seq![start] + before.skip(1));
            }
            let next = receiver[here as usize];
            if next == NO_NODE {
                proof {
                    assert(before.skip(1) + w0.0 =~= before.skip(1));
                }
                downstream = Downstream::Sink;
                break;
            }
            let j = next as usize;
            if ocean[j] {
                nodes.push(next);
                proof {
                    assert(nodes@ =~= seq![start] + (before.skip(1) + w0.0));
                }
                downstream = Downstream::Ocean;
                break;
            }
            if lake_of[j] != NO_LAKE {
                nodes.push(next);
                proof {
                    assert(nodes@ =~= seq![start] + (before.skip(1) + w0.0));
                }
                downstream = Downstream::Body(lake_of[j]);
                break;
            }
            nodes.push(next);
            if reach_at[j] != u32::MAX {
                proof {
                    assert(st.contains(next));
                    assert(nodes@ =~= seq![start] + (before.skip(1) + w0.0));
                }
                downstream = Downstream::Reach(reach_at[j]);
                break;
            }
            proof {
                assert(!st.contains(next));
                assert(fuel > 0);
                assert forall|g: nat| #[trigger] walk(oc, rc, lk, st, next as int, g) == walk(oc, rc, lk, st, next as int, g)
                    implies walk(oc, rc, lk, st, start as int, g + (steps + 1)) == (
                    nodes@.skip(1) + walk(oc, rc, lk, st, next as int, g).0,
                    walk(oc, rc, lk, st, next as int, g).1,
                    walk(oc, rc, lk, st, next as int, g).2,
                ) by {
                    let w1 = walk(oc, rc, lk, st, here as int, (g + 1) as nat);
                    assert(walk(oc, rc, lk, st, start as int, (g + 1) + steps) == (before.skip(1) + w1.0, w1.1, w1.2));
                    assert(nodes@.skip(1) + walk(oc, rc, lk, st, next as int, g).0 =~= before.skip(1) + w1.0);
                }
                fuel = (fuel - 1) as nat;
                steps = steps + 1;
            }
            here = next;
        }
        let last = nodes[nodes.len() - 1];
        let gauge = if ocean[last as usize] || lake_of[last as usize] != NO_LAKE {
            nodes[nodes.len() - 2]
        } else {
            last
        };
        let q = flow_key[gauge as usize];
        let class = if q >= great_key {
            ReachClass::Great
        } else if q >= river_key {
            ReachClass::River
        } else {
            ReachClass::Stream
        };
        let ghost walked = nodes@;
        let ghost before = reaches@;
        proof {
            assert(gauge == gauge_of(oc, lk, walked));
        }
        reaches.push(Reach { nodes, class, order: 0, downstream });
        proof {
            assert forall|m: int| 0 <= m < k + 1 implies #[trigger] cut_as(
                oc,
                rc,
                lk,
                flow_key@,
                river_key,
                great_key,
                st,
                m,
                reaches@[m],
            ) && reaches@[m].order == 0 by {
                if m == k {
                    assert(reaches@[m].nodes@ == walked);
                    assert(st[m] == start);
                    assert(walk(oc, rc, lk, st, st[m] as int, steps).2);
                } else {
                    assert(reaches@[m] == before[m]);
                }
            }
        }
        k += 1;
    }
    proof {
        assert forall|m: int| 0 <= m < reaches@.len() implies #[trigger] walks_from(
            oc,
            rc,
            lk,
            st,
            st[m],
            reaches@[m].nodes@,
            reaches@[m].downstream,
        ) by {
            assert(cut_as(oc, rc, lk, flow_key@, river_key, great_key, st, m, reaches@[m]));
        }
        lemma_tributaries_meet_their_receiver(oc, rc, lk, wt, reaches@);
        assert(reach_downstreams(reaches@).len() == reaches@.len());
        assert(reach_orders(reaches@) =~= unordered(reaches@.len()));
    }
    let ordered = strahler(reaches);
    proof {
        let ds = reach_downstreams(reaches@);
        assert(reach_downstreams(ordered@) =~= ds);
        if forall|i: int| 0 <= i < n ==> #[trigger] drains(oc, rc, lk, i) {
            lemma_draining_reaches_close_no_loop(oc, rc, lk, wt, reaches@);
            let (settled, rank) = choose|settled: Seq<bool>, rank: Seq<nat>|
                strahler_settled(ds, reach_orders(reaches@), reach_orders(ordered@), settled, rank);
            lemma_acyclic_networks_settle(ds, reach_orders(reaches@), reach_orders(ordered@), settled, rank);
            assert forall|k: int| 0 <= k < ordered@.len() implies #[trigger] ordered@[k].order == strahler_rule(
                reach_orders(ordered@),
                inputs_of(reach_downstreams(ordered@), k),
            ) by {
                assert(settled[k]);
                assert(reach_orders(ordered@)[k] == ordered@[k].order);
            }
        }
        assert forall|k: int| 0 <= k < ordered@.len() implies #[trigger] cut_as(
            oc,
            rc,
            lk,
            flow_key@,
            river_key,
            great_key,
            st,
            k,
            ordered@[k],
        ) by {
            assert(cut_as(oc, rc, lk, flow_key@, river_key, great_key, st, k, reaches@[k]));
            assert(ordered@[k].nodes@ == reaches@[k].nodes@);
        }
        assert forall|k: int| 0 <= k < ordered@.len() implies {
            let q = flow_key@[gauge_of(oc, lk, (#[trigger] ordered@[k]).nodes@) as int];
            &&& (ordered@[k].class == ReachClass::Great <==> q >= great_key)
            &&& (ordered@[k].class == ReachClass::River <==> river_key <= q < great_key)
            &&& (ordered@[k].class == ReachClass::Stream <==> q < river_key && q < great_key)
        } by {
            assert(cut_as(oc, rc, lk, flow_key@, river_key, great_key, st, k, ordered@[k]));
            lemma_class_bands(flow_key@[gauge_of(oc, lk, ordered@[k].nodes@) as int], river_key, great_key);
        }
    }
    ordered
}

/// The reach network of a routing that drains: the drainage check first, then [`extract`].
/// `Err` carries the lowest-index node whose water does not drain, and then no reach is cut.
pub fn extract_drained(
    ocean: &Vec<bool>,
    receiver: &Vec<u32>,
    lake_of: &Vec<u32>,
    flow_key: &Vec<u64>,
    stream_key: u64,
    river_key: u64,
    great_key: u64,
) -> (r: Result<Vec<Reach>, u32>)
    requires
        ocean@.len() == receiver@.len(),
        lake_of@.len() == receiver@.len(),
        flow_key@.len() == receiver@.len(),
        receiver@.len() < u32::MAX - 1,
        forall|i: int| 0 <= i < receiver@.len() ==> #[trigger] receiver@[i] == NO_NODE || receiver@[i] < receiver@.len(),
    ensures
        r is Ok <==> forall|i: int| 0 <= i < receiver@.len() ==> drains(ocean@, receiver@, lake_of@, i),
        r matches Err(k) ==> k < receiver@.len() && !drains(ocean@, receiver@, lake_of@, k as int)
            && forall|i: int| 0 <= i < k ==> drains(ocean@, receiver@, lake_of@, i),
        r matches Ok(reaches) ==> {
            let starts = reach_starts(ocean@, receiver@, lake_of@, wet_of(flow_key@, stream_key));
            &&& reaches@.len() == starts.len()
            &&& forall|k: int| 0 <= k < reaches@.len() ==> #[trigger] cut_as(ocean@, receiver@, lake_of@, flow_key@, river_key, great_key, starts, k, reaches@[k])
            &&& forall|k: int| 0 <= k < reaches@.len() ==> #[trigger] reaches@[k].order == strahler_rule(
                reach_orders(reaches@),
                inputs_of(reach_downstreams(reaches@), k),
            )
        },
{
    match drainage_check(ocean, receiver, lake_of) {
        Err(k) => Err(k),
        Ok(()) => {
            proof {
                lemma_draining_walks_end(ocean@, receiver@, lake_of@, wet_of(flow_key@, stream_key));
            }
            Ok(extract(ocean, receiver, lake_of, flow_key, stream_key, river_key, great_key))
        },
    }
}

} // verus!
