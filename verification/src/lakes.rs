//! What the lake closure decided for each hollow.
use vstd::prelude::*;
use crate::routing::Lake;
use crate::components::NO_BASIN;
use crate::graph::ascending;
use crate::hollows::{hits_forced, meets_forced};

verus! {

/// One entry per hollow: whether it closed over its own water, whether it dried to a salt
/// flat, whether an enclosed basin kept a fresh outlet, and the outlet cut made for it.
#[derive(Debug, Clone, PartialEq)]
pub struct Closure {
    pub closed: Vec<bool>,
    pub salt_flat: Vec<bool>,
    pub fresh_enclosed: Vec<bool>,
    /// For a fresh enclosed basin, the index into the routing's notches of the outlet cut made
    /// for it, if that cut lowered anything; `None` for every other hollow.
    pub outlet_notch: Vec<Option<usize>>,
}

/// The lakes below `n`, in order, that `pick` picks.
pub open spec fn picked(pick: spec_fn(int) -> bool, n: int) -> Seq<usize>
    decreases n,
{
    if n <= 0 {
        Seq::empty()
    } else if pick(n - 1) {
        picked(pick, n - 1).push((n - 1) as usize)
    } else {
        picked(pick, n - 1)
    }
}

/// What `picked` lists: exactly the lakes below `n` that `pick` picks, each once, ascending.
pub proof fn lemma_picked(pick: spec_fn(int) -> bool, n: int)
    requires
        0 <= n <= usize::MAX,
    ensures
        forall|k: int| 0 <= k < picked(pick, n).len() ==> 0 <= #[trigger] picked(pick, n)[k] < n && pick(picked(pick, n)[k] as int),
        forall|l: int| 0 <= l < n && pick(l) ==> #[trigger] picked(pick, n).contains(l as usize),
        forall|a: int, b: int| 0 <= a < b < picked(pick, n).len() ==> #[trigger] picked(pick, n)[a] < #[trigger] picked(pick, n)[b],
    decreases n,
{
    if n > 0 {
        lemma_picked(pick, n - 1);
        let before = picked(pick, n - 1);
        if pick(n - 1) {
            let now = before.push((n - 1) as usize);
            assert(picked(pick, n) == now);
            assert forall|l: int| 0 <= l < n && pick(l) implies #[trigger] now.contains(l as usize) by {
                if l < n - 1 {
                    assert(before.contains(l as usize));
                    let i = choose|i: int| 0 <= i < before.len() && before[i] == l as usize;
                    assert(now[i] == l as usize);
                } else {
                    assert(now[before.len() as int] == l as usize);
                }
            }
        }
    }
}

/// An enclosed basin not yet fresh is opened when forced, or when what flows in matches what
/// evaporates (`balanced`).
pub open spec fn opens(lakes: Seq<Lake>, forced: Seq<bool>, fresh: Seq<bool>, balanced: Seq<bool>, l: int) -> bool {
    lakes[l].kept && lakes[l].enclosed && !fresh[l] && (forced[l] || balanced[l])
}

/// An open lake not forced and not yet closed is sealed when it evaporates faster than it fills
/// (`starving`).
pub open spec fn seals(lakes: Seq<Lake>, forced: Seq<bool>, closed: Seq<bool>, starving: Seq<bool>, l: int) -> bool {
    lakes[l].kept && !lakes[l].enclosed && !forced[l] && !closed[l] && starving[l]
}

/// One pass over the enclosed basins, on one reading of the flow: the basins to open, in lake
/// order. An empty list ends the passes.
pub fn basins_to_open(lakes: &Vec<Lake>, forced: &Vec<bool>, fresh: &Vec<bool>, balanced: &Vec<bool>) -> (out: Vec<usize>)
    requires
        forced@.len() == lakes@.len(),
        fresh@.len() == lakes@.len(),
        balanced@.len() == lakes@.len(),
    ensures
        out@ == picked(|l: int| opens(lakes@, forced@, fresh@, balanced@, l), lakes@.len() as int),
        forall|k: int| 0 <= k < out@.len() ==> {
            let l = #[trigger] out@[k] as int;
            &&& l < lakes@.len()
            &&& lakes@[l].kept && lakes@[l].enclosed && !fresh@[l] && (forced@[l] || balanced@[l])
        },
        forall|l: int| 0 <= l < lakes@.len() && lakes@[l].kept && lakes@[l].enclosed && !fresh@[l] && (forced@[l] || balanced@[l])
            ==> #[trigger] out@.contains(l as usize),
        forall|a: int, b: int| 0 <= a < b < out@.len() ==> #[trigger] out@[a] < #[trigger] out@[b],
{
    let count = lakes.len();
    proof {
        lemma_picked(|l: int| opens(lakes@, forced@, fresh@, balanced@, l), lakes@.len() as int);
    }
    let ghost pick = |l: int| opens(lakes@, forced@, fresh@, balanced@, l);
    let mut out: Vec<usize> = Vec::new();
    let mut l: usize = 0;
    while l < lakes.len()
        invariant
            l <= lakes@.len(),
            forced@.len() == lakes@.len(),
            fresh@.len() == lakes@.len(),
            balanced@.len() == lakes@.len(),
            pick == (|l: int| opens(lakes@, forced@, fresh@, balanced@, l)),
            out@ == picked(pick, l as int),
        decreases lakes@.len() - l,
    {
        if lakes[l].kept && lakes[l].enclosed && !fresh[l] && (forced[l] || balanced[l]) {
            out.push(l);
        }
        l += 1;
    }
    out
}

/// The enclosed basins the passes never opened close over their own water.
pub fn basins_closed(lakes: &Vec<Lake>, fresh: &Vec<bool>) -> (closed: Vec<bool>)
    requires
        fresh@.len() == lakes@.len(),
    ensures
        closed@.len() == lakes@.len(),
        forall|l: int| 0 <= l < lakes@.len() ==> #[trigger] closed@[l] == (lakes@[l].kept && lakes@[l].enclosed && !fresh@[l]),
{
    let mut closed: Vec<bool> = Vec::new();
    let mut l: usize = 0;
    while l < lakes.len()
        invariant
            l <= lakes@.len(),
            fresh@.len() == lakes@.len(),
            closed@.len() == l,
            forall|a: int| 0 <= a < l ==> #[trigger] closed@[a] == (lakes@[a].kept && lakes@[a].enclosed && !fresh@[a]),
        decreases lakes@.len() - l,
    {
        closed.push(lakes[l].kept && lakes[l].enclosed && !fresh[l]);
        l += 1;
    }
    closed
}

/// One pass over the open lakes, on one reading of the flow: the lakes to seal, in lake order.
/// An empty list ends the passes.
pub fn lakes_to_seal(lakes: &Vec<Lake>, forced: &Vec<bool>, closed: &Vec<bool>, starving: &Vec<bool>) -> (out: Vec<usize>)
    requires
        forced@.len() == lakes@.len(),
        closed@.len() == lakes@.len(),
        starving@.len() == lakes@.len(),
    ensures
        out@ == picked(|l: int| seals(lakes@, forced@, closed@, starving@, l), lakes@.len() as int),
        forall|k: int| 0 <= k < out@.len() ==> {
            let l = #[trigger] out@[k] as int;
            &&& l < lakes@.len()
            &&& lakes@[l].kept && !lakes@[l].enclosed && !forced@[l] && !closed@[l] && starving@[l]
        },
        forall|l: int| 0 <= l < lakes@.len() && lakes@[l].kept && !lakes@[l].enclosed && !forced@[l] && !closed@[l] && starving@[l]
            ==> #[trigger] out@.contains(l as usize),
        forall|a: int, b: int| 0 <= a < b < out@.len() ==> #[trigger] out@[a] < #[trigger] out@[b],
{
    let count = lakes.len();
    proof {
        lemma_picked(|l: int| seals(lakes@, forced@, closed@, starving@, l), lakes@.len() as int);
    }
    let ghost pick = |l: int| seals(lakes@, forced@, closed@, starving@, l);
    let mut out: Vec<usize> = Vec::new();
    let mut l: usize = 0;
    while l < lakes.len()
        invariant
            l <= lakes@.len(),
            forced@.len() == lakes@.len(),
            closed@.len() == lakes@.len(),
            starving@.len() == lakes@.len(),
            pick == (|l: int| seals(lakes@, forced@, closed@, starving@, l)),
            out@ == picked(pick, l as int),
        decreases lakes@.len() - l,
    {
        if lakes[l].kept && !lakes[l].enclosed && !forced[l] && !closed[l] && starving[l] {
            out.push(l);
        }
        l += 1;
    }
    out
}

/// Whether a forced outlet point lies on `lake`: for a pocket of an enclosed basin, on one of
/// its own nodes; for a whole hollow, as the hollow's own verdict (`hollow_forced`) says.
pub open spec fn lake_is_forced(lake: Lake, hollow_forced: Seq<bool>, forced: Seq<u32>) -> bool {
    if lake.basin != NO_BASIN {
        meets_forced(lake.members@, forced)
    } else {
        hollow_forced[lake.source as int]
    }
}

/// For each lake, whether a forced outlet point lies on it. `forced` is the ascending list of
/// forced nodes.
pub fn forced_lakes(lakes: &Vec<Lake>, hollow_forced: &Vec<bool>, forced: &Vec<u32>) -> (out: Vec<bool>)
    requires
        ascending(forced@),
        forall|l: int| 0 <= l < lakes@.len() && (#[trigger] lakes@[l]).basin == NO_BASIN ==> lakes@[l].source < hollow_forced@.len(),
    ensures
        out@.len() == lakes@.len(),
        forall|l: int| 0 <= l < lakes@.len() ==> #[trigger] out@[l] == lake_is_forced(lakes@[l], hollow_forced@, forced@),
{
    let mut out: Vec<bool> = Vec::new();
    let mut l: usize = 0;
    while l < lakes.len()
        invariant
            l <= lakes@.len(),
            ascending(forced@),
            forall|m: int| 0 <= m < lakes@.len() && (#[trigger] lakes@[m]).basin == NO_BASIN ==> lakes@[m].source < hollow_forced@.len(),
            out@.len() == l,
            forall|m: int| 0 <= m < l ==> #[trigger] out@[m] == lake_is_forced(lakes@[m], hollow_forced@, forced@),
        decreases lakes@.len() - l,
    {
        let lake = &lakes[l];
        let hit = if lake.basin != NO_BASIN {
            hits_forced(&lake.members, forced)
        } else {
            hollow_forced[lake.source as usize]
        };
        out.push(hit);
        l += 1;
    }
    out
}

} // verus!
