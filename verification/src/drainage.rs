//! "Everything drains", checked rather than assumed: every node's receiver chain must end at
//! the ocean, or at a lake member whose receiver is `NO_NODE` (a closed lake's sink).
use vstd::prelude::*;
use crate::seqs::lemma_distinct_below;

verus! {

/// A node with nowhere to send its water.
pub const NO_NODE: u32 = 0xffff_ffffu32;

/// A node that belongs to no lake.
pub const NO_LAKE: u32 = 0xffff_ffffu32;

/// Node `i`'s receiver chain reaches the ocean, or a lake's sink, within `fuel` steps.
pub open spec fn drains_within(
    ocean: Seq<bool>,
    receiver: Seq<u32>,
    lake_of: Seq<u32>,
    i: int,
    fuel: nat,
) -> bool
    decreases fuel,
{
    if ocean[i] {
        true
    } else if receiver[i] == NO_NODE {
        lake_of[i] != NO_LAKE
    } else if receiver[i] >= receiver.len() {
        false
    } else if fuel == 0 {
        false
    } else {
        drains_within(ocean, receiver, lake_of, receiver[i] as int, (fuel - 1) as nat)
    }
}

/// Node `i`'s receiver chain ends at the ocean or at a lake's sink.
pub open spec fn drains(ocean: Seq<bool>, receiver: Seq<u32>, lake_of: Seq<u32>, i: int) -> bool {
    exists|fuel: nat| drains_within(ocean, receiver, lake_of, i, fuel)
}

/// The nodes of a walk follow the receiver chain, start at `start` and end where `here` is.
pub open spec fn is_chain(receiver: Seq<u32>, walk: Seq<usize>, start: int, here: int) -> bool {
    &&& walk.len() > 0 ==> walk[0] == start
    &&& walk.len() == 0 ==> here == start
    &&& walk.len() > 0 ==> receiver[walk.last() as int] == here
    &&& forall|j: int| 0 <= j < walk.len() - 1 ==> receiver[#[trigger] walk[j] as int] == walk[j + 1]
}

/// A receiver chain that comes back to one of its own nodes never drains.
proof fn lemma_cycle_never_drains(
    ocean: Seq<bool>,
    receiver: Seq<u32>,
    lake_of: Seq<u32>,
    walk: Seq<usize>,
    j: int,
    fuel: nat,
)
    requires
        0 <= j < walk.len(),
        forall|m: int|
            0 <= m < walk.len() ==> !ocean[#[trigger] walk[m] as int] && receiver[walk[m] as int]
                != NO_NODE && receiver[walk[m] as int] < receiver.len(),
        forall|m: int| 0 <= m < walk.len() - 1 ==> receiver[#[trigger] walk[m] as int] == walk[m + 1],
        receiver[walk.last() as int] == walk[j],
    ensures
        forall|m: int|
            j <= m < walk.len() ==> !drains_within(ocean, receiver, lake_of, #[trigger] walk[m] as int, fuel),
    decreases fuel,
{
    assert forall|m: int| j <= m < walk.len() implies !drains_within(
        ocean,
        receiver,
        lake_of,
        #[trigger] walk[m] as int,
        fuel,
    ) by {
        if fuel > 0 {
            lemma_cycle_never_drains(ocean, receiver, lake_of, walk, j, (fuel - 1) as nat);
            if m < walk.len() - 1 {
                assert(receiver[walk[m] as int] == walk[m + 1]);
            } else {
                assert(receiver[walk[m] as int] == walk[j]);
            }
        }
    }
}

/// Every node of a walk whose end drains drains too.
proof fn lemma_walk_drains(
    ocean: Seq<bool>,
    receiver: Seq<u32>,
    lake_of: Seq<u32>,
    walk: Seq<usize>,
    here: int,
    base: nat,
)
    requires
        walk.len() > 0,
        forall|m: int|
            0 <= m < walk.len() ==> !ocean[#[trigger] walk[m] as int] && receiver[walk[m] as int]
                != NO_NODE && receiver[walk[m] as int] < receiver.len(),
        forall|m: int| 0 <= m < walk.len() - 1 ==> receiver[#[trigger] walk[m] as int] == walk[m + 1],
        receiver[walk.last() as int] == here,
        drains_within(ocean, receiver, lake_of, here, base),
    ensures
        forall|m: int|
            0 <= m < walk.len() ==> drains_within(
                ocean,
                receiver,
                lake_of,
                #[trigger] walk[m] as int,
                (base + walk.len() - m) as nat,
            ),
    decreases walk.len(),
{
    let last = walk.len() - 1;
    assert(drains_within(ocean, receiver, lake_of, walk[last] as int, base + 1));
    if walk.len() > 1 {
        let front = walk.drop_last();
        assert forall|m: int| 0 <= m < front.len() - 1 implies receiver[#[trigger] front[m] as int] == front[m + 1] by {
            assert(front[m] == walk[m] && front[m + 1] == walk[m + 1]);
        }
        assert forall|m: int| 0 <= m < front.len() implies !ocean[#[trigger] front[m] as int] && receiver[front[m] as int]
            != NO_NODE && receiver[front[m] as int] < receiver.len() by {
            assert(front[m] == walk[m]);
        }
        assert(receiver[front.last() as int] == walk[last]);
        lemma_walk_drains(ocean, receiver, lake_of, front, walk[last] as int, base + 1);
        assert forall|m: int| 0 <= m < walk.len() implies drains_within(
            ocean,
            receiver,
            lake_of,
            #[trigger] walk[m] as int,
            (base + walk.len() - m) as nat,
        ) by {
            if m < last {
                assert(front[m] == walk[m]);
            }
        }
    }
}

/// A walk whose node `j` never drains never drains from its first node either.
proof fn lemma_back(ocean: Seq<bool>, receiver: Seq<u32>, lake_of: Seq<u32>, walk: Seq<usize>, j: int)
    requires
        0 <= j < walk.len(),
        forall|m: int|
            0 <= m < j ==> !ocean[#[trigger] walk[m] as int] && receiver[walk[m] as int] == walk[m + 1]
                && receiver[walk[m] as int] != NO_NODE && receiver[walk[m] as int] < receiver.len(),
        forall|g: nat, m: int|
            j <= m < walk.len() ==> !#[trigger] drains_within(ocean, receiver, lake_of, walk[m] as int, g),
    ensures
        forall|g: nat| !drains_within(ocean, receiver, lake_of, walk[0] as int, g),
    decreases j,
{
    if j > 0 {
        assert forall|g: nat, m: int| j - 1 <= m < walk.len() implies !#[trigger] drains_within(ocean, receiver, lake_of, walk[m] as int, g) by {
            if m == j - 1 {
                if g > 0 {
                    assert(!drains_within(ocean, receiver, lake_of, walk[j] as int, (g - 1) as nat));
                }
            }
        }
        lemma_back(ocean, receiver, lake_of, walk, j - 1);
    }
}

/// Checks that every node drains. `Err` carries the lowest-index node whose chain fails: it
/// cycles, or stops on dry land with no receiver, or names a receiver that is not a node.
pub fn drainage_check(ocean: &Vec<bool>, receiver: &Vec<u32>, lake_of: &Vec<u32>) -> (r: Result<(), u32>)
    requires
        ocean@.len() == receiver@.len(),
        lake_of@.len() == receiver@.len(),
        receiver@.len() <= u32::MAX,
    ensures
        r is Ok <==> forall|i: int| 0 <= i < receiver@.len() ==> drains(ocean@, receiver@, lake_of@, i),
        r matches Err(k) ==> k < receiver@.len() && !drains(ocean@, receiver@, lake_of@, k as int)
            && forall|i: int| 0 <= i < k ==> drains(ocean@, receiver@, lake_of@, i),
{
    let n = receiver.len();
    let ghost oc = ocean@;
    let ghost rc = receiver@;
    let ghost lk = lake_of@;
    // 0 unseen, 1 on the current walk, 2 known to drain.
    let mut colour: Vec<u8> = Vec::new();
    let mut i: usize = 0;
    while i < n
        invariant
            i <= n,
            colour@.len() == i,
            forall|x: int| 0 <= x < i ==> colour@[x] == 0u8,
        decreases n - i,
    {
        colour.push(0u8);
        i += 1;
    }
    let ghost mut fuel: Seq<nat> = Seq::new(n as nat, |x: int| 0nat);
    let mut start: usize = 0;
    while start < n
        invariant
            n == rc.len(),
            oc == ocean@,
            rc == receiver@,
            lk == lake_of@,
            oc.len() == n,
            lk.len() == n,
            n <= u32::MAX,
            start <= n,
            colour@.len() == n,
            fuel.len() == n,
            forall|x: int| 0 <= x < n ==> #[trigger] colour@[x] == 0u8 || colour@[x] == 2u8,
            forall|x: int| 0 <= x < start ==> #[trigger] colour@[x] == 2u8,
            forall|x: int| 0 <= x < n && #[trigger] colour@[x] == 2u8 ==> drains_within(oc, rc, lk, x, fuel[x]),
        decreases n - start,
    {
        if colour[start] != 0u8 {
            start += 1;
            continue;
        }
        let mut walk: Vec<usize> = Vec::new();
        let mut here: usize = start;
        let mut good = false;
        let ghost mut base: nat = 0;
        loop
            invariant_except_break
                here < n,
                is_chain(rc, walk@, start as int, here as int),
                forall|m: int| 0 <= m < walk@.len() ==> #[trigger] walk@[m] < n,
                forall|m: int|
                    0 <= m < walk@.len() ==> colour@[#[trigger] walk@[m] as int] == 1u8 && !oc[walk@[m] as int]
                        && rc[walk@[m] as int] != NO_NODE && rc[walk@[m] as int] < n,
                walk@.no_duplicates(),
                colour@[start as int] != 2u8,
            invariant
                n == rc.len(),
                oc == ocean@,
                rc == receiver@,
                lk == lake_of@,
                oc.len() == n,
                lk.len() == n,
                n <= u32::MAX,
                start < n,
                colour@.len() == n,
                fuel.len() == n,
                forall|x: int| 0 <= x < n ==> #[trigger] colour@[x] == 0u8 || colour@[x] == 1u8 || colour@[x] == 2u8,
                forall|x: int| 0 <= x < start ==> #[trigger] colour@[x] == 2u8,
                forall|x: int| 0 <= x < n && #[trigger] colour@[x] == 2u8 ==> drains_within(oc, rc, lk, x, fuel[x]),
                forall|x: int| 0 <= x < n && #[trigger] colour@[x] == 1u8 ==> walk@.contains(x as usize),
            ensures
                good ==> {
                    &&& walk@.no_duplicates()
                    &&& forall|m: int| 0 <= m < walk@.len() ==> #[trigger] walk@[m] < n
                    &&& forall|m: int|
                        0 <= m < walk@.len() ==> colour@[#[trigger] walk@[m] as int] == 1u8 && !oc[walk@[m] as int]
                            && rc[walk@[m] as int] != NO_NODE && rc[walk@[m] as int] < n
                    &&& forall|m: int| 0 <= m < walk@.len() - 1 ==> rc[#[trigger] walk@[m] as int] == walk@[m + 1]
                    &&& walk@.len() > 0 ==> walk@[0] == start && drains_within(oc, rc, lk, rc[walk@.last() as int] as int, base)
                    &&& walk@.len() == 0 ==> colour@[start as int] == 2u8
                },
                !good ==> !drains(oc, rc, lk, start as int),
            decreases n - walk@.len(),
        {
            if colour[here] == 2u8 {
                proof {
                    base = fuel[here as int];
                    assert(walk@.len() > 0) by {
                        if walk@.len() == 0 {
                            assert(here == start);
                        }
                    }
                }
                good = true;
                break;
            }
            if colour[here] == 1u8 {
                proof {
                    assert(walk@.contains(here));
                    let j = choose|j: int| 0 <= j < walk@.len() && walk@[j] == here;
                    assert forall|f: nat| !#[trigger] drains_within(oc, rc, lk, start as int, f) by {
                        assert forall|g: nat, m: int| j <= m < walk@.len() implies !drains_within(oc, rc, lk, walk@[m] as int, g) by {
                            lemma_cycle_never_drains(oc, rc, lk, walk@, j, g);
                        }
                        lemma_back(oc, rc, lk, walk@, j);
                    }
                }
                good = false;
                break;
            }
            if ocean[here] {
                let ghost before = colour@;
                colour.set(here, 2u8);
                proof {
                    fuel = fuel.update(here as int, 0nat);
                    base = 0;
                    assert forall|x: int| 0 <= x < n && #[trigger] colour@[x] == 1u8 implies walk@.contains(x as usize) by {
                        assert(before[x] == 1u8);
                    }
                }
                good = true;
                break;
            }
            let ghost before = colour@;
            colour.set(here, 1u8);
            let ghost old_walk = walk@;
            walk.push(here);
            proof {
                assert(colour@ == before.update(here as int, 1u8));
                assert(walk@ == old_walk.push(here));
                assert forall|m: int| 0 <= m < walk@.len() - 1 implies !oc[#[trigger] walk@[m] as int] && rc[walk@[m] as int] == walk@[m + 1]
                    && rc[walk@[m] as int] != NO_NODE && rc[walk@[m] as int] < rc.len() by {
                    assert(walk@[m] == old_walk[m]);
                    if m < walk@.len() - 2 {
                        assert(old_walk[m + 1] == walk@[m + 1]);
                    } else {
                        assert(rc[old_walk.last() as int] == here);
                    }
                }
                assert forall|a: int, b: int| 0 <= a < b < walk@.len() implies walk@[a] != walk@[b] by {
                    if b == walk@.len() - 1 {
                        assert(before[old_walk[a] as int] == 1u8);
                    }
                }
                assert forall|x: int| 0 <= x < n && #[trigger] colour@[x] == 1u8 implies walk@.contains(x as usize) by {
                    if x == here as int {
                        assert(walk@[walk@.len() - 1] == here);
                    } else {
                        assert(before[x] == 1u8);
                        let m = choose|m: int| 0 <= m < old_walk.len() && old_walk[m] == x as usize;
                        assert(walk@[m] == x as usize);
                    }
                }
                assert forall|m: int| 0 <= m < walk@.len() - 1 implies rc[#[trigger] walk@[m] as int] == walk@[m + 1] by {
                    if m < walk@.len() - 2 {
                        assert(old_walk[m] == walk@[m] && old_walk[m + 1] == walk@[m + 1]);
                    }
                }
            }
            let next = receiver[here];
            if next == NO_NODE {
                good = lake_of[here] != NO_LAKE;
                proof {
                    if good {
                        base = 0;
                        // the chain ends at `here` itself: its own sink.
                    } else {
                        assert forall|f: nat| !#[trigger] drains_within(oc, rc, lk, start as int, f) by {
                            assert forall|g: nat, m: int| walk@.len() - 1 <= m < walk@.len() implies !#[trigger] drains_within(oc, rc, lk, walk@[m] as int, g) by {
                                assert(walk@[m] == here);
                                assert(!oc[here as int]);
                                assert(rc[here as int] == NO_NODE && lk[here as int] == NO_LAKE);
                            }
                            assert(walk@[0] == start);
                            lemma_back(oc, rc, lk, walk@, walk@.len() - 1);
                        }
                    }
                }
                if good {
                    let ghost last_walk = walk@;
                    walk.pop();
                    proof {
                        // `here` drains on its own; the rest of the walk drains through it.
                        assert(drains_within(oc, rc, lk, here as int, 0));
                        assert(walk@ == last_walk.drop_last());
                        assert forall|m: int| 0 <= m < walk@.len() - 1 implies rc[#[trigger] walk@[m] as int] == walk@[m + 1] by {
                            assert(last_walk[m] == walk@[m] && last_walk[m + 1] == walk@[m + 1]);
                        }
                        if walk@.len() > 0 {
                            assert(rc[walk@.last() as int] == here);
                        }
                    }
                    let ghost mid = colour@;
                    colour.set(here, 2u8);
                    proof {
                        fuel = fuel.update(here as int, 0nat);
                        assert forall|x: int| 0 <= x < n && #[trigger] colour@[x] == 1u8 implies walk@.contains(x as usize) by {
                            assert(x != here as int);
                            assert(mid[x] == 1u8);
                            assert(last_walk.contains(x as usize));
                            let m = choose|m: int| 0 <= m < last_walk.len() && last_walk[m] == x as usize;
                            assert(last_walk[last_walk.len() - 1] == here);
                            assert(m < last_walk.len() - 1);
                            assert(walk@[m] == x as usize);
                        }
                    }
                }
                break;
            }
            if next as usize >= n {
                proof {
                    assert forall|f: nat| !#[trigger] drains_within(oc, rc, lk, start as int, f) by {
                        assert forall|g: nat, m: int| walk@.len() - 1 <= m < walk@.len() implies !#[trigger] drains_within(oc, rc, lk, walk@[m] as int, g) by {
                            assert(walk@[m] == here);
                            assert(!oc[here as int]);
                            assert(rc[here as int] != NO_NODE && rc[here as int] >= rc.len());
                        }
                        assert(walk@[0] == start);
                        lemma_back(oc, rc, lk, walk@, walk@.len() - 1);
                    }
                }
                good = false;
                break;
            }
            here = next as usize;
            proof {
                lemma_distinct_below(walk@, n as int);
            }
        }
        if !good {
            proof {
                assert forall|i: int| 0 <= i < start implies drains(oc, rc, lk, i) by {
                    assert(colour@[i] == 2u8);
                    assert(drains_within(oc, rc, lk, i, fuel[i]));
                }
            }
            return Err(start as u32);
        }
        let ghost w = walk@;
        let ghost colour_before = colour@;
        proof {
            if w.len() > 0 {
                lemma_walk_drains(oc, rc, lk, w, rc[w.last() as int] as int, base);
            }
        }
        let mut k: usize = 0;
        while k < walk.len()
            invariant
                w == walk@,
                k <= w.len(),
                colour@.len() == n,
                fuel.len() == n,
                n == rc.len(),
                forall|m: int| 0 <= m < w.len() ==> #[trigger] w[m] < n,
                w.no_duplicates(),
                forall|x: int| 0 <= x < n && !w.contains(x as usize) ==> #[trigger] colour@[x] == colour_before[x],
                forall|m: int| 0 <= m < k ==> #[trigger] colour@[w[m] as int] == 2u8,
                forall|m: int| k <= m < w.len() ==> #[trigger] colour@[w[m] as int] == colour_before[w[m] as int],
                forall|x: int| 0 <= x < n && !w.contains(x as usize) && colour_before[x] == 2u8 ==> drains_within(oc, rc, lk, x, fuel[x]),
                forall|m: int| 0 <= m < k ==> drains_within(oc, rc, lk, #[trigger] w[m] as int, fuel[w[m] as int]),
                w.len() > 0 ==> forall|m: int| k <= m < w.len() ==> fuel[#[trigger] w[m] as int] == fuel[w[m] as int],
                w.len() > 0 ==> forall|m: int| 0 <= m < w.len() ==> drains_within(oc, rc, lk, #[trigger] w[m] as int, (base + w.len() - m) as nat),
            decreases w.len() - k,
        {
            let node = walk[k];
            colour.set(node, 2u8);
            proof {
                fuel = fuel.update(node as int, (base + w.len() - k) as nat);
                assert forall|m: int| 0 <= m < k + 1 implies drains_within(oc, rc, lk, #[trigger] w[m] as int, fuel[w[m] as int]) by {
                    if m < k {
                        assert(w[m] != w[k as int]);
                    }
                }
                assert forall|x: int| 0 <= x < n && !w.contains(x as usize) implies #[trigger] colour@[x] == colour_before[x] by {
                    assert(x != node as int);
                }
                assert forall|m: int| k + 1 <= m < w.len() implies #[trigger] colour@[w[m] as int] == colour_before[w[m] as int] by {
                    assert(w[m] != w[k as int]);
                }
                assert forall|m: int| 0 <= m < k + 1 implies #[trigger] colour@[w[m] as int] == 2u8 by {}
            }
            k += 1;
        }
        proof {
            assert forall|x: int| 0 <= x < n && #[trigger] colour@[x] == 2u8 implies drains_within(oc, rc, lk, x, fuel[x]) by {
                if w.contains(x as usize) {
                    let m = choose|m: int| 0 <= m < w.len() && w[m] == x as usize;
                } else {
                    assert(colour_before[x] == 2u8);
                }
            }
            assert forall|x: int| 0 <= x < n implies #[trigger] colour@[x] == 0u8 || colour@[x] == 2u8 by {
                if w.contains(x as usize) {
                    let m = choose|m: int| 0 <= m < w.len() && w[m] == x as usize;
                } else {
                    assert(colour_before[x] != 1u8) by {
                        if colour_before[x] == 1u8 {
                            assert(w.contains(x as usize));
                        }
                    }
                }
            }
            assert(colour@[start as int] == 2u8) by {
                if w.len() > 0 {
                    assert(w[0] == start);
                }
            }
            assert forall|x: int| 0 <= x < start + 1 implies #[trigger] colour@[x] == 2u8 by {
                if x < start && w.contains(x as usize) {
                    let m = choose|m: int| 0 <= m < w.len() && w[m] == x as usize;
                }
            }
        }
        start += 1;
    }
    proof {
        assert forall|i: int| 0 <= i < n implies drains(oc, rc, lk, i) by {
            assert(colour@[i] == 2u8);
            assert(drains_within(oc, rc, lk, i, fuel[i]));
        }
    }
    Ok(())
}

} // verus!
