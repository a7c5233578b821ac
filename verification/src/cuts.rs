//! Cutting a channel down a parent chain: each node the cut steps from sends its water to its
//! parent and is committed, and the cut stops at the sea, a lake member, a committed node or
//! the chain's end, and nowhere else.
use vstd::prelude::*;
use crate::drainage::{NO_LAKE, NO_NODE};
use crate::seqs::{count_false, lemma_count_false_set};

verus! {

/// A cut stepping onto `x`, after stepping from the first `k` nodes of `path`, stops there: it
/// is the sea, a lake member, committed before the cut began, or one the cut has already
/// stepped from.
pub open spec fn stops_at(
    ocean: Seq<bool>,
    lake_of: Seq<u32>,
    committed: Seq<bool>,
    path: Seq<u32>,
    k: int,
    x: int,
) -> bool {
    ocean[x] || lake_of[x] != NO_LAKE || committed[x] || path.take(k).contains(x as u32)
}

/// `walked` are the nodes a cut from `start` steps onto and carries on from: each is the
/// parent of the node before it, and none of them stops the cut; the cut then stops because
/// the last node has no parent or its parent stops it.
pub open spec fn is_cut_walk(
    ocean: Seq<bool>,
    lake_of: Seq<u32>,
    parent: Seq<u32>,
    committed: Seq<bool>,
    start: u32,
    walked: Seq<u32>,
) -> bool {
    let path = seq![start] + walked;
    &&& forall|k: int|
        0 <= k < walked.len() ==> {
            &&& parent[path[k] as int] == #[trigger] walked[k]
            &&& walked[k] != NO_NODE
            &&& !stops_at(ocean, lake_of, committed, path, k, walked[k] as int)
        }
    &&& {
        let p = parent[path.last() as int];
        p == NO_NODE || stops_at(ocean, lake_of, committed, path, path.len() - 1, p as int)
    }
}

/// The cut steps from node `x`: `x` is on its path and has a parent.
pub open spec fn steps_from(parent: Seq<u32>, path: Seq<u32>, x: int) -> bool {
    path.contains(x as u32) && parent[x] != NO_NODE
}

proof fn lemma_push_contains(s: Seq<u32>, y: u32)
    ensures
        forall|z: u32| #[trigger] s.push(y).contains(z) <==> s.contains(z) || z == y,
{
    assert forall|z: u32| #[trigger] s.push(y).contains(z) implies s.contains(z) || z == y by {
        let k = choose|k: int| 0 <= k < s.push(y).len() && s.push(y)[k] == z;
        if k < s.len() {
            assert(s[k] == z);
        }
    }
    assert forall|z: u32| s.contains(z) implies #[trigger] s.push(y).contains(z) by {
        let k = choose|k: int| 0 <= k < s.len() && s[k] == z;
        assert(s.push(y)[k] == z);
    }
    assert(s.push(y)[s.len() as int] == y);
}

/// Carries a cut on from `start` along its parent chain: every node it steps from sends its
/// water to its parent and is committed. Returns the nodes it stepped onto and carried on from,
/// in order; the node it stopped at is not among them and is left as it was.
pub fn follow_parents(
    ocean: &Vec<bool>,
    lake_of: &Vec<u32>,
    parent: &Vec<u32>,
    receiver: &mut Vec<u32>,
    committed: &mut Vec<bool>,
    start: u32,
) -> (walked: Vec<u32>)
    requires
        ocean@.len() == parent@.len(),
        lake_of@.len() == parent@.len(),
        old(receiver)@.len() == parent@.len(),
        old(committed)@.len() == parent@.len(),
        parent@.len() <= u32::MAX,
        start < parent@.len(),
        forall|i: int| 0 <= i < parent@.len() ==> #[trigger] parent@[i] == NO_NODE || parent@[i] < parent@.len(),
    ensures
        is_cut_walk(ocean@, lake_of@, parent@, old(committed)@, start, walked@),
        final(receiver)@.len() == parent@.len(),
        final(committed)@.len() == parent@.len(),
        forall|x: int|
            0 <= x < parent@.len() ==> #[trigger] final(receiver)@[x] == if steps_from(parent@, seq![start] + walked@, x) {
                parent@[x]
            } else {
                old(receiver)@[x]
            },
        forall|x: int|
            0 <= x < parent@.len() ==> #[trigger] final(committed)@[x] == (old(committed)@[x] || steps_from(
                parent@,
                seq![start] + walked@,
                x,
            )),
{
    let ghost c0 = committed@;
    let ghost r0 = receiver@;
    let ghost pa = parent@;
    let n = parent.len();
    let mut walked: Vec<u32> = Vec::new();
    let mut here = start;
    loop
        invariant_except_break
            here < n,
            here == (seq![start] + walked@).last(),
            forall|x: int|
                0 <= x < n ==> #[trigger] receiver@[x] == if (seq![start] + walked@).drop_last().contains(x as u32) {
                    pa[x]
                } else {
                    r0[x]
                },
            forall|x: int|
                0 <= x < n ==> #[trigger] committed@[x] == (c0[x] || (seq![start] + walked@).drop_last().contains(x as u32)),
            forall|x: int|
                0 <= x < n && (seq![start] + walked@).drop_last().contains(x as u32) ==> #[trigger] pa[x] != NO_NODE,
        invariant
            n == pa.len(),
            pa == parent@,
            n <= u32::MAX,
            ocean@.len() == n,
            lake_of@.len() == n,
            receiver@.len() == n,
            committed@.len() == n,
            forall|i: int| 0 <= i < n ==> #[trigger] pa[i] == NO_NODE || pa[i] < n,
            forall|k: int|
                0 <= k < walked@.len() ==> {
                    &&& pa[(seq![start] + walked@)[k] as int] == #[trigger] walked@[k]
                    &&& walked@[k] != NO_NODE
                    &&& !stops_at(ocean@, lake_of@, c0, seq![start] + walked@, k, walked@[k] as int)
                },
        ensures
            is_cut_walk(ocean@, lake_of@, pa, c0, start, walked@),
            forall|x: int|
                0 <= x < n ==> #[trigger] receiver@[x] == if steps_from(pa, seq![start] + walked@, x) {
                    pa[x]
                } else {
                    r0[x]
                },
            forall|x: int| 0 <= x < n ==> #[trigger] committed@[x] == (c0[x] || steps_from(pa, seq![start] + walked@, x)),
        decreases 2 * count_false(committed@) + if committed@[here as int] {
            2int
        } else {
            1int
        },
    {
        let ghost path = seq![start] + walked@;
        proof {
            assert(path =~= path.drop_last().push(here));
            lemma_push_contains(path.drop_last(), here);
            assert(path.take(path.len() - 1) =~= path.drop_last());
        }
        let next = parent[here as usize];
        if next == NO_NODE {
            break;
        }
        let i = next as usize;
        let stops = ocean[i] || lake_of[i] != NO_LAKE || committed[i];
        let ghost old_committed = committed@;
        receiver.set(here as usize, next);
        committed.set(here as usize, true);
        proof {
            if !old_committed[here as int] {
                lemma_count_false_set(old_committed, here as int);
            } else {
                assert(committed@ =~= old_committed);
            }
        }
        if stops {
            break;
        }
        walked.push(next);
        proof {
            assert(seq![start] + walked@ =~= path.push(next));
            assert((seq![start] + walked@).drop_last() =~= path);
            lemma_push_contains(path, next);
            assert(!old_committed[next as int]);
            if old_committed[here as int] {
                assert(next != here);
                assert(!committed@[next as int]);
            }
        }
        here = next;
    }
    walked
}

/// Where the last of the first `m` steps along `path` that leaves `x` leads, or `other` if none
/// of them leaves `x`.
pub open spec fn last_step(path: Seq<u32>, m: int, x: int, other: u32) -> u32
    decreases m,
{
    if m <= 0 {
        other
    } else if path[m - 1] == x {
        path[m]
    } else {
        last_step(path, m - 1, x, other)
    }
}

/// One of the first `m` steps along `path` leaves `x`.
pub open spec fn steps_along(path: Seq<u32>, m: int, x: int) -> bool {
    exists|j: int| 0 <= j < m && #[trigger] path[j] == x
}

/// Cuts along an explicit `path`: each step points its node's receiver and parent at the next
/// node and commits it, and only the sea or a lake member stops the cut, at the node it steps
/// onto. Returns how many steps were taken and whether the cut stopped; a path shorter than two
/// nodes takes none.
pub fn point_along(
    ocean: &Vec<bool>,
    lake_of: &Vec<u32>,
    path: &Vec<u32>,
    receiver: &mut Vec<u32>,
    parent: &mut Vec<u32>,
    committed: &mut Vec<bool>,
) -> (taken: (usize, bool))
    requires
        lake_of@.len() == ocean@.len(),
        old(receiver)@.len() == ocean@.len(),
        old(parent)@.len() == ocean@.len(),
        old(committed)@.len() == ocean@.len(),
        forall|k: int| 0 <= k < path@.len() ==> #[trigger] path@[k] < ocean@.len(),
    ensures
        final(receiver)@.len() == ocean@.len(),
        final(parent)@.len() == ocean@.len(),
        final(committed)@.len() == ocean@.len(),
        path@.len() < 2 ==> taken.0 == 0 && !taken.1,
        path@.len() >= 2 ==> {
            &&& 1 <= taken.0 <= path@.len() - 1
            &&& taken.1 <==> ocean@[path@[taken.0 as int] as int] || lake_of@[path@[taken.0 as int] as int] != NO_LAKE
            &&& forall|k: int|
                1 <= k < taken.0 ==> !ocean@[#[trigger] path@[k] as int] && lake_of@[path@[k] as int] == NO_LAKE
            &&& !taken.1 ==> taken.0 == path@.len() - 1
        },
        forall|x: int|
            0 <= x < ocean@.len() ==> #[trigger] final(receiver)@[x] == last_step(path@, taken.0 as int, x, old(receiver)@[x]),
        forall|x: int|
            0 <= x < ocean@.len() ==> #[trigger] final(parent)@[x] == last_step(path@, taken.0 as int, x, old(parent)@[x]),
        forall|x: int|
            0 <= x < ocean@.len() ==> #[trigger] final(committed)@[x] == (old(committed)@[x] || steps_along(
                path@,
                taken.0 as int,
                x,
            )),
{
    let ghost r0 = receiver@;
    let ghost p0 = parent@;
    let ghost c0 = committed@;
    let n = path.len();
    if n < 2 {
        return (0, false);
    }
    let mut k: usize = 1;
    loop
        invariant
            1 <= k <= n - 1,
            r0 == old(receiver)@,
            p0 == old(parent)@,
            c0 == old(committed)@,
            n == path@.len(),
            n >= 2,
            lake_of@.len() == ocean@.len(),
            receiver@.len() == ocean@.len(),
            parent@.len() == ocean@.len(),
            committed@.len() == ocean@.len(),
            forall|j: int| 0 <= j < path@.len() ==> #[trigger] path@[j] < ocean@.len(),
            forall|j: int| 1 <= j < k ==> !ocean@[#[trigger] path@[j] as int] && lake_of@[path@[j] as int] == NO_LAKE,
            forall|x: int| 0 <= x < ocean@.len() ==> #[trigger] receiver@[x] == last_step(path@, k - 1, x, r0[x]),
            forall|x: int| 0 <= x < ocean@.len() ==> #[trigger] parent@[x] == last_step(path@, k - 1, x, p0[x]),
            forall|x: int| 0 <= x < ocean@.len() ==> #[trigger] committed@[x] == (c0[x] || steps_along(path@, k - 1, x)),
        decreases n - k,
    {
        let here = path[k - 1] as usize;
        let next = path[k];
        receiver.set(here, next);
        parent.set(here, next);
        committed.set(here, true);
        proof {
            assert forall|x: int| 0 <= x < ocean@.len() implies #[trigger] receiver@[x] == last_step(path@, k as int, x, r0[x]) by {
                if x != here as int {
                    assert(path@[k - 1] as int != x);
                }
            }
            assert forall|x: int| 0 <= x < ocean@.len() implies #[trigger] parent@[x] == last_step(path@, k as int, x, p0[x]) by {
                if x != here as int {
                    assert(path@[k - 1] as int != x);
                }
            }
            assert forall|x: int| 0 <= x < ocean@.len() implies (c0[x] || steps_along(path@, k as int, x)) == (c0[x] || steps_along(path@, k - 1, x) || x == here) by {
                if steps_along(path@, k as int, x) && !steps_along(path@, k - 1, x) {
                    let j = choose|j: int| 0 <= j < k && #[trigger] path@[j] == x;
                    assert(j == k - 1);
                }
                if x == here {
                    assert(path@[k - 1] == x);
                }
                if steps_along(path@, k - 1, x) {
                    let j = choose|j: int| 0 <= j < k - 1 && #[trigger] path@[j] == x;
                    assert(0 <= j < k);
                }
            }
        }
        let stops = ocean[next as usize] || lake_of[next as usize] != NO_LAKE;
        if stops {
            return (k, true);
        }
        if k == n - 1 {
            return (k, false);
        }
        k += 1;
    }
}

/// `path` walks up the parent chain from its first node: each next node is the parent of the
/// one before, and not one where the walk must stop.
pub open spec fn walks_up(parent: Seq<u32>, stop: Seq<bool>, path: Seq<u32>) -> bool {
    forall|k: int|
        0 <= k < path.len() - 1 ==> {
            &&& parent[#[trigger] path[k] as int] == path[k + 1]
            &&& path[k + 1] != NO_NODE
            &&& !stop[path[k + 1] as int]
        }
}

/// The parent chain from `start`, as far as it goes before a node where `stop` is set, the end
/// of the chain, or `limit` nodes: the way out of a basin (stopping at the sea) or the escape
/// from a basin's floor (stopping outside the basin).
pub fn walk_parents(parent: &Vec<u32>, stop: &Vec<bool>, start: u32, limit: usize) -> (path: Vec<u32>)
    requires
        stop@.len() == parent@.len(),
        start < parent@.len(),
        limit >= 1,
        forall|i: int| 0 <= i < parent@.len() ==> #[trigger] parent@[i] == NO_NODE || parent@[i] < parent@.len(),
    ensures
        path@.len() >= 1,
        path@.len() <= limit,
        path@[0] == start,
        walks_up(parent@, stop@, path@),
        ({
            let p = parent@[path@.last() as int];
            path@.len() == limit || p == NO_NODE || stop@[p as int]
        }),
{
    let mut path: Vec<u32> = Vec::new();
    path.push(start);
    let mut cur = start;
    while path.len() < limit
        invariant_except_break
            path@.len() <= limit,
        invariant
            path@.len() >= 1,
            path@[0] == start,
            cur == path@.last(),
            cur < parent@.len(),
            stop@.len() == parent@.len(),
            forall|i: int| 0 <= i < parent@.len() ==> #[trigger] parent@[i] == NO_NODE || parent@[i] < parent@.len(),
            walks_up(parent@, stop@, path@),
        ensures
            path@.len() <= limit,
            ({
                let p = parent@[path@.last() as int];
                path@.len() == limit || p == NO_NODE || stop@[p as int]
            }),
        decreases limit - path@.len(),
    {
        let next = parent[cur as usize];
        if next == NO_NODE || stop[next as usize] {
            break;
        }
        let ghost before = path@;
        path.push(next);
        proof {
            assert forall|k: int| 0 <= k < path@.len() - 1 implies {
                &&& parent@[#[trigger] path@[k] as int] == path@[k + 1]
                &&& path@[k + 1] != NO_NODE
                &&& !stop@[path@[k + 1] as int]
            } by {
                if k < before.len() - 1 {
                    assert(path@[k] == before[k] && path@[k + 1] == before[k + 1]);
                } else {
                    assert(path@[k] == cur);
                }
            }
        }
        cur = next;
    }
    path
}

} // verus!
