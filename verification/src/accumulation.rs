//! The order in which water is passed downstream: a node hands its water on only once every
//! node that sends it water has handed on its own.
//!
//! Node `d` is a donor of node `x` when `x` is `d`'s receiver. The nodes with no donor come
//! first, ascending; after them each node comes when its last donor has been handed on.
use vstd::prelude::*;
use crate::drainage::NO_NODE;
use crate::seqs::lemma_distinct_ids_below;

verus! {

/// How many nodes below `k` are donors of `x` and not among `taken`.
pub open spec fn donors_outside(receiver: Seq<u32>, taken: Seq<u32>, x: int, k: int) -> nat
    decreases k,
{
    if k <= 0 {
        0
    } else {
        donors_outside(receiver, taken, x, k - 1) + if receiver[k - 1] == x && !taken.contains((k - 1) as u32) {
            1nat
        } else {
            0nat
        }
    }
}

/// No node sends its water to `x`.
pub open spec fn no_donor(receiver: Seq<u32>, x: int) -> bool {
    forall|d: int| 0 <= d < receiver.len() ==> receiver[d] != x
}

/// Every donor of `x` is among `taken`.
pub open spec fn donors_in(receiver: Seq<u32>, taken: Seq<u32>, x: int) -> bool {
    forall|d: int| 0 <= d < receiver.len() && receiver[d] == x ==> taken.contains(d as u32)
}

/// The nodes below `k` with no donor, ascending.
pub open spec fn sources_upto(receiver: Seq<u32>, k: int) -> Seq<u32>
    decreases k,
{
    if k <= 0 {
        Seq::empty()
    } else if no_donor(receiver, k - 1) {
        sources_upto(receiver, k - 1).push((k - 1) as u32)
    } else {
        sources_upto(receiver, k - 1)
    }
}

/// Every node with no donor, ascending.
pub open spec fn sources(receiver: Seq<u32>) -> Seq<u32> {
    sources_upto(receiver, receiver.len() as int)
}

/// `order` is the order water is handed on in: the nodes with no donor first, ascending; then,
/// one by one, each node at the step that hands on its last donor (`by[p]` is that step for the
/// node at `p`), in the order of those steps; and every node whose donors are all handed on is
/// handed on itself.
pub open spec fn hands_on(receiver: Seq<u32>, order: Seq<u32>, by: Seq<int>) -> bool {
    let m = sources(receiver).len() as int;
    &&& order.no_duplicates()
    &&& forall|p: int| 0 <= p < order.len() ==> #[trigger] order[p] < receiver.len()
    &&& m <= order.len()
    &&& order.take(m) == sources(receiver)
    &&& by.len() == order.len()
    &&& forall|p: int|
        m <= p < order.len() ==> {
            &&& 0 <= #[trigger] by[p] < p
            &&& receiver[order[by[p]] as int] == order[p]
            &&& donors_in(receiver, order.take(by[p] + 1), order[p] as int)
        }
    &&& forall|p: int, q: int| m <= p < q < order.len() ==> #[trigger] by[p] < #[trigger] by[q]
    &&& forall|x: int| 0 <= x < receiver.len() && donors_in(receiver, order, x) ==> #[trigger] order.contains(x as u32)
}

proof fn lemma_push_contains(s: Seq<u32>, y: u32)
    ensures
        forall|z: u32| #[trigger] s.push(y).contains(z) <==> s.contains(z) || z == y,
{
    assert forall|z: u32| #[trigger] s.push(y).contains(z) implies s.contains(z) || z == y by {
        let k = choose|k: int| 0 <= k < s.push(y).len() && s.push(y)[k] == z;
        if k < s.len() {
            assert(s[k] == z);
        }
    }
    assert forall|z: u32| s.contains(z) implies #[trigger] s.push(y).contains(z) by {
        let k = choose|k: int| 0 <= k < s.len() && s[k] == z;
        assert(s.push(y)[k] == z);
    }
    assert(s.push(y)[s.len() as int] == y);
}

/// Taking one more node lowers the count of its receiver's outside donors by one, if it was
/// outside, and leaves every other count alone.
proof fn lemma_donors_outside_push(receiver: Seq<u32>, taken: Seq<u32>, y: int, x: int, k: int)
    requires
        0 <= y <= u32::MAX,
        0 <= k <= receiver.len(),
        receiver.len() <= u32::MAX,
    ensures
        donors_outside(receiver, taken.push(y as u32), x, k) + (if 0 <= y < k && receiver[y] == x && !taken.contains(
            y as u32,
        ) {
            1nat
        } else {
            0nat
        }) == donors_outside(receiver, taken, x, k),
    decreases k,
{
    lemma_push_contains(taken, y as u32);
    if k > 0 {
        lemma_donors_outside_push(receiver, taken, y, x, k - 1);
    }
}

/// No outside donor below `k` means every donor below `k` is taken.
proof fn lemma_donors_outside_zero(receiver: Seq<u32>, taken: Seq<u32>, x: int, k: int)
    requires
        0 <= k <= receiver.len(),
    ensures
        donors_outside(receiver, taken, x, k) == 0 <==> forall|d: int|
            0 <= d < k && receiver[d] == x ==> taken.contains(d as u32),
    decreases k,
{
    if k > 0 {
        lemma_donors_outside_zero(receiver, taken, x, k - 1);
    }
}

proof fn lemma_sources_upto(receiver: Seq<u32>, k: int)
    requires
        0 <= k <= receiver.len(),
        receiver.len() <= u32::MAX,
    ensures
        sources_upto(receiver, k).no_duplicates(),
        forall|p: int| 0 <= p < sources_upto(receiver, k).len() ==> #[trigger] sources_upto(receiver, k)[p] < k
            && no_donor(receiver, sources_upto(receiver, k)[p] as int),
        forall|x: int| 0 <= x < k && no_donor(receiver, x) ==> #[trigger] sources_upto(receiver, k).contains(x as u32),
    decreases k,
{
    if k > 0 {
        lemma_sources_upto(receiver, k - 1);
        let prev = sources_upto(receiver, k - 1);
        if no_donor(receiver, k - 1) {
            lemma_push_contains(prev, (k - 1) as u32);
            assert(!prev.contains((k - 1) as u32)) by {
                if prev.contains((k - 1) as u32) {
                    let p = choose|p: int| 0 <= p < prev.len() && prev[p] == (k - 1) as u32;
                }
            }
            let cur = prev.push((k - 1) as u32);
            assert forall|a: int, b: int| 0 <= a < cur.len() && 0 <= b < cur.len() && a != b implies cur[a] != cur[b] by {
                if a < prev.len() && b < prev.len() {
                } else if a < prev.len() {
                    assert(prev.contains(cur[a]));
                } else if b < prev.len() {
                    assert(prev.contains(cur[b]));
                }
            }
        }
    }
}

/// The order water is handed on in, as `hands_on` says: the order `accumulate` adds flows in.
/// A node on or below a receiver cycle is never handed on.
pub fn accumulation_order(receiver: &Vec<u32>) -> (order: Vec<u32>)
    requires
        receiver@.len() < u32::MAX,
        forall|i: int| 0 <= i < receiver@.len() ==> #[trigger] receiver@[i] == NO_NODE || receiver@[i] < receiver@.len(),
    ensures
        exists|by: Seq<int>| #[trigger] hands_on(receiver@, order@, by),
{
    let n = receiver.len();
    let ghost rc = receiver@;
    let mut upstream: Vec<u32> = Vec::new();
    let mut i: usize = 0;
    while i < n
        invariant
            i <= n,
            upstream@.len() == i,
            forall|x: int| 0 <= x < i ==> upstream@[x] == 0,
        decreases n - i,
    {
        upstream.push(0);
        i += 1;
    }
    proof {
        assert forall|x: int| 0 <= x < n implies #[trigger] upstream@[x] == donors_outside(rc, Seq::empty(), x, 0) by {}
    }
    let mut i: usize = 0;
    while i < n
        invariant
            i <= n,
            n == rc.len(),
            n < u32::MAX,
            rc == receiver@,
            upstream@.len() == n,
            forall|j: int| 0 <= j < n ==> #[trigger] rc[j] == NO_NODE || rc[j] < n,
            forall|x: int| 0 <= x < n ==> #[trigger] upstream@[x] == donors_outside(rc, Seq::empty(), x, i as int),
            forall|x: int| 0 <= x < n ==> #[trigger] upstream@[x] <= i,
        decreases n - i,
    {
        let r = receiver[i];
        if r != NO_NODE {
            upstream.set(r as usize, upstream[r as usize] + 1);
        }
        proof {
            assert forall|x: int| 0 <= x < n implies #[trigger] upstream@[x] == donors_outside(rc, Seq::empty(), x, i + 1) by {
                assert(!Seq::<u32>::empty().contains(i as u32));
            }
        }
        i += 1;
    }
    proof {
        assert forall|x: int| 0 <= x < n implies (#[trigger] upstream@[x] == 0 <==> no_donor(rc, x)) by {
            lemma_donors_outside_zero(rc, Seq::empty(), x, n as int);
        }
    }
    let mut ready: Vec<u32> = Vec::new();
    let mut i: usize = 0;
    while i < n
        invariant
            i <= n,
            n == rc.len(),
            n < u32::MAX,
            upstream@.len() == n,
            forall|x: int| 0 <= x < n ==> (#[trigger] upstream@[x] == 0 <==> no_donor(rc, x)),
            ready@ == sources_upto(rc, i as int),
        decreases n - i,
    {
        if upstream[i] == 0 {
            ready.push(i as u32);
        }
        i += 1;
    }
    let ghost src = ready@;
    let ghost m = src.len() as int;
    proof {
        lemma_sources_upto(rc, n as int);
        assert forall|x: int| 0 <= x < n implies #[trigger] upstream@[x] == donors_outside(rc, ready@.take(0), x, n as int) by {
            assert(ready@.take(0) =~= Seq::<u32>::empty());
        }
        assert forall|x: int| 0 <= x < n && !ready@.contains(x as u32) implies donors_outside(rc, ready@.take(0), x, n as int) > 0 by {
            assert(ready@.take(0) =~= Seq::<u32>::empty());
            lemma_donors_outside_zero(rc, Seq::empty(), x, n as int);
        }
        assert forall|x: int| 0 <= x < n && ready@.contains(x as u32) implies donors_outside(rc, ready@.take(0), x, n as int) == 0 by {
            assert(ready@.take(0) =~= Seq::<u32>::empty());
            let p = choose|p: int| 0 <= p < ready@.len() && ready@[p] == x as u32;
            assert(no_donor(rc, ready@[p] as int));
            lemma_donors_outside_zero(rc, Seq::empty(), x, n as int);
        }
        lemma_distinct_ids_below(ready@, n as int);
    }
    let ghost mut by: Seq<int> = Seq::new(m as nat, |p: int| 0int);
    let mut head: usize = 0;
    while head < ready.len()
        invariant
            n == rc.len(),
            n < u32::MAX,
            rc == receiver@,
            forall|j: int| 0 <= j < n ==> #[trigger] rc[j] == NO_NODE || rc[j] < n,
            upstream@.len() == n,
            src == sources(rc),
            m == src.len(),
            m <= ready@.len() <= n,
            ready@.take(m) == src,
            ready@.no_duplicates(),
            forall|p: int| 0 <= p < ready@.len() ==> #[trigger] ready@[p] < n,
            head <= ready@.len(),
            by.len() == ready@.len(),
            forall|p: int|
                m <= p < ready@.len() ==> {
                    &&& 0 <= #[trigger] by[p] < p
                    &&& by[p] < head
                    &&& rc[ready@[by[p]] as int] == ready@[p]
                    &&& donors_in(rc, ready@.take(by[p] + 1), ready@[p] as int)
                },
            forall|p: int, q: int| m <= p < q < ready@.len() ==> #[trigger] by[p] < #[trigger] by[q],
            forall|x: int| 0 <= x < n ==> #[trigger] upstream@[x] == donors_outside(rc, ready@.take(head as int), x, n as int),
            forall|x: int|
                0 <= x < n && ready@.contains(x as u32) ==> donors_outside(rc, ready@.take(head as int), x, n as int) == 0,
            forall|x: int|
                0 <= x < n && !ready@.contains(x as u32) ==> donors_outside(rc, ready@.take(head as int), x, n as int) > 0,
        decreases n - head,
    {
        let node = ready[head];
        let ghost before = ready@;
        let ghost t0 = before.take(head as int);
        let ghost t1 = before.take(head + 1);
        proof {
            assert(t1 =~= t0.push(node));
            assert(!t0.contains(node)) by {
                if t0.contains(node) {
                    let q = choose|q: int| 0 <= q < t0.len() && t0[q] == node;
                    assert(before[q] == before[head as int]);
                }
            }
            assert forall|x: int| 0 <= x < n implies donors_outside(rc, t1, x, n as int) + (if rc[node as int] == x {
                1nat
            } else {
                0nat
            }) == donors_outside(rc, t0, x, n as int) by {
                lemma_donors_outside_push(rc, t0, node as int, x, n as int);
            }
        }
        head += 1;
        let r = receiver[node as usize];
        if r != NO_NODE {
            let ru = r as usize;
            upstream.set(ru, upstream[ru] - 1);
            if upstream[ru] == 0 {
                proof {
                    assert(!before.contains(r)) by {
                        if before.contains(r) {
                            assert(donors_outside(rc, t0, r as int, n as int) == 0);
                        }
                    }
                    lemma_donors_outside_zero(rc, t1, r as int, n as int);
                    lemma_push_contains(before, r);
                }
                ready.push(r);
                proof {
                    let after = ready@;
                    assert(after.take(head as int) =~= t1);
                    assert(after.take(m) =~= before.take(m));
                    by = by.push(head - 1);
                    assert forall|a: int, b: int| 0 <= a < after.len() && 0 <= b < after.len() && a != b implies after[a]
                        != after[b] by {
                        if a < before.len() && b < before.len() {
                        } else if a < before.len() {
                            assert(before.contains(after[a]));
                        } else if b < before.len() {
                            assert(before.contains(after[b]));
                        }
                    }
                    lemma_distinct_ids_below(after, n as int);
                    assert forall|p: int|
                        m <= p < after.len() implies {
                            &&& 0 <= #[trigger] by[p] < p
                            &&& by[p] < head
                            &&& rc[after[by[p]] as int] == after[p]
                            &&& donors_in(rc, after.take(by[p] + 1), after[p] as int)
                        } by {
                        if p < before.len() {
                            assert(after.take(by[p] + 1) =~= before.take(by[p] + 1));
                        } else {
                            assert(after.take(by[p] + 1) =~= t1);
                        }
                    }
                    assert forall|x: int| 0 <= x < n && after.contains(x as u32) implies donors_outside(rc, after.take(
                        head as int,
                    ), x, n as int) == 0 by {
                        assert(after.take(head as int) == t1);
                        if x != r as int {
                            assert(before.contains(x as u32));
                            assert(donors_outside(rc, t0, x, n as int) == 0);
                            assert(donors_outside(rc, t1, x, n as int) + 0 == donors_outside(rc, t0, x, n as int));
                        } else {
                            assert(donors_outside(rc, t1, x, n as int) + 1 == donors_outside(rc, t0, x, n as int));
                        }
                    }
                    assert forall|x: int| 0 <= x < n && !after.contains(x as u32) implies donors_outside(rc, after.take(
                        head as int,
                    ), x, n as int) > 0 by {
                        assert(after.take(head as int) == t1);
                        assert(x != r as int);
                        assert(!before.contains(x as u32));
                        assert(donors_outside(rc, t1, x, n as int) + 0 == donors_outside(rc, t0, x, n as int));
                    }
                }
            } else {
                proof {
                    assert(ready@.take(head as int) =~= t1);
                    assert forall|x: int| 0 <= x < n && ready@.contains(x as u32) implies donors_outside(rc, ready@.take(
                        head as int,
                    ), x, n as int) == 0 by {
                        assert(donors_outside(rc, t0, x, n as int) == 0);
                        if x == r as int {
                            assert(donors_outside(rc, t1, x, n as int) + 1 == donors_outside(rc, t0, x, n as int));
                        } else {
                            assert(donors_outside(rc, t1, x, n as int) + 0 == donors_outside(rc, t0, x, n as int));
                        }
                    }
                    assert forall|x: int| 0 <= x < n && !ready@.contains(x as u32) implies donors_outside(rc, ready@.take(
                        head as int,
                    ), x, n as int) > 0 by {
                        if x == r as int {
                            assert(upstream@[x] == donors_outside(rc, t1, x, n as int)) by {
                                assert(donors_outside(rc, t1, x, n as int) + 1 == donors_outside(rc, t0, x, n as int));
                            }
                        } else {
                            assert(donors_outside(rc, t1, x, n as int) + 0 == donors_outside(rc, t0, x, n as int));
                        }
                    }
                }
            }
        } else {
            proof {
                assert(ready@.take(head as int) =~= t1);
                assert forall|x: int| 0 <= x < n && ready@.contains(x as u32) implies donors_outside(rc, ready@.take(
                    head as int,
                ), x, n as int) == 0 by {
                    assert(donors_outside(rc, t0, x, n as int) == 0);
                    assert(donors_outside(rc, t1, x, n as int) + 0 == donors_outside(rc, t0, x, n as int));
                }
                assert forall|x: int| 0 <= x < n && !ready@.contains(x as u32) implies donors_outside(rc, ready@.take(
                    head as int,
                ), x, n as int) > 0 by {
                    assert(donors_outside(rc, t1, x, n as int) + 0 == donors_outside(rc, t0, x, n as int));
                }
            }
        }
    }
    proof {
        assert(ready@.take(ready@.len() as int) =~= ready@);
        assert forall|x: int| 0 <= x < n && donors_in(rc, ready@, x) implies #[trigger] ready@.contains(x as u32) by {
            lemma_donors_outside_zero(rc, ready@, x, n as int);
        }
        assert(hands_on(rc, ready@, by));
    }
    ready
}

/// Every node is handed on after each of its donors: water is never passed on before all the
/// water that reaches a node has arrived.
pub proof fn lemma_donors_come_first(receiver: Seq<u32>, order: Seq<u32>, by: Seq<int>)
    requires
        receiver.len() <= u32::MAX,
        hands_on(receiver, order, by),
    ensures
        forall|p: int, d: int|
            0 <= p < order.len() && 0 <= d < receiver.len() && #[trigger] receiver[d] == #[trigger] order[p] ==> exists|
                q: int,
            | 0 <= q < p && #[trigger] order[q] == d as u32,
{
    let m = sources(receiver).len() as int;
    lemma_sources_upto(receiver, receiver.len() as int);
    assert forall|p: int, d: int|
        0 <= p < order.len() && 0 <= d < receiver.len() && #[trigger] receiver[d] == #[trigger] order[p] implies exists|
        q: int,
    | 0 <= q < p && #[trigger] order[q] == d as u32 by {
        if p < m {
            assert(order[p] == order.take(m)[p]);
            assert(no_donor(receiver, sources(receiver)[p] as int));
        } else {
            let t = order.take(by[p] + 1);
            assert(donors_in(receiver, t, order[p] as int));
            assert(t.contains(d as u32));
            let q = choose|q: int| 0 <= q < t.len() && t[q] == d as u32;
            assert(order[q] == d as u32);
        }
    }
}

/// Node `i`'s receiver chain reaches a node with no receiver within `fuel` steps.
pub open spec fn ends_within(receiver: Seq<u32>, i: int, fuel: nat) -> bool
    decreases fuel,
{
    if receiver[i] == NO_NODE {
        true
    } else if receiver[i] >= receiver.len() {
        false
    } else if fuel == 0 {
        false
    } else {
        ends_within(receiver, receiver[i] as int, (fuel - 1) as nat)
    }
}

/// Node `i`'s receiver chain ends: it never comes back round.
pub open spec fn ends(receiver: Seq<u32>, i: int) -> bool {
    exists|fuel: nat| ends_within(receiver, i, fuel)
}

/// The fewest steps in which node `i`'s receiver chain ends.
pub open spec fn least_end(receiver: Seq<u32>, i: int) -> nat {
    choose|f: nat| ends_within(receiver, i, f) && forall|g: nat| g < f ==> !#[trigger] ends_within(receiver, i, g)
}

proof fn lemma_least_end(receiver: Seq<u32>, i: int, f: nat)
    requires
        ends_within(receiver, i, f),
    ensures
        ends_within(receiver, i, least_end(receiver, i)),
        forall|g: nat| g < least_end(receiver, i) ==> !#[trigger] ends_within(receiver, i, g),
    decreases f,
{
    if exists|g: nat| g < f && #[trigger] ends_within(receiver, i, g) {
        let g = choose|g: nat| g < f && #[trigger] ends_within(receiver, i, g);
        lemma_least_end(receiver, i, g);
    } else {
        assert(ends_within(receiver, i, f) && forall|g: nat| g < f ==> !#[trigger] ends_within(receiver, i, g));
    }
}

/// A donor's chain is one step longer than its receiver's.
proof fn lemma_donor_ends_later(receiver: Seq<u32>, d: int, x: int)
    requires
        receiver.len() <= u32::MAX,
        0 <= d < receiver.len(),
        0 <= x < receiver.len(),
        receiver[d] == x,
        ends(receiver, d),
    ensures
        least_end(receiver, x) < least_end(receiver, d),
{
    let f = choose|f: nat| ends_within(receiver, d, f);
    lemma_least_end(receiver, d, f);
    let fd = least_end(receiver, d);
    assert(fd > 0 && ends_within(receiver, x, (fd - 1) as nat));
    lemma_least_end(receiver, x, (fd - 1) as nat);
}

/// Above a node that is never handed on, a chain of `k` more such nodes, each a donor of the
/// one before, whose chains end in ever more steps.
proof fn lemma_unhanded_chain(receiver: Seq<u32>, order: Seq<u32>, by: Seq<int>, x: int, k: nat) -> (path: Seq<u32>)
    requires
        receiver.len() <= u32::MAX,
        hands_on(receiver, order, by),
        forall|i: int| 0 <= i < receiver.len() ==> #[trigger] ends(receiver, i),
        0 <= x < receiver.len(),
        !order.contains(x as u32),
    ensures
        path.len() == k + 1,
        path[0] == x,
        forall|j: int| 0 <= j < path.len() ==> #[trigger] path[j] < receiver.len() && !order.contains(path[j]),
        forall|a: int, b: int|
            0 <= a < b < path.len() ==> least_end(receiver, #[trigger] path[a] as int) < least_end(
                receiver,
                #[trigger] path[b] as int,
            ),
    decreases k,
{
    if k == 0 {
        seq![x as u32]
    } else {
        let front = lemma_unhanded_chain(receiver, order, by, x, (k - 1) as nat);
        let last = front.last();
        assert(last == front[front.len() - 1]);
        assert(!donors_in(receiver, order, last as int)) by {
            if donors_in(receiver, order, last as int) {
                assert(order.contains((last as int) as u32));
            }
        }
        let d = choose|d: int| 0 <= d < receiver.len() && receiver[d] == last && !order.contains(d as u32);
        lemma_donor_ends_later(receiver, d, last as int);
        let path = front.push(d as u32);
        assert forall|a: int, b: int|
            0 <= a < b < path.len() implies least_end(receiver, #[trigger] path[a] as int) < least_end(
            receiver,
            #[trigger] path[b] as int,
        ) by {
            if b < front.len() {
                assert(path[a] == front[a] && path[b] == front[b]);
            } else if a < front.len() - 1 {
                assert(path[a] == front[a]);
                assert(least_end(receiver, front[a] as int) < least_end(receiver, front[front.len() - 1] as int));
            } else {
                assert(path[a] == last);
            }
        }
        assert forall|j: int| 0 <= j < path.len() implies #[trigger] path[j] < receiver.len() && !order.contains(path[j]) by {
            if j < front.len() {
                assert(path[j] == front[j]);
            }
        }
        path
    }
}

/// Where no receiver chain comes back round, every node is handed on.
pub proof fn lemma_everything_is_handed_on(receiver: Seq<u32>, order: Seq<u32>, by: Seq<int>)
    requires
        receiver.len() <= u32::MAX,
        hands_on(receiver, order, by),
        forall|i: int| 0 <= i < receiver.len() ==> #[trigger] ends(receiver, i),
    ensures
        forall|x: int| 0 <= x < receiver.len() ==> #[trigger] order.contains(x as u32),
{
    assert forall|x: int| 0 <= x < receiver.len() implies #[trigger] order.contains(x as u32) by {
        if !order.contains(x as u32) {
            let path = lemma_unhanded_chain(receiver, order, by, x, receiver.len());
            assert(path.no_duplicates()) by {
                assert forall|a: int, b: int| 0 <= a < path.len() && 0 <= b < path.len() && a != b implies path[a] != path[b] by {
                    if a < b {
                        assert(least_end(receiver, path[a] as int) < least_end(receiver, path[b] as int));
                    } else {
                        assert(least_end(receiver, path[b] as int) < least_end(receiver, path[a] as int));
                    }
                }
            }
            lemma_distinct_ids_below(path, receiver.len() as int);
        }
    }
}

} // verus!
