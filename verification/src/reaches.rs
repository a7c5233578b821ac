//! Streams, rivers and great rivers, and the network they make: where each reach's water
//! goes next, and its Strahler order.
use vstd::prelude::*;
use crate::seqs::lemma_distinct_below;
use crate::links::{acyclic, settles, settles_within};

verus! {

/// How much water a reach carries, in three bands.
#[derive(Debug, Clone, Copy, PartialEq, Eq, Structural)]
pub enum ReachClass {
    Stream,
    River,
    Great,
}

/// Where a reach's (or a body's) water goes next.
#[derive(Debug, Clone, Copy, PartialEq, Eq, Structural)]
pub enum Downstream {
    Reach(u32),
    Body(u32),
    Ocean,
    Sink,
}

/// One reach: the graph nodes it runs through, its class, its Strahler order and where it
/// drains.
#[derive(Debug, Clone, PartialEq)]
pub struct Reach {
    pub nodes: Vec<u32>,
    pub class: ReachClass,
    pub order: u32,
    pub downstream: Downstream,
}

/// Reach `d` drains straight into reach `id`.
pub open spec fn feeds(d: Downstream, id: int) -> bool {
    d matches Downstream::Reach(next) && next == id
}

/// A `Reach` link names a reach that exists.
pub open spec fn downstream_in_range(d: Downstream, count: int) -> bool {
    d matches Downstream::Reach(next) ==> next < count
}

/// Where each reach drains, in reach order.
pub open spec fn reach_downstreams(rs: Seq<Reach>) -> Seq<Downstream> {
    Seq::new(rs.len(), |i: int| rs[i].downstream)
}

/// Each reach's order, in reach order.
pub open spec fn reach_orders(rs: Seq<Reach>) -> Seq<u32> {
    Seq::new(rs.len(), |i: int| rs[i].order)
}

/// The reaches among the first `k` that drain straight into `id`, in ascending order.
pub open spec fn inputs_upto(ds: Seq<Downstream>, id: int, k: int) -> Seq<u32>
    decreases k,
{
    if k <= 0 {
        Seq::empty()
    } else if feeds(ds[k - 1], id) {
        inputs_upto(ds, id, k - 1).push((k - 1) as u32)
    } else {
        inputs_upto(ds, id, k - 1)
    }
}

/// Every reach that drains straight into `id`, in ascending order.
pub open spec fn inputs_of(ds: Seq<Downstream>, id: int) -> Seq<u32> {
    inputs_upto(ds, id, ds.len() as int)
}

/// The highest order among the reaches `js` (0 for none).
pub open spec fn max_order(o: Seq<u32>, js: Seq<u32>) -> u32
    decreases js.len(),
{
    if js.len() == 0 {
        0
    } else {
        let m = max_order(o, js.drop_last());
        let x = o[js.last() as int];
        if x > m {
            x
        } else {
            m
        }
    }
}

/// How many of the reaches `js` have order `v`.
pub open spec fn count_order(o: Seq<u32>, js: Seq<u32>, v: u32) -> nat
    decreases js.len(),
{
    if js.len() == 0 {
        0
    } else {
        count_order(o, js.drop_last(), v) + if o[js.last() as int] == v {
            1nat
        } else {
            0nat
        }
    }
}

/// The Strahler rule: a source is order 1; otherwise the highest input order, raised by one
/// when at least two inputs share it.
pub open spec fn strahler_rule(o: Seq<u32>, inputs: Seq<u32>) -> int {
    if inputs.len() == 0 {
        1
    } else {
        let top = max_order(o, inputs);
        if count_order(o, inputs, top) >= 2 {
            top + 1
        } else {
            top as int
        }
    }
}

/// What `strahler` promises of its result, given which reaches it could settle and in what
/// order: a settled reach has the Strahler order of its inputs, every one of which was settled
/// before it; a reach it could not settle keeps the order it came in with and has an input it
/// could not settle either -- it lies on or below a cycle.
pub open spec fn strahler_settled(
    ds: Seq<Downstream>,
    before: Seq<u32>,
    after: Seq<u32>,
    settled: Seq<bool>,
    rank: Seq<nat>,
) -> bool {
    &&& settled.len() == ds.len()
    &&& rank.len() == ds.len()
    &&& forall|i: int|
        0 <= i < ds.len() && #[trigger] settled[i] ==> {
            &&& after[i] == strahler_rule(after, inputs_of(ds, i))
            &&& forall|k: int|
                0 <= k < inputs_of(ds, i).len() ==> settled[#[trigger] inputs_of(ds, i)[k] as int]
                    && rank[inputs_of(ds, i)[k] as int] < rank[i]
        }
    &&& forall|i: int|
        0 <= i < ds.len() && !#[trigger] settled[i] ==> {
            &&& after[i] == before[i]
            &&& exists|k: int|
                0 <= k < inputs_of(ds, i).len() && !settled[#[trigger] inputs_of(ds, i)[k] as int]
        }
}

/// How many of `js` are not yet `done`.
pub open spec fn count_undone(js: Seq<u32>, done: Seq<bool>) -> nat
    decreases js.len(),
{
    if js.len() == 0 {
        0
    } else {
        count_undone(js.drop_last(), done) + if done[js.last() as int] {
            0nat
        } else {
            1nat
        }
    }
}

proof fn lemma_inputs_upto(ds: Seq<Downstream>, id: int, k: int)
    requires
        0 <= k <= ds.len(),
        ds.len() < u32::MAX,
    ensures
        forall|m: int|
            0 <= m < inputs_upto(ds, id, k).len() ==> #[trigger] inputs_upto(ds, id, k)[m] < k
                && feeds(ds[inputs_upto(ds, id, k)[m] as int], id),
        forall|a: int, b: int|
            0 <= a < b < inputs_upto(ds, id, k).len() ==> #[trigger] inputs_upto(ds, id, k)[a]
                < #[trigger] inputs_upto(ds, id, k)[b],
        forall|j: int|
            0 <= j < k && feeds(ds[j], id) ==> #[trigger] inputs_upto(ds, id, k).contains(j as u32),
        inputs_upto(ds, id, k).len() <= k,
    decreases k,
{
    if k > 0 {
        lemma_inputs_upto(ds, id, k - 1);
        let prev = inputs_upto(ds, id, k - 1);
        if feeds(ds[k - 1], id) {
            let cur = prev.push((k - 1) as u32);
            assert(cur[cur.len() - 1] == (k - 1) as u32);
            assert forall|j: int| 0 <= j < k && feeds(ds[j], id) implies #[trigger] cur.contains(
                j as u32,
            ) by {
                if j < k - 1 {
                    assert(prev.contains(j as u32));
                    let m = choose|m: int| 0 <= m < prev.len() && prev[m] == j as u32;
                    assert(cur[m] == j as u32);
                } else {
                    assert(cur[cur.len() - 1] == j as u32);
                }
            }
        }
    }
}

proof fn lemma_count_undone_bounds(js: Seq<u32>, done: Seq<bool>)
    requires
        forall|m: int| 0 <= m < js.len() ==> #[trigger] js[m] < done.len(),
    ensures
        count_undone(js, done) == 0 ==> forall|m: int| 0 <= m < js.len() ==> done[#[trigger] js[m] as int],
        count_undone(js, done) > 0 ==> exists|m: int| 0 <= m < js.len() && !done[#[trigger] js[m] as int],
    decreases js.len(),
{
    if js.len() > 0 {
        let rest = js.drop_last();
        assert forall|m: int| 0 <= m < rest.len() implies #[trigger] rest[m] < done.len() by {
            assert(rest[m] == js[m]);
        }
        lemma_count_undone_bounds(rest, done);
        if count_undone(js, done) == 0 {
            assert forall|m: int| 0 <= m < js.len() implies done[#[trigger] js[m] as int] by {
                if m < js.len() - 1 {
                    assert(rest[m] == js[m]);
                }
            }
        }
        if count_undone(js, done) > 0 {
            if done[js.last() as int] {
                let m = choose|m: int| 0 <= m < rest.len() && !done[#[trigger] rest[m] as int];
                assert(js[m] == rest[m]);
            } else {
                assert(!done[js[js.len() - 1] as int]);
            }
        }
    }
}

proof fn lemma_count_undone_mark(js: Seq<u32>, done: Seq<bool>, id: int)
    requires
        forall|a: int, b: int| 0 <= a < b < js.len() ==> #[trigger] js[a] < #[trigger] js[b],
        0 <= id < done.len(),
        done.len() < u32::MAX,
        !done[id],
        forall|m: int| 0 <= m < js.len() ==> #[trigger] js[m] < done.len(),
    ensures
        count_undone(js, done.update(id, true)) == count_undone(js, done) - if js.contains(
            id as u32,
        ) {
            1int
        } else {
            0int
        },
    decreases js.len(),
{
    if js.len() > 0 {
        let rest = js.drop_last();
        assert forall|a: int, b: int| 0 <= a < b < rest.len() implies #[trigger] rest[a]
            < #[trigger] rest[b] by {
            assert(rest[a] == js[a] && rest[b] == js[b]);
        }
        assert forall|m: int| 0 <= m < rest.len() implies #[trigger] rest[m] < done.len() by {
            assert(rest[m] == js[m]);
        }
        lemma_count_undone_mark(rest, done, id);
        assert(js.last() < done.len());
        if js.last() == id as u32 {
            assert(js.contains(id as u32));
            assert(!rest.contains(id as u32)) by {
                if rest.contains(id as u32) {
                    let m = choose|m: int| 0 <= m < rest.len() && rest[m] == id as u32;
                    assert(js[m] < js[js.len() - 1]);
                }
            }
        } else {
            assert(js.contains(id as u32) == rest.contains(id as u32)) by {
                if js.contains(id as u32) {
                    let m = choose|m: int| 0 <= m < js.len() && js[m] == id as u32;
                    assert(m < js.len() - 1);
                    assert(rest[m] == id as u32);
                }
                if rest.contains(id as u32) {
                    let m = choose|m: int| 0 <= m < rest.len() && rest[m] == id as u32;
                    assert(js[m] == id as u32);
                }
            }
        }
    }
}

proof fn lemma_max_order_bound(o: Seq<u32>, js: Seq<u32>, bound: u32)
    requires
        forall|m: int| 0 <= m < js.len() ==> o[#[trigger] js[m] as int] <= bound,
    ensures
        max_order(o, js) <= bound,
    decreases js.len(),
{
    if js.len() > 0 {
        let rest = js.drop_last();
        assert forall|m: int| 0 <= m < rest.len() implies o[#[trigger] rest[m] as int] <= bound by {
            assert(rest[m] == js[m]);
        }
        lemma_max_order_bound(o, rest, bound);
        assert(o[js[js.len() - 1] as int] <= bound);
    }
}

proof fn lemma_count_above_max(o: Seq<u32>, js: Seq<u32>, v: u32)
    requires
        v > max_order(o, js),
    ensures
        count_order(o, js, v) == 0,
    decreases js.len(),
{
    if js.len() > 0 {
        lemma_count_above_max(o, js.drop_last(), v);
    }
}

proof fn lemma_orders_unchanged(o: Seq<u32>, p: Seq<u32>, js: Seq<u32>)
    requires
        forall|m: int| 0 <= m < js.len() ==> o[#[trigger] js[m] as int] == p[js[m] as int],
    ensures
        max_order(o, js) == max_order(p, js),
        forall|v: u32| count_order(o, js, v) == #[trigger] count_order(p, js, v),
        strahler_rule(o, js) == strahler_rule(p, js),
    decreases js.len(),
{
    if js.len() > 0 {
        let rest = js.drop_last();
        assert forall|m: int| 0 <= m < rest.len() implies o[#[trigger] rest[m] as int] == p[rest[m] as int] by {
            assert(rest[m] == js[m]);
        }
        lemma_orders_unchanged(o, p, rest);
        assert(o[js[js.len() - 1] as int] == p[js[js.len() - 1] as int]);
        assert forall|v: u32| count_order(o, js, v) == #[trigger] count_order(p, js, v) by {
            assert(count_order(o, rest, v) == count_order(p, rest, v));
        }
    }
}

/// The Strahler order of a reach whose inputs are `js`, read off the orders in `reaches`.
fn order_from_inputs(reaches: &Vec<Reach>, js: &Vec<u32>, bound: u32) -> (order: u32)
    requires
        bound < u32::MAX - 1,
        js@.len() < u32::MAX,
        forall|m: int| 0 <= m < js@.len() ==> (#[trigger] js@[m]) < reaches@.len(),
        forall|m: int| 0 <= m < js@.len() ==> reaches@[#[trigger] js@[m] as int].order <= bound,
    ensures
        order == strahler_rule(reach_orders(reaches@), js@),
        order <= bound + 1,
{
    let ghost orders = reach_orders(reaches@);
    let ghost s = js@;
    proof {
        assert forall|m: int| 0 <= m < s.len() implies orders[#[trigger] s[m] as int] <= bound by {
            assert(orders[s[m] as int] == reaches@[s[m] as int].order);
        }
        lemma_max_order_bound(orders, s, bound);
    }
    let mut top: u32 = 0;
    let mut at_top: u32 = 0;
    let mut t: usize = 0;
    let n = js.len();
    while t < n
        invariant
            t <= n,
            n == s.len(),
            s == js@,
            s.len() < u32::MAX,
            orders == reach_orders(reaches@),
            forall|m: int| 0 <= m < s.len() ==> (#[trigger] s[m]) < reaches@.len(),
            top == max_order(orders, s.take(t as int)),
            at_top == count_order(orders, s.take(t as int), top),
            at_top <= t,
        decreases n - t,
    {
        let input = js[t];
        let o = reaches[input as usize].order;
        proof {
            assert(s.take(t + 1).drop_last() == s.take(t as int));
            assert(s.take(t + 1).last() == input);
            assert(orders[input as int] == o);
            if o > top {
                lemma_count_above_max(orders, s.take(t as int), o);
            }
        }
        if o > top {
            top = o;
            at_top = 1;
        } else if o == top {
            at_top += 1;
        }
        t += 1;
    }
    proof {
        assert(s.take(n as int) == s);
    }
    if n == 0 {
        1
    } else if at_top >= 2 {
        top + 1
    } else {
        top
    }
}

/// The bookkeeping Kahn's order keeps: a reach is done once it is settled; a done reach obeys
/// the Strahler rule, is ranked after all its inputs, and has an order at most its rank plus one.
pub open spec fn settled_so_far(
    ds: Seq<Downstream>,
    orders: Seq<u32>,
    done: Seq<bool>,
    rank: Seq<nat>,
) -> bool {
    forall|y: int|
        0 <= y < ds.len() && #[trigger] done[y] ==> {
            &&& orders[y] == strahler_rule(orders, inputs_of(ds, y))
            &&& orders[y] <= rank[y] + 1
            &&& forall|m: int|
                0 <= m < inputs_of(ds, y).len() ==> done[#[trigger] inputs_of(ds, y)[m] as int]
                    && rank[inputs_of(ds, y)[m] as int] < rank[y]
        }
}

proof fn lemma_settle(
    ds: Seq<Downstream>,
    orders: Seq<u32>,
    done: Seq<bool>,
    rank: Seq<nat>,
    id: int,
    order: u32,
    head: nat,
)
    requires
        ds.len() < u32::MAX,
        orders.len() == ds.len(),
        done.len() == ds.len(),
        rank.len() == ds.len(),
        0 <= id < ds.len(),
        !done[id],
        settled_so_far(ds, orders, done, rank),
        forall|y: int| 0 <= y < ds.len() && #[trigger] done[y] ==> rank[y] < head,
        forall|m: int|
            0 <= m < inputs_of(ds, id).len() ==> done[#[trigger] inputs_of(ds, id)[m] as int],
        order == strahler_rule(orders, inputs_of(ds, id)),
        order <= head + 1,
    ensures
        settled_so_far(ds, orders.update(id, order), done.update(id, true), rank.update(id, head)),
{
    let o2 = orders.update(id, order);
    let d2 = done.update(id, true);
    let r2 = rank.update(id, head);
    assert forall|y: int| 0 <= y < ds.len() && #[trigger] d2[y] implies {
        &&& o2[y] == strahler_rule(o2, inputs_of(ds, y))
        &&& o2[y] <= r2[y] + 1
        &&& forall|m: int|
            0 <= m < inputs_of(ds, y).len() ==> d2[#[trigger] inputs_of(ds, y)[m] as int]
                && r2[inputs_of(ds, y)[m] as int] < r2[y]
    } by {
        lemma_inputs_upto(ds, y, ds.len() as int);
        let ys = inputs_of(ds, y);
        assert forall|m: int| 0 <= m < ys.len() implies orders[#[trigger] ys[m] as int] == o2[ys[m] as int] by {
            assert(done[ys[m] as int]);
        }
        lemma_orders_unchanged(orders, o2, ys);
        if y != id {
            assert forall|m: int| 0 <= m < ys.len() implies d2[#[trigger] ys[m] as int]
                && r2[ys[m] as int] < r2[y] by {
                assert(done[ys[m] as int]);
            }
        } else {
            assert forall|m: int| 0 <= m < ys.len() implies d2[#[trigger] ys[m] as int]
                && r2[ys[m] as int] < r2[y] by {
                assert(done[ys[m] as int]);
            }
        }
    }
}

proof fn lemma_mark_all(ds: Seq<Downstream>, done: Seq<bool>, id: int)
    requires
        ds.len() < u32::MAX,
        done.len() == ds.len(),
        0 <= id < ds.len(),
        !done[id],
    ensures
        forall|y: int|
            0 <= y < ds.len() ==> #[trigger] count_undone(inputs_of(ds, y), done.update(id, true))
                == count_undone(inputs_of(ds, y), done) - if feeds(ds[id], y) {
                1int
            } else {
                0int
            },
{
    assert forall|y: int| 0 <= y < ds.len() implies #[trigger] count_undone(
        inputs_of(ds, y),
        done.update(id, true),
    ) == count_undone(inputs_of(ds, y), done) - if feeds(ds[id], y) {
        1int
    } else {
        0int
    } by {
        lemma_inputs_upto(ds, y, ds.len() as int);
        lemma_count_undone_mark(inputs_of(ds, y), done, id);
        if inputs_of(ds, y).contains(id as u32) {
            let m = choose|m: int|
                0 <= m < inputs_of(ds, y).len() && inputs_of(ds, y)[m] == id as u32;
            assert(feeds(ds[id], y));
        }
    }
}

/// The reaches in `ready` before position `head` are exactly the done ones.
pub open spec fn done_is_prefix(done: Seq<bool>, ready: Seq<usize>, head: int) -> bool {
    forall|y: int| 0 <= y < done.len() ==> (#[trigger] done[y] <==> ready.take(head).contains(y as usize))
}

proof fn lemma_prefix_step(done: Seq<bool>, ready: Seq<usize>, head: int, rank: Seq<nat>)
    requires
        0 <= head < ready.len(),
        done.len() < u32::MAX,
        ready.no_duplicates(),
        0 <= ready[head] < done.len(),
        done_is_prefix(done, ready, head),
        rank.len() == done.len(),
        forall|m: int| 0 <= m < ready.len() ==> #[trigger] ready[m] < done.len(),
        forall|k: int| 0 <= k < head ==> #[trigger] rank[ready[k] as int] == k,
    ensures
        !done[ready[head] as int],
        forall|y: int| 0 <= y < done.len() && #[trigger] done[y] ==> rank[y] < head,
        done_is_prefix(done.update(ready[head] as int, true), ready, head + 1),
        forall|k: int| 0 <= k < head + 1 ==> #[trigger] rank.update(ready[head] as int, head as nat)[ready[k] as int] == k,
{
    let id = ready[head];
    let t0 = ready.take(head);
    let t1 = ready.take(head + 1);
    if done[id as int] {
        let m = choose|m: int| 0 <= m < t0.len() && t0[m] == id;
        assert(ready[m] == ready[head]);
    }
    assert forall|y: int| 0 <= y < done.len() && #[trigger] done[y] implies rank[y] < head by {
        let m = choose|m: int| 0 <= m < t0.len() && t0[m] == y as usize;
        assert(ready[m] == y as usize);
        assert(rank[ready[m] as int] == m);
    }
    let d2 = done.update(id as int, true);
    assert forall|y: int| 0 <= y < d2.len() implies (#[trigger] d2[y] <==> t1.contains(y as usize)) by {
        if y == id as int {
            assert(t1[head] == id);
        } else {
            if t1.contains(y as usize) {
                let m = choose|m: int| 0 <= m < t1.len() && t1[m] == y as usize;
                if m == head {
                    assert(t1[m] == id);
                }
                assert(m < head);
                assert(t0[m] == y as usize);
            }
            if t0.contains(y as usize) {
                let m = choose|m: int| 0 <= m < t0.len() && t0[m] == y as usize;
                assert(t1[m] == y as usize);
            }
        }
    }
    let r2 = rank.update(id as int, head as nat);
    assert forall|k: int| 0 <= k < head + 1 implies #[trigger] r2[ready[k] as int] == k by {
        if k < head {
            assert(ready[k] != ready[head]);
        }
    }
}

/// Strahler order, reach by reach in topological order (sources first). A reach on or below a
/// cycle of `Reach` links is never reached by that order and keeps the order it came in with.
pub fn strahler(reaches: Vec<Reach>) -> (ordered: Vec<Reach>)
    requires
        reaches@.len() < u32::MAX - 1,
        forall|i: int|
            0 <= i < reaches@.len() ==> downstream_in_range(
                #[trigger] reaches@[i].downstream,
                reaches@.len() as int,
            ),
    ensures
        ordered@.len() == reaches@.len(),
        forall|i: int|
            0 <= i < reaches@.len() ==> {
                &&& (#[trigger] ordered@[i]).nodes@ == reaches@[i].nodes@
                &&& ordered@[i].class == reaches@[i].class
                &&& ordered@[i].downstream == reaches@[i].downstream
            },
        exists|settled: Seq<bool>, rank: Seq<nat>|
            strahler_settled(
                reach_downstreams(reaches@),
                reach_orders(reaches@),
                reach_orders(ordered@),
                settled,
                rank,
            ),
{
    let mut reaches = reaches;
    let count = reaches.len();
    let ghost ds = reach_downstreams(reaches@);
    let ghost incoming = reaches@;
    let mut inputs: Vec<Vec<u32>> = Vec::new();
    let mut i: usize = 0;
    while i < count
        invariant
            i <= count,
            inputs@.len() == i,
            forall|x: int| 0 <= x < i ==> (#[trigger] inputs@[x])@ == Seq::<u32>::empty(),
        decreases count - i,
    {
        inputs.push(Vec::new());
        i += 1;
    }
    let mut id: usize = 0;
    while id < count
        invariant
            count == reaches@.len(),
            count < u32::MAX - 1,
            id <= count,
            reaches@ == incoming,
            ds == reach_downstreams(incoming),
            inputs@.len() == count,
            forall|i: int|
                0 <= i < count ==> downstream_in_range(#[trigger] incoming[i].downstream, count as int),
            forall|x: int| 0 <= x < count ==> (#[trigger] inputs@[x])@ == inputs_upto(ds, x, id as int),
        decreases count - id,
    {
        if let Downstream::Reach(next) = reaches[id].downstream {
            assert(incoming[id as int].downstream == ds[id as int]);
            inputs[next as usize].push(id as u32);
        }
        proof {
            assert forall|x: int| 0 <= x < count implies (#[trigger] inputs@[x])@ == inputs_upto(
                ds,
                x,
                id + 1,
            ) by {
                assert(ds[id as int] == incoming[id as int].downstream);
            }
        }
        id += 1;
    }
    proof {
        assert forall|x: int| 0 <= x < count implies #[trigger] inputs_of(ds, x).len() <= count
            && forall|m: int| 0 <= m < inputs_of(ds, x).len() ==> #[trigger] inputs_of(ds, x)[m] < count by {
            lemma_inputs_upto(ds, x, count as int);
        }
    }
    let mut pending: Vec<u32> = Vec::new();
    let mut ready: Vec<usize> = Vec::new();
    let ghost mut queued: Seq<bool> = Seq::empty();
    let ghost mut done: Seq<bool> = Seq::new(count as nat, |x: int| false);
    let mut x: usize = 0;
    while x < count
        invariant
            x <= count,
            count == reaches@.len(),
            count < u32::MAX - 1,
            inputs@.len() == count,
            forall|y: int| 0 <= y < count ==> (#[trigger] inputs@[y])@ == inputs_of(ds, y),
            forall|y: int|
                0 <= y < count ==> #[trigger] inputs_of(ds, y).len() <= count && forall|m: int|
                    0 <= m < inputs_of(ds, y).len() ==> #[trigger] inputs_of(ds, y)[m] < count,
            pending@.len() == x,
            queued.len() == x,
            done.len() == count,
            forall|y: int| 0 <= y < count ==> !done[y],
            forall|y: int|
                0 <= y < x ==> #[trigger] pending@[y] == count_undone(inputs_of(ds, y), done),
            forall|y: int| 0 <= y < x ==> (#[trigger] queued[y] <==> pending@[y] == 0),
            forall|y: int| 0 <= y < x ==> (#[trigger] queued[y] <==> ready@.contains(y as usize)),
            ready@.no_duplicates(),
            forall|m: int| 0 <= m < ready@.len() ==> #[trigger] ready@[m] < x,
        decreases count - x,
    {
        let p = inputs[x].len() as u32;
        proof {
            lemma_count_undone_all(inputs_of(ds, x as int), done);
        }
        pending.push(p);
        let ghost before = ready@;
        if p == 0 {
            ready.push(x);
        }
        proof {
            queued = queued.push(p == 0);
            assert forall|y: int| 0 <= y < x + 1 implies (#[trigger] queued[y] <==> ready@.contains(
                y as usize,
            )) by {
                if y < x {
                    if ready@.contains(y as usize) {
                        let m = choose|m: int| 0 <= m < ready@.len() && ready@[m] == y as usize;
                        if m < before.len() {
                            assert(before[m] == y as usize);
                        }
                    }
                    if before.contains(y as usize) {
                        let m = choose|m: int| 0 <= m < before.len() && before[m] == y as usize;
                        assert(ready@[m] == y as usize);
                    }
                } else if p == 0 {
                    assert(ready@[ready@.len() - 1] == x);
                } else {
                    if ready@.contains(y as usize) {
                        let m = choose|m: int| 0 <= m < ready@.len() && ready@[m] == y as usize;
                        assert(before[m] < x);
                    }
                }
            }
            if p == 0 {
                assert forall|a: int, b: int| 0 <= a < b < ready@.len() implies ready@[a] != ready@[b] by {
                    if b == ready@.len() - 1 {
                        assert(before[a] < x);
                    }
                }
            }
        }
        x += 1;
    }
    let mut head: usize = 0;
    let ghost mut rank: Seq<nat> = Seq::new(count as nat, |y: int| 0nat);
    proof {
        lemma_distinct_below(ready@, count as int);
        assert(ready@.take(0) == Seq::<usize>::empty());
    }
    while head < ready.len()
        invariant
            count == reaches@.len(),
            count < u32::MAX - 1,
            ds == reach_downstreams(incoming),
            incoming.len() == count,
            forall|i: int|
                0 <= i < count ==> downstream_in_range(#[trigger] incoming[i].downstream, count as int),
            forall|i: int|
                0 <= i < count ==> {
                    &&& (#[trigger] reaches@[i]).nodes@ == incoming[i].nodes@
                    &&& reaches@[i].class == incoming[i].class
                    &&& reaches@[i].downstream == incoming[i].downstream
                },
            inputs@.len() == count,
            forall|y: int| 0 <= y < count ==> (#[trigger] inputs@[y])@ == inputs_of(ds, y),
            forall|y: int|
                0 <= y < count ==> #[trigger] inputs_of(ds, y).len() <= count && forall|m: int|
                    0 <= m < inputs_of(ds, y).len() ==> #[trigger] inputs_of(ds, y)[m] < count,
            pending@.len() == count,
            queued.len() == count,
            done.len() == count,
            rank.len() == count,
            head <= ready@.len() <= count,
            ready@.no_duplicates(),
            forall|m: int| 0 <= m < ready@.len() ==> #[trigger] ready@[m] < count,
            forall|y: int| 0 <= y < count ==> (#[trigger] queued[y] <==> pending@[y] == 0),
            forall|y: int| 0 <= y < count ==> (#[trigger] queued[y] <==> ready@.contains(y as usize)),
            done_is_prefix(done, ready@, head as int),
            forall|y: int|
                0 <= y < count ==> #[trigger] pending@[y] == count_undone(inputs_of(ds, y), done),
            forall|k: int| 0 <= k < head ==> #[trigger] rank[ready@[k] as int] == k,
            forall|y: int|
                0 <= y < count && !#[trigger] done[y] ==> reaches@[y].order == incoming[y].order,
            settled_so_far(ds, reach_orders(reaches@), done, rank),
        decreases count - head,
    {
        let id = ready[head];
        let ghost orders = reach_orders(reaches@);
        let ghost js = inputs_of(ds, id as int);
        proof {
            lemma_prefix_step(done, ready@, head as int, rank);
            assert(ready@[head as int] == id);
            assert(ready@.contains(id));
            assert(queued[id as int]);
            assert(pending@[id as int] == 0);
            lemma_count_undone_bounds(js, done);
            assert forall|m: int| 0 <= m < js.len() implies reaches@[#[trigger] js[m] as int].order
                <= head as u32 by {
                assert(done[js[m] as int]);
                assert(orders[js[m] as int] == reaches@[js[m] as int].order);
            }
        }
        let order = order_from_inputs(&reaches, &inputs[id], head as u32);
        reaches[id].order = order;
        proof {
            assert(reach_orders(reaches@) == orders.update(id as int, order));
            lemma_settle(ds, orders, done, rank, id as int, order, head as nat);
            lemma_mark_all(ds, done, id as int);
        }
        let downstream = reaches[id].downstream;
        let ghost old_pending = pending@;
        let ghost old_done = done;
        let ghost old_ready = ready@;
        proof {
            assert(downstream == ds[id as int]);
            rank = rank.update(id as int, head as nat);
            done = done.update(id as int, true);
        }
        if let Downstream::Reach(next) = downstream {
            let j = next as usize;
            proof {
                lemma_inputs_upto(ds, j as int, count as int);
                assert(inputs_of(ds, j as int).contains(id as u32));
                let m = choose|m: int|
                    0 <= m < inputs_of(ds, j as int).len() && inputs_of(ds, j as int)[m] == id as u32;
                lemma_count_undone_bounds(inputs_of(ds, j as int), old_done);
                assert(!old_done[inputs_of(ds, j as int)[m] as int]);
            }
            pending.set(j, pending[j] - 1);
            if pending[j] == 0 {
                proof {
                    assert(!queued[j as int]);
                    assert(!old_ready.contains(j));
                    assert forall|a: int, b: int| 0 <= a < b < old_ready.len() + 1 implies old_ready.push(j)[a] != old_ready.push(j)[b] by {
                        if b == old_ready.len() {
                            assert(old_ready[a] != j);
                        }
                    }
                    lemma_distinct_below(old_ready.push(j), count as int);
                }
                ready.push(j);
                proof {
                    queued = queued.update(j as int, true);
                    assert(ready@.take(head + 1) == old_ready.take(head + 1));
                    assert forall|y: int| 0 <= y < count implies (#[trigger] queued[y] <==> ready@.contains(y as usize)) by {
                        if y == j as int {
                            assert(ready@[ready@.len() - 1] == j);
                        } else {
                            if ready@.contains(y as usize) {
                                let m = choose|m: int| 0 <= m < ready@.len() && ready@[m] == y as usize;
                                assert(old_ready[m] == y as usize);
                            }
                            if old_ready.contains(y as usize) {
                                let m = choose|m: int| 0 <= m < old_ready.len() && old_ready[m] == y as usize;
                                assert(ready@[m] == y as usize);
                            }
                        }
                    }
                    assert forall|k: int| 0 <= k < head + 1 implies #[trigger] rank[ready@[k] as int] == k by {
                        assert(ready@[k] == old_ready[k]);
                    }
                }
            }
        }
        head += 1;
    }
    proof {
        let settled = done;
        assert(strahler_settled(ds, reach_orders(incoming), reach_orders(reaches@), settled, rank)) by {
            assert forall|i: int| 0 <= i < count && !#[trigger] settled[i] implies {
                &&& reach_orders(reaches@)[i] == reach_orders(incoming)[i]
                &&& exists|k: int|
                    0 <= k < inputs_of(ds, i).len() && !settled[#[trigger] inputs_of(ds, i)[k] as int]
            } by {
                assert(!ready@.contains(i as usize)) by {
                    if ready@.contains(i as usize) {
                        let m = choose|m: int| 0 <= m < ready@.len() && ready@[m] == i as usize;
                        assert(ready@.take(head as int)[m] == i as usize);
                    }
                }
                assert(!queued[i]);
                assert(pending@[i] != 0);
                lemma_count_undone_bounds(inputs_of(ds, i), done);
            }
        }
    }
    reaches
}

proof fn lemma_count_undone_all(js: Seq<u32>, done: Seq<bool>)
    requires
        forall|m: int| 0 <= m < js.len() ==> 0 <= #[trigger] js[m] < done.len() && !done[js[m] as int],
    ensures
        count_undone(js, done) == js.len(),
    decreases js.len(),
{
    if js.len() > 0 {
        let rest = js.drop_last();
        assert forall|m: int| 0 <= m < rest.len() implies 0 <= #[trigger] rest[m] < done.len() && !done[rest[m] as int] by {
            assert(rest[m] == js[m]);
        }
        lemma_count_undone_all(rest, done);
        assert(!done[js[js.len() - 1] as int]);
    }
}

proof fn lemma_max_order_at_least(o: Seq<u32>, js: Seq<u32>, m: int)
    requires
        0 <= m < js.len(),
    ensures
        o[js[m] as int] <= max_order(o, js),
    decreases js.len(),
{
    if m < js.len() - 1 {
        lemma_max_order_at_least(o, js.drop_last(), m);
        assert(js.drop_last()[m] == js[m]);
    }
}

/// Reach `id` continues another: some reach of the same order drains straight into it.
pub open spec fn continues(rs: Seq<Reach>, id: int) -> bool {
    exists|s: int| 0 <= s < rs.len() && feeds((#[trigger] rs[s]).downstream, id) && rs[s].order == rs[id].order
}

/// How many of the first `k` reaches are of order `o` and start a stream of that order (none
/// of the same order drains into them).
pub open spec fn heads_upto(rs: Seq<Reach>, o: int, k: int) -> nat
    decreases k,
{
    if k <= 0 {
        0
    } else {
        heads_upto(rs, o, k - 1) + if rs[k - 1].order == o && !continues(rs, k - 1) { 1nat } else { 0nat }
    }
}

/// Horton's count of order-`o` streams: a chain of reaches of one order is one stream.
pub open spec fn horton_count(rs: Seq<Reach>, o: int) -> nat {
    heads_upto(rs, o, rs.len() as int)
}

/// The highest order of the reaches (0 for none).
pub open spec fn top_order(rs: Seq<Reach>) -> u32 {
    max_order(reach_orders(rs), Seq::new(rs.len(), |i: int| i as u32))
}

/// The bifurcation ratios as fractions, for orders `1..=upto`: `N_k / N_(k+1)` wherever at
/// least ten order-`k` streams and one order-`k+1` stream exist.
pub open spec fn ratio_pairs(rs: Seq<Reach>, upto: int) -> Seq<(u64, u64)>
    decreases upto,
{
    if upto < 1 {
        Seq::empty()
    } else {
        let earlier = ratio_pairs(rs, upto - 1);
        if horton_count(rs, upto) >= 10 && horton_count(rs, upto + 1) >= 1 {
            earlier.push((horton_count(rs, upto) as u64, horton_count(rs, upto + 1) as u64))
        } else {
            earlier
        }
    }
}

/// The orders `k` in `1..=upto` with at least ten streams whose next order has at least one.
pub open spec fn bifurcating_orders(rs: Seq<Reach>, upto: int) -> Set<int> {
    Set::new(|k: int| 1 <= k <= upto && bifurcates(rs, k))
}

/// Order `k` has at least ten streams, and the next order at least one.
pub open spec fn bifurcates(rs: Seq<Reach>, k: int) -> bool {
    horton_count(rs, k) >= 10 && horton_count(rs, k + 1) >= 1
}

/// `p` is the pair of counts of some bifurcating order in `1..=upto`.
pub open spec fn counts_of_bifurcating_order(rs: Seq<Reach>, upto: int, p: (u64, u64)) -> bool {
    exists|k: int| 1 <= k <= upto && #[trigger] bifurcates(rs, k) && p == pair_at(rs, k)
}

/// The counts of order `k` and order `k + 1`.
pub open spec fn pair_at(rs: Seq<Reach>, k: int) -> (u64, u64) {
    (horton_count(rs, k) as u64, horton_count(rs, k + 1) as u64)
}

/// The bifurcation ratios up to order `upto` are one per bifurcating order: every such order's
/// counts are among them, each of them is some such order's counts, and there are as many as
/// there are such orders.
pub proof fn lemma_one_ratio_per_bifurcating_order(rs: Seq<Reach>, upto: int)
    ensures
        bifurcating_orders(rs, upto).finite(),
        forall|k: int| #[trigger] bifurcating_orders(rs, upto).contains(k) ==> ratio_pairs(rs, upto).contains(pair_at(rs, k)),
        forall|i: int| 0 <= i < ratio_pairs(rs, upto).len() ==> counts_of_bifurcating_order(rs, upto,
            #[trigger] ratio_pairs(rs, upto)[i]),
        ratio_pairs(rs, upto).len() == bifurcating_orders(rs, upto).len(),
    decreases upto,
{
    let set = bifurcating_orders(rs, upto);
    if upto < 1 {
        assert(set =~= Set::empty());
    } else {
        lemma_one_ratio_per_bifurcating_order(rs, upto - 1);
        let before = bifurcating_orders(rs, upto - 1);
        let earlier = ratio_pairs(rs, upto - 1);
        if horton_count(rs, upto) >= 10 && horton_count(rs, upto + 1) >= 1 {
            assert(set =~= before.insert(upto));
            assert(!before.contains(upto));
            let now = earlier.push(pair_at(rs, upto));
            assert(ratio_pairs(rs, upto) == now);
            assert forall|k: int| #[trigger] set.contains(k) implies now.contains(pair_at(rs, k)) by {
                if k < upto {
                    assert(before.contains(k));
                    let i = choose|i: int| 0 <= i < earlier.len() && earlier[i] == pair_at(rs, k);
                    assert(now[i] == pair_at(rs, k));
                } else {
                    assert(now[earlier.len() as int] == pair_at(rs, k));
                }
            }
            assert forall|i: int| 0 <= i < ratio_pairs(rs, upto).len() implies counts_of_bifurcating_order(rs, upto,
                #[trigger] ratio_pairs(rs, upto)[i]) by {
                assert(ratio_pairs(rs, upto)[i] == now[i]);
                if i < earlier.len() {
                    assert(earlier[i] == now[i]);
                    assert(counts_of_bifurcating_order(rs, upto - 1, earlier[i]));
                    let k = choose|k: int| 1 <= k <= upto - 1 && #[trigger] bifurcates(rs, k) && earlier[i] == pair_at(rs, k);
                    assert(bifurcates(rs, k));
                } else {
                    assert(bifurcates(rs, upto));
                }
            }
        } else {
            assert(set =~= before);
            assert(ratio_pairs(rs, upto) == earlier);
            assert forall|i: int| 0 <= i < ratio_pairs(rs, upto).len() implies counts_of_bifurcating_order(rs, upto,
                #[trigger] ratio_pairs(rs, upto)[i]) by {
                assert(ratio_pairs(rs, upto)[i] == earlier[i]);
                assert(counts_of_bifurcating_order(rs, upto - 1, earlier[i]));
                let k = choose|k: int| 1 <= k <= upto - 1 && #[trigger] bifurcates(rs, k) && earlier[i] == pair_at(rs, k);
                assert(bifurcates(rs, k));
            }
        }
    }
}

proof fn lemma_heads_bound(rs: Seq<Reach>, o: int, k: int)
    requires
        0 <= k <= rs.len(),
    ensures
        heads_upto(rs, o, k) <= k,
    decreases k,
{
    if k > 0 {
        lemma_heads_bound(rs, o, k - 1);
    }
}

/// The bifurcation ratios of an ordered network, each as the exact fraction of two stream
/// counts (order `k` over order `k + 1`), for every order with at least ten streams followed by
/// an order with at least one.
pub fn bifurcation_ratios(reaches: &Vec<Reach>) -> (ratios: Vec<(u64, u64)>)
    requires
        reaches@.len() < u32::MAX,
        forall|i: int| 0 <= i < reaches@.len() ==> downstream_in_range(#[trigger] reaches@[i].downstream,
            reaches@.len() as int),
        forall|i: int| 0 <= i < reaches@.len() ==> (#[trigger] reaches@[i]).order + 2 <= usize::MAX,
    ensures
        ratios@ == ratio_pairs(reaches@, top_order(reaches@) as int),
        forall|k: int| #[trigger] bifurcating_orders(reaches@, top_order(reaches@) as int).contains(k) ==> ratios@.contains(
            pair_at(reaches@, k)),
        forall|i: int| 0 <= i < ratios@.len() ==> counts_of_bifurcating_order(reaches@, top_order(reaches@) as int,
            #[trigger] ratios@[i]),
        ratios@.len() == bifurcating_orders(reaches@, top_order(reaches@) as int).len(),
{

    let n = reaches.len();
    let ghost rs = reaches@;
    let mut top: u32 = 0;
    let mut i: usize = 0;
    while i < n
        invariant
            i <= n,
            n == rs.len(),
            rs == reaches@,
            n < u32::MAX,
            top == max_order(reach_orders(rs), Seq::new(i as nat, |j: int| j as u32)),
            top == 0 || exists|j: int| 0 <= j < i && (#[trigger] rs[j]).order == top,
            forall|j: int| 0 <= j < n ==> (#[trigger] rs[j]).order + 2 <= usize::MAX,
        decreases n - i,
    {
        let ghost old_top = top;
        if reaches[i].order > top {
            top = reaches[i].order;
        }
        proof {
            let js = Seq::new((i + 1) as nat, |j: int| j as u32);
            assert(js.drop_last() =~= Seq::new(i as nat, |j: int| j as u32));
            assert(js.last() == i as u32);
            assert(reach_orders(rs)[i as int] == rs[i as int].order);
            assert(max_order(reach_orders(rs), js) == top);
        }
        i += 1;
    }
    let mut continued: Vec<bool> = Vec::new();
    let mut i: usize = 0;
    while i < n
        invariant
            i <= n,
            continued@.len() == i,
            forall|x: int| 0 <= x < i ==> !continued@[x],
        decreases n - i,
    {
        continued.push(false);
        i += 1;
    }
    let mut s: usize = 0;
    while s < n
        invariant
            s <= n,
            n == rs.len(),
            rs == reaches@,
            continued@.len() == n,
            forall|i: int| 0 <= i < n ==> downstream_in_range(#[trigger] rs[i].downstream, n as int),
            forall|x: int| 0 <= x < n ==> (#[trigger] continued@[x] <==> exists|t: int| 0 <= t < s
                && feeds((#[trigger] rs[t]).downstream, x) && rs[t].order == rs[x].order),
        decreases n - s,
    {
        match reaches[s].downstream {
            Downstream::Reach(next) => {
                if reaches[next as usize].order == reaches[s].order {
                    continued.set(next as usize, true);
                }
            },
            _ => {},
        }
        proof {
            assert forall|x: int| 0 <= x < n implies (#[trigger] continued@[x] <==> exists|t: int| 0 <= t < s + 1
                && feeds((#[trigger] rs[t]).downstream, x) && rs[t].order == rs[x].order) by {
                if feeds(rs[s as int].downstream, x) && rs[s as int].order == rs[x].order {
                    assert(feeds(rs[s as int].downstream, x));
                }
            }
        }
        s += 1;
    }
    // counts[o] for o in 0..top + 2
    let mut counts: Vec<u64> = Vec::new();
    let mut o: usize = 0;
    assert(top + 2 <= usize::MAX);
    while o < top as usize + 2
        invariant
            top + 2 <= usize::MAX,
            o <= top as usize + 2,
            counts@.len() == o,
            forall|x: int| 0 <= x < o ==> counts@[x] == 0,
        decreases top as usize + 2 - o,
    {
        counts.push(0);
        o += 1;
    }
    proof {
        assert forall|x: int| 0 <= x < n implies (#[trigger] rs[x]).order <= top by {
            let js = Seq::new(n as nat, |j: int| j as u32);
            lemma_max_order_at_least(reach_orders(rs), js, x);
            assert(js[x] == x as u32);
        }
    }
    let mut id: usize = 0;
    while id < n
        invariant
            id <= n,
            n == rs.len(),
            n < u32::MAX,
            rs == reaches@,
            counts@.len() == top + 2,
            continued@.len() == n,
            forall|x: int| 0 <= x < n ==> (#[trigger] continued@[x] <==> continues(rs, x)),
            forall|x: int| 0 <= x < n ==> (#[trigger] rs[x]).order <= top,
            forall|o: int| 0 <= o < top + 2 ==> #[trigger] counts@[o] == heads_upto(rs, o, id as int),
        decreases n - id,
    {
        let ord = reaches[id].order as usize;
        proof {
            lemma_heads_bound(rs, ord as int, id as int);
        }
        if !continued[id] {
            counts.set(ord, counts[ord] + 1);
        }
        proof {
            assert forall|o: int| 0 <= o < top + 2 implies #[trigger] counts@[o] == heads_upto(rs, o, id + 1) by {
            }
        }
        id += 1;
    }
    let mut ratios: Vec<(u64, u64)> = Vec::new();
    let mut k: usize = 1;
    proof {
        assert(ratios@ == ratio_pairs(rs, 0));
    }
    while k <= top as usize
        invariant
            top + 2 <= usize::MAX,
            1 <= k <= top as usize + 1,
            n == rs.len(),
            rs == reaches@,
            counts@.len() == top + 2,
            forall|o: int| 0 <= o < top + 2 ==> #[trigger] counts@[o] == horton_count(rs, o),
            ratios@ == ratio_pairs(rs, k - 1),
        decreases top as usize + 1 - k,
    {
        if counts[k] >= 10 && counts[k + 1] >= 1 {
            ratios.push((counts[k], counts[k + 1]));
        }
        k += 1;
    }
    proof {
        assert(top_order(rs) == top) by {
            assert(Seq::new(n as nat, |j: int| j as u32) =~= Seq::new(rs.len(), |i: int| i as u32));
        }
    }
    proof {
        let upto = top_order(reaches@) as int;
        lemma_one_ratio_per_bifurcating_order(reaches@, upto);
        assert forall|i: int| 0 <= i < ratios@.len() implies counts_of_bifurcating_order(reaches@, upto,
            #[trigger] ratios@[i]) by {
            assert(ratios@[i] == ratio_pairs(reaches@, upto)[i]);
        }
    }
    ratios
}

/// A reach's order never falls downstream: wherever the reach it drains into was ordered, that
/// reach's order is at least its own.
pub proof fn lemma_order_never_falls_downstream(
    ds: Seq<Downstream>,
    before: Seq<u32>,
    after: Seq<u32>,
    settled: Seq<bool>,
    rank: Seq<nat>,
    r: int,
)
    requires
        ds.len() < u32::MAX,
        after.len() == ds.len(),
        strahler_settled(ds, before, after, settled, rank),
        0 <= r < ds.len(),
        ds[r] matches Downstream::Reach(d) && d < ds.len() && settled[d as int],
    ensures
        ds[r] matches Downstream::Reach(d) && after[d as int] >= after[r],
{
    let d = ds[r]->Reach_0 as int;
    lemma_inputs_upto(ds, d, ds.len() as int);
    let js = inputs_of(ds, d);
    assert(feeds(ds[r], d));
    assert(js.contains(r as u32));
    let m = choose|m: int| 0 <= m < js.len() && js[m] == r as u32;
    lemma_max_order_at_least(after, js, m);
    assert(after[d] == strahler_rule(after, js));
}

/// The fewest hops after which following reach links from `i` has left the reaches.
pub open spec fn least_fuel(links: Seq<Downstream>, i: int) -> nat {
    choose|f: nat| settles_within(links, i, f) && forall|g: nat| g < f ==> !#[trigger] settles_within(links, i, g)
}

proof fn lemma_least_fuel(links: Seq<Downstream>, i: int, f: nat)
    requires
        settles_within(links, i, f),
    ensures
        settles_within(links, i, least_fuel(links, i)),
        forall|g: nat| g < least_fuel(links, i) ==> !#[trigger] settles_within(links, i, g),
    decreases f,
{
    if exists|g: nat| g < f && #[trigger] settles_within(links, i, g) {
        let g = choose|g: nat| g < f && #[trigger] settles_within(links, i, g);
        lemma_least_fuel(links, i, g);
    } else {
        assert(settles_within(links, i, f) && forall|g: nat| g < f ==> !#[trigger] settles_within(links, i, g));
    }
}

/// Among the unsettled reaches below `k`, one whose least fuel is largest.
proof fn lemma_most_fuel_unsettled(links: Seq<Downstream>, settled: Seq<bool>, k: int) -> (u: int)
    requires
        0 <= k <= settled.len(),
        exists|x: int| 0 <= x < k && !settled[x],
    ensures
        0 <= u < k,
        !settled[u],
        forall|x: int| 0 <= x < k && !settled[x] ==> least_fuel(links, x) <= least_fuel(links, u),
    decreases k,
{
    if exists|x: int| 0 <= x < k - 1 && !settled[x] {
        let u = lemma_most_fuel_unsettled(links, settled, k - 1);
        if !settled[k - 1] && least_fuel(links, k - 1) > least_fuel(links, u) {
            k - 1
        } else {
            u
        }
    } else {
        k - 1
    }
}

/// On a network whose reach links close no loop, every reach gets its order: the Strahler
/// pass settles them all.
pub proof fn lemma_acyclic_networks_settle(
    ds: Seq<Downstream>,
    before: Seq<u32>,
    after: Seq<u32>,
    settled: Seq<bool>,
    rank: Seq<nat>,
)
    requires
        ds.len() < u32::MAX,
        acyclic(ds),
        strahler_settled(ds, before, after, settled, rank),
    ensures
        forall|i: int| 0 <= i < ds.len() ==> settled[i],
{
    if exists|x: int| 0 <= x < ds.len() && !settled[x] {
        let u = lemma_most_fuel_unsettled(ds, settled, ds.len() as int);
        let js = inputs_of(ds, u);
        let k = choose|k: int| 0 <= k < js.len() && !settled[#[trigger] js[k] as int];
        lemma_inputs_upto(ds, u, ds.len() as int);
        let v = js[k] as int;
        assert(feeds(ds[v], u));
        assert(settles(ds, v));
        let f = choose|f: nat| settles_within(ds, v, f);
        lemma_least_fuel(ds, v, f);
        let fv = least_fuel(ds, v);
        assert(settles_within(ds, v, fv));
        assert(fv > 0 && settles_within(ds, u, (fv - 1) as nat));
        lemma_least_fuel(ds, u, (fv - 1) as nat);
        assert(least_fuel(ds, u) <= fv - 1);
        assert(least_fuel(ds, v) <= least_fuel(ds, u));
        assert(false);
    }
}

} // verus!
