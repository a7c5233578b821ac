//! The graph the water runs on: nodes and their neighbours, held as one flat adjacency list.
//!
//! Neighbour lists are symmetric, sorted, free of duplicates and free of self-loops, whatever
//! the directed lists they were built from.
use vstd::prelude::*;

verus! {

/// Strictly ascending: sorted, with no entry twice.
pub open spec fn ascending(s: Seq<u32>) -> bool {
    forall|i: int, j: int| 0 <= i < j < s.len() ==> #[trigger] s[i] < #[trigger] s[j]
}

/// The directed lists name `b` among `a`'s neighbours.
pub open spec fn linked(directed: Seq<Seq<u32>>, a: int, b: int) -> bool {
    0 <= a < directed.len() && directed[a].contains(b as u32)
}

/// `a` and `b` are neighbours once the directed lists are made symmetric and self-loops are
/// dropped.
pub open spec fn joined(directed: Seq<Seq<u32>>, a: int, b: int) -> bool {
    a != b && (linked(directed, a, b) || linked(directed, b, a))
}

/// The directed lists, as sequences.
pub open spec fn lists_view(directed: Seq<Vec<u32>>) -> Seq<Seq<u32>> {
    Seq::new(directed.len(), |i: int| directed[i]@)
}

/// A graph of `count` nodes whose neighbour lists are `rows`: every list ascending, every entry
/// a node other than its own, and every link mirrored.
pub open spec fn well_linked(rows: Seq<Seq<u32>>, count: int) -> bool {
    &&& rows.len() == count
    &&& forall|a: int| 0 <= a < count ==> ascending(#[trigger] rows[a])
    &&& forall|a: int, k: int|
        0 <= a < count && 0 <= k < rows[a].len() ==> #[trigger] rows[a][k] < count && rows[a][k]
            != a
    &&& forall|a: int, b: int|
        0 <= a < count && 0 <= b < count && #[trigger] rows[a].contains(b as u32) ==> #[trigger] rows[b].contains(a as u32)
}

/// The neighbour lists a flat adjacency list holds: list `a` runs from `starts[a]` to
/// `starts[a + 1]`.
pub open spec fn rows_of(starts: Seq<usize>, adj: Seq<u32>) -> Seq<Seq<u32>> {
    Seq::new((starts.len() - 1) as nat, |a: int| adj.subrange(starts[a] as int, starts[a + 1] as int))
}

/// Nodes and their neighbours.
pub struct LandGraph {
    adj_start: Vec<usize>,
    adj: Vec<u32>,
}

impl LandGraph {
    /// How many nodes the graph has.
    pub closed spec fn node_count(&self) -> int {
        self.adj_start@.len() - 1
    }

    /// Every node's neighbours, ascending, in node order.
    pub closed spec fn rows(&self) -> Seq<Seq<u32>> {
        rows_of(self.adj_start@, self.adj@)
    }

    #[verifier::type_invariant]
    spec fn inv(self) -> bool {
        &&& self.adj_start@.len() >= 1
        &&& self.adj_start@.len() - 1 <= u32::MAX
        &&& self.adj_start@[0] == 0
        &&& self.adj_start@[self.adj_start@.len() - 1] == self.adj@.len()
        &&& forall|a: int, b: int|
            0 <= a <= b < self.adj_start@.len() ==> #[trigger] self.adj_start@[a] <= #[trigger] self.adj_start@[b]
        &&& well_linked(self.rows(), self.node_count())
    }

    /// The graph of `node_count` nodes whose neighbours are the directed lists made symmetric,
    /// sorted and deduplicated, with self-loops dropped.
    pub fn from_parts(node_count: usize, directed: &Vec<Vec<u32>>) -> (graph: Self)
        requires
            node_count <= u32::MAX,
            directed@.len() <= node_count,
            forall|a: int, k: int|
                0 <= a < directed@.len() && 0 <= k < directed@[a]@.len() ==> #[trigger] directed@[a]@[k]
                    < node_count,
        ensures
            graph.node_count() == node_count,
            well_linked(graph.rows(), graph.node_count()),
            forall|a: int, b: int|
                0 <= a < node_count && 0 <= b < node_count ==> (#[trigger] graph.rows()[a].contains(
                    b as u32,
                ) <==> joined(lists_view(directed@), a, b)),
    {
        let ghost dir = lists_view(directed@);
        let mut rows: Vec<Vec<u32>> = Vec::new();
        let mut i: usize = 0;
        while i < node_count
            invariant
                i <= node_count,
                rows@.len() == i,
                forall|x: int| 0 <= x < i ==> (#[trigger] rows@[x])@ == Seq::<u32>::empty(),
            decreases node_count - i,
        {
            rows.push(Vec::new());
            i += 1;
        }
        let mut a: usize = 0;
        while a < directed.len()
            invariant
                a <= directed@.len(),
                directed@.len() <= node_count,
                node_count <= u32::MAX,
                dir == lists_view(directed@),
                rows@.len() == node_count,
                forall|p: int, k: int|
                    0 <= p < directed@.len() && 0 <= k < directed@[p]@.len() ==> #[trigger] directed@[p]@[k]
                        < node_count,
                forall|x: int| 0 <= x < node_count ==> ascending(#[trigger] rows@[x]@),
                forall|x: int, y: int|
                    0 <= x < node_count && 0 <= y < node_count ==> (#[trigger] rows@[x]@.contains(y as u32) <==> (
                    x != y && (seen(dir, x, y, a as int, 0) || seen(dir, y, x, a as int, 0)))),
                forall|x: int, k: int|
                    0 <= x < node_count && 0 <= k < rows@[x]@.len() ==> #[trigger] rows@[x]@[k] < node_count,
            decreases directed@.len() - a,
        {
            let mut k: usize = 0;
            let len = directed[a].len();
            while k < len
                invariant
                    a < directed@.len(),
                    directed@.len() <= node_count,
                    node_count <= u32::MAX,
                    dir == lists_view(directed@),
                    len == directed@[a as int]@.len(),
                    k <= len,
                    rows@.len() == node_count,
                    forall|p: int, k: int|
                        0 <= p < directed@.len() && 0 <= k < directed@[p]@.len() ==> #[trigger] directed@[p]@[k]
                            < node_count,
                    forall|x: int| 0 <= x < node_count ==> ascending(#[trigger] rows@[x]@),
                    forall|x: int, y: int|
                        0 <= x < node_count && 0 <= y < node_count ==> (#[trigger] rows@[x]@.contains(y as u32) <==> (
                        x != y && (seen(dir, x, y, a as int, k as int) || seen(dir, y, x, a as int, k as int)))),
                    forall|x: int, k: int|
                        0 <= x < node_count && 0 <= k < rows@[x]@.len() ==> #[trigger] rows@[x]@[k] < node_count,
                decreases len - k,
            {
                let b = directed[a][k];
                let ghost before = rows@;
                if (a as u32) != b {
                    insert_sorted(&mut rows[a], b);
                    insert_sorted(&mut rows[b as usize], a as u32);
                }
                proof {
                    assert(dir[a as int] == directed@[a as int]@);
                    assert(dir[a as int].take(k + 1) == dir[a as int].take(k as int).push(b));
                    assert forall|x: int, y: int|
                        0 <= x < node_count && 0 <= y < node_count implies (#[trigger] rows@[x]@.contains(y as u32) <==> (
                        x != y && (seen(dir, x, y, a as int, k + 1) || seen(dir, y, x, a as int, k + 1)))) by {
                        lemma_seen_step(dir, x, y, a as int, k as int, b);
                        lemma_seen_step(dir, y, x, a as int, k as int, b);
                        if (a as u32) != b {
                            if x == a as int && x == b as int {
                            }
                        } else {
                            assert(rows@ == before);
                        }
                        assert(y as u32 as int == y);
                        assert(x as u32 as int == x);
                    }
                    assert forall|x: int, k2: int|
                        0 <= x < node_count && 0 <= k2 < rows@[x]@.len() implies #[trigger] rows@[x]@[k2] < node_count by {
                        let v = rows@[x]@[k2];
                        assert(rows@[x]@.contains(v));
                        if x != a as int && x != b as int {
                            assert(rows@[x] == before[x]);
                        } else if x == a as int && v != b {
                            assert(before[x]@.contains(v));
                        } else if x == b as int && v != a as u32 {
                            assert(before[x]@.contains(v));
                        }
                    }
                }
                k += 1;
            }
            proof {
                assert(directed@[a as int]@.take(len as int) == directed@[a as int]@);
                assert forall|x: int, y: int|
                    0 <= x < node_count && 0 <= y < node_count implies (#[trigger] rows@[x]@.contains(y as u32) <==> (
                    x != y && (seen(dir, x, y, a + 1, 0) || seen(dir, y, x, a + 1, 0)))) by {
                    lemma_seen_next(dir, x, y, a as int);
                    lemma_seen_next(dir, y, x, a as int);
                }
            }
            a += 1;
        }
        let mut adj_start: Vec<usize> = Vec::new();
        let mut adj: Vec<u32> = Vec::new();
        adj_start.push(0);
        let mut x: usize = 0;
        while x < node_count
            invariant
                x <= node_count,
                node_count <= u32::MAX,
                rows@.len() == node_count,
                adj_start@.len() == x + 1,
                adj_start@[0] == 0,
                adj_start@[x as int] == adj@.len(),
                forall|p: int, q: int| 0 <= p <= q <= x ==> #[trigger] adj_start@[p] <= #[trigger] adj_start@[q],
                forall|p: int|
                    0 <= p < x ==> adj@.subrange(adj_start@[p] as int, adj_start@[p + 1] as int) == #[trigger] rows@[p]@,
            decreases node_count - x,
        {
            let ghost before = adj@;
            let mut k: usize = 0;
            let len = rows[x].len();
            while k < len
                invariant
                    k <= len,
                    len == rows@[x as int]@.len(),
                    x < rows@.len(),
                    adj@ == before + rows@[x as int]@.take(k as int),
                decreases len - k,
            {
                adj.push(rows[x][k]);
                proof {
                    assert(rows@[x as int]@.take(k + 1) == rows@[x as int]@.take(k as int).push(rows@[x as int]@[k as int]));
                }
                k += 1;
            }
            adj_start.push(adj.len());
            proof {
                assert(rows@[x as int]@.take(len as int) == rows@[x as int]@);
                assert forall|p: int| 0 <= p < x + 1 implies adj@.subrange(adj_start@[p] as int, adj_start@[p + 1] as int) == #[trigger] rows@[p]@ by {
                    if p < x {
                        assert(adj@.subrange(adj_start@[p] as int, adj_start@[p + 1] as int) == before.subrange(adj_start@[p] as int, adj_start@[p + 1] as int));
                    } else {
                        assert(adj@.subrange(adj_start@[p] as int, adj_start@[p + 1] as int) == rows@[x as int]@);
                    }
                }
            }
            x += 1;
        }
        proof {
            let built = rows_of(adj_start@, adj@);
            assert forall|p: int| 0 <= p < node_count implies #[trigger] built[p] == rows@[p]@ by {}
            assert forall|p: int, q: int|
                0 <= p < node_count && 0 <= q < node_count && #[trigger] built[p].contains(q as u32) implies #[trigger] built[q].contains(p as u32) by {
                assert(rows@[p]@.contains(q as u32));
            }
            assert forall|p: int, k: int|
                0 <= p < node_count && 0 <= k < built[p].len() implies #[trigger] built[p][k] < node_count && built[p][k] != p by {
                let v = rows@[p]@[k];
                assert(built[p][k] == v);
                assert(v < node_count);
                assert(rows@[p]@.contains((v as int) as u32));
            }
            assert forall|p: int| 0 <= p < node_count implies ascending(#[trigger] built[p]) by {}
        }
        let graph = LandGraph { adj_start, adj };
        graph
    }

    /// How many nodes the graph has.
    pub fn len(&self) -> (n: usize)
        ensures
            n == self.node_count(),
            n <= u32::MAX,
            well_linked(self.rows(), self.node_count()),
    {
        proof {
            use_type_invariant(self);
        }
        self.adj_start.len() - 1
    }

    /// Whether the graph has no nodes.
    pub fn is_empty(&self) -> (empty: bool)
        ensures
            empty <==> self.node_count() == 0,
    {
        proof {
            use_type_invariant(self);
        }
        self.adj_start.len() == 1
    }

    /// Node `node`'s neighbours, ascending.
    pub fn neighbours(&self, node: u32) -> (out: &[u32])
        requires
            node < self.node_count(),
        ensures
            out@ == self.rows()[node as int],
            well_linked(self.rows(), self.node_count()),
    {
        proof {
            use_type_invariant(self);
        }
        let start = self.adj_start[node as usize];
        let end = self.adj_start[node as usize + 1];
        vstd::slice::slice_subrange(self.adj.as_slice(), start, end)
    }
}

/// Whether `p -> q` is among the directed links read so far: all of lists before `a`, and the
/// first `k` entries of list `a`.
pub open spec fn seen(dir: Seq<Seq<u32>>, p: int, q: int, a: int, k: int) -> bool {
    (0 <= p < a && linked(dir, p, q)) || (p == a && 0 <= a < dir.len() && dir[a].take(k).contains(q as u32))
}

proof fn lemma_seen_step(dir: Seq<Seq<u32>>, p: int, q: int, a: int, k: int, b: u32)
    requires
        0 <= a < dir.len(),
        0 <= k < dir[a].len(),
        dir[a][k] == b,
        0 <= q <= u32::MAX,
    ensures
        seen(dir, p, q, a, k + 1) <==> seen(dir, p, q, a, k) || (p == a && q == b as int),
{
    let t0 = dir[a].take(k);
    let t1 = dir[a].take(k + 1);
    assert(t1 == t0.push(b));
    if p == a && t1.contains(q as u32) && !t0.contains(q as u32) {
        let m = choose|m: int| 0 <= m < t1.len() && t1[m] == q as u32;
        if m < k {
            assert(t0[m] == q as u32);
        }
    }
    if p == a && t0.contains(q as u32) {
        let m = choose|m: int| 0 <= m < t0.len() && t0[m] == q as u32;
        assert(t1[m] == q as u32);
    }
    if p == a && q == b as int {
        assert(t1[k] == b);
    }
}

proof fn lemma_seen_next(dir: Seq<Seq<u32>>, p: int, q: int, a: int)
    requires
        0 <= a < dir.len(),
    ensures
        seen(dir, p, q, a, dir[a].len() as int) <==> seen(dir, p, q, a + 1, 0),
{
    assert(dir[a].take(dir[a].len() as int) == dir[a]);
    assert(dir.len() > a);
}

/// Puts `x` into an ascending list, once.
pub(crate) fn insert_sorted(row: &mut Vec<u32>, x: u32)
    requires
        ascending(old(row)@),
    ensures
        ascending(final(row)@),
        forall|y: u32| #[trigger] final(row)@.contains(y) <==> old(row)@.contains(y) || y == x,
        final(row)@.len() <= old(row)@.len() + 1,
{
    let mut i: usize = 0;
    while i < row.len() && row[i] < x
        invariant
            i <= row@.len(),
            forall|m: int| 0 <= m < i ==> #[trigger] row@[m] < x,
        decreases row@.len() - i,
    {
        i += 1;
    }
    if i < row.len() && row[i] == x {
        return;
    }
    let ghost before = row@;
    row.insert(i, x);
    proof {
        assert(row@ == before.insert(i as int, x));
        assert forall|p: int, q: int| 0 <= p < q < row@.len() implies #[trigger] row@[p] < #[trigger] row@[q] by {
            if q < i {
            } else if p < i && q == i {
            } else if p < i {
                assert(before[p] < before[q - 1]);
            } else if p == i {
                assert(before[i as int] > x || before[i as int] != x);
                assert(before[i as int] <= before[q - 1]);
            } else {
                assert(before[p - 1] < before[q - 1]);
            }
        }
        assert forall|y: u32| #[trigger] row@.contains(y) <==> before.contains(y) || y == x by {
            if row@.contains(y) {
                let m = choose|m: int| 0 <= m < row@.len() && row@[m] == y;
                if m < i {
                    assert(before[m] == y);
                } else if m > i {
                    assert(before[m - 1] == y);
                }
            }
            if before.contains(y) {
                let m = choose|m: int| 0 <= m < before.len() && before[m] == y;
                if m < i {
                    assert(row@[m] == y);
                } else {
                    assert(row@[m + 1] == y);
                }
            }
            if y == x {
                assert(row@[i as int] == x);
            }
        }
    }
}

} // verus!
