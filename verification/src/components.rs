//! Connected groups of nodes: the below-datum water of the world, split into the ocean and its
//! enclosed basins, and the flat hollows a flood filled.
//!
//! Two chosen nodes belong together when they are neighbours and carry the same key; a group is
//! everything such steps reach. Groups are numbered in the order of their lowest node.
use vstd::prelude::*;
use crate::graph::{LandGraph, well_linked};
use crate::seqs::{count_false, lemma_count_false_set};

verus! {

/// A node in no group.
pub const NO_COMPONENT: u32 = 0xffff_ffffu32;

/// `a` and `b` are chosen, carry the same key, and are neighbours.
pub open spec fn bond(rows: Seq<Seq<u32>>, member: Seq<bool>, key: Seq<u64>, a: int, b: int) -> bool {
    &&& 0 <= a < rows.len()
    &&& 0 <= b < rows.len()
    &&& member[a]
    &&& member[b]
    &&& key[a] == key[b]
    &&& rows[a].contains(b as u32)
}

/// A walk from a chosen node through bonded steps.
pub open spec fn is_path(rows: Seq<Seq<u32>>, member: Seq<bool>, key: Seq<u64>, path: Seq<u32>) -> bool {
    &&& path.len() > 0
    &&& path[0] < rows.len()
    &&& member[path[0] as int]
    &&& forall|k: int| 0 <= k < path.len() - 1 ==> bond(rows, member, key, #[trigger] path[k] as int,
        path[k + 1] as int)
}

/// Some walk of bonded steps leads from `a` to `b`.
#[verifier::opaque]
pub open spec fn connected(rows: Seq<Seq<u32>>, member: Seq<bool>, key: Seq<u64>, a: int, b: int) -> bool {
    exists|path: Seq<u32>| #[trigger] is_path(rows, member, key, path) && path[0] == a && path.last() == b
}

/// Which entries of a labelling are set.
pub open spec fn labelled(label: Seq<u32>) -> Seq<bool> {
    Seq::new(label.len(), |i: int| label[i] != NO_COMPONENT)
}

proof fn lemma_path_push(rows: Seq<Seq<u32>>, member: Seq<bool>, key: Seq<u64>, path: Seq<u32>, y: u32)
    requires
        is_path(rows, member, key, path),
        bond(rows, member, key, path.last() as int, y as int),
    ensures
        is_path(rows, member, key, path.push(y)),
{
    let p = path.push(y);
    assert forall|k: int| 0 <= k < p.len() - 1 implies bond(rows, member, key, #[trigger] p[k] as int,
        p[k + 1] as int) by {
        if k < path.len() - 1 {
            assert(p[k] == path[k] && p[k + 1] == path[k + 1]);
        }
    }
}

proof fn lemma_path_reverse(rows: Seq<Seq<u32>>, member: Seq<bool>, key: Seq<u64>, path: Seq<u32>)
    requires
        is_path(rows, member, key, path),
        well_linked(rows, rows.len() as int),
    ensures
        is_path(rows, member, key, path.reverse()),
        path.reverse()[0] == path.last(),
        path.reverse().last() == path[0],
{
    let r = path.reverse();
    let n = path.len();
    if n > 1 {
        assert(bond(rows, member, key, path[n - 2] as int, path[n - 1] as int));
    }
    assert forall|k: int| 0 <= k < r.len() - 1 implies bond(rows, member, key, #[trigger] r[k] as int,
        r[k + 1] as int) by {
        let j = n - 2 - k;
        assert(r[k] == path[j + 1] && r[k + 1] == path[j]);
        assert(bond(rows, member, key, path[j] as int, path[j + 1] as int));
        let a = path[j] as int;
        let b = path[j + 1] as int;
        assert(rows[a].contains(b as u32));
        assert(rows[b].contains(a as u32));
    }
}

proof fn lemma_path_join(rows: Seq<Seq<u32>>, member: Seq<bool>, key: Seq<u64>, p: Seq<u32>, q: Seq<u32>)
    requires
        is_path(rows, member, key, p),
        is_path(rows, member, key, q),
        p.last() == q[0],
    ensures
        is_path(rows, member, key, p + q.drop_first()),
        (p + q.drop_first())[0] == p[0],
        (p + q.drop_first()).last() == q.last(),
{
    let j = p + q.drop_first();
    assert forall|k: int| 0 <= k < j.len() - 1 implies bond(rows, member, key, #[trigger] j[k] as int,
        j[k + 1] as int) by {
        if k < p.len() - 1 {
            assert(j[k] == p[k] && j[k + 1] == p[k + 1]);
        } else if k == p.len() - 1 {
            assert(j[k] == q[0] && j[k + 1] == q[1]);
            assert(bond(rows, member, key, q[0] as int, q[1] as int));
        } else {
            let m = k - p.len() + 1;
            assert(j[k] == q[m] && j[k + 1] == q[m + 1]);
        }
    }
    if q.len() > 1 {
        assert(j.last() == q.last());
    }
}

proof fn lemma_connected_step(rows: Seq<Seq<u32>>, member: Seq<bool>, key: Seq<u64>, a: int, b: int, y: u32)
    requires
        connected(rows, member, key, a, b),
        bond(rows, member, key, b, y as int),
    ensures
        connected(rows, member, key, a, y as int),
{
    reveal(connected);
    let p = choose|p: Seq<u32>| #[trigger] is_path(rows, member, key, p) && p[0] == a && p.last() == b;
    lemma_path_push(rows, member, key, p, y);
    assert(is_path(rows, member, key, p.push(y)));
}

pub(crate) proof fn lemma_connected_self(rows: Seq<Seq<u32>>, member: Seq<bool>, key: Seq<u64>, a: u32)
    requires
        a < rows.len(),
        member[a as int],
    ensures
        connected(rows, member, key, a as int, a as int),
{
    reveal(connected);
    let p = seq![a];
    assert(is_path(rows, member, key, p));
}

/// Two nodes that a third connects to are connected to each other.
pub(crate) proof fn lemma_connected_through(rows: Seq<Seq<u32>>, member: Seq<bool>, key: Seq<u64>, f: int, a: int, b: int)
    requires
        well_linked(rows, rows.len() as int),
        connected(rows, member, key, f, a),
        connected(rows, member, key, f, b),
    ensures
        connected(rows, member, key, a, b),
{
    reveal(connected);
    let p = choose|p: Seq<u32>| #[trigger] is_path(rows, member, key, p) && p[0] == f && p.last() == a;
    let q = choose|q: Seq<u32>| #[trigger] is_path(rows, member, key, q) && q[0] == f && q.last() == b;
    lemma_path_reverse(rows, member, key, p);
    lemma_path_join(rows, member, key, p.reverse(), q);
    assert(is_path(rows, member, key, p.reverse() + q.drop_first()));
}

/// Along a walk, a labelling closed under bonded steps keeps the label it started with.
proof fn lemma_closed_along(rows: Seq<Seq<u32>>, member: Seq<bool>, key: Seq<u64>, label: Seq<u32>, path: Seq<u32>)
    requires
        is_path(rows, member, key, path),
        label.len() == rows.len(),
        label[path[0] as int] != NO_COMPONENT,
        forall|x: int, y: int|
            0 <= x < label.len() && #[trigger] label[x] != NO_COMPONENT && #[trigger] bond(rows, member, key, x, y)
                ==> label[y] == label[x],
    ensures
        label[path.last() as int] == label[path[0] as int],
    decreases path.len(),
{
    if path.len() > 1 {
        let front = path.drop_last();
        assert forall|k: int| 0 <= k < front.len() - 1 implies bond(rows, member, key, #[trigger] front[k] as int,
            front[k + 1] as int) by {
            assert(front[k] == path[k] && front[k + 1] == path[k + 1]);
        }
        lemma_closed_along(rows, member, key, label, front);
        let m = path.len() - 2;
        assert(bond(rows, member, key, path[m] as int, path[m + 1] as int));
        assert(label[path[m] as int] != NO_COMPONENT);
    }
}

/// The groups a node choice splits into.
pub struct Components {
    /// Each node's group, or `NO_COMPONENT` for a node not chosen.
    pub label: Vec<u32>,
    /// Each group's lowest node, ascending.
    pub firsts: Vec<u32>,
}

/// Splits the chosen nodes of `graph` into groups: two chosen nodes share a group exactly when a
/// walk of neighbour steps between chosen nodes of equal key joins them. Groups are numbered in
/// the order of their lowest node, which is where each group's search started.
#[verifier::rlimit(60)]
pub fn components(graph: &LandGraph, member: &Vec<bool>, key: &Vec<u64>) -> (c: Components)
    requires
        member@.len() == graph.node_count(),
        key@.len() == graph.node_count(),
    ensures
        c.label@.len() == graph.node_count(),
        forall|i: int| 0 <= i < graph.node_count() ==> (#[trigger] c.label@[i] == NO_COMPONENT <==> !member@[i]),
        forall|i: int| 0 <= i < graph.node_count() && member@[i] ==> #[trigger] c.label@[i] < c.firsts@.len(),
        forall|a: int, b: int| 0 <= a < b < c.firsts@.len() ==> #[trigger] c.firsts@[a] < #[trigger] c.firsts@[b],
        forall|g: int| 0 <= g < c.firsts@.len() ==> #[trigger] c.firsts@[g] < graph.node_count()
            && c.label@[c.firsts@[g] as int] == g,
        forall|i: int| 0 <= i < graph.node_count() && member@[i] ==> c.firsts@[#[trigger] c.label@[i] as int] <= i,
        forall|i: int, j: int|
            0 <= i < graph.node_count() && 0 <= j < graph.node_count() && member@[i] && member@[j] ==> (
            c.label@[i] == c.label@[j] <==> #[trigger] connected(graph.rows(), member@, key@, i, j)),
{
    let n = graph.len();
    let ghost rows = graph.rows();
    let ghost mb = member@;
    let ghost ky = key@;
    let mut label: Vec<u32> = Vec::new();
    let mut i: usize = 0;
    while i < n
        invariant
            i <= n,
            label@.len() == i,
            forall|x: int| 0 <= x < i ==> label@[x] == NO_COMPONENT,
        decreases n - i,
    {
        label.push(NO_COMPONENT);
        i += 1;
    }
    let mut firsts: Vec<u32> = Vec::new();
    let mut stack: Vec<u32> = Vec::new();
    let mut start: usize = 0;
    while start < n
        invariant
            n == rows.len(),
            n <= u32::MAX,
            well_linked(rows, n as int),
            rows == graph.rows(),
            n == graph.node_count(),
            mb == member@,
            ky == key@,
            mb.len() == n,
            ky.len() == n,
            start <= n,
            label@.len() == n,
            stack@.len() == 0,
            firsts@.len() <= start,
            forall|x: int| 0 <= x < n && #[trigger] label@[x] != NO_COMPONENT ==> mb[x] && label@[x] < firsts@.len(),
            forall|x: int| 0 <= x < start && mb[x] ==> #[trigger] label@[x] != NO_COMPONENT,
            forall|a: int, b: int| 0 <= a < b < firsts@.len() ==> #[trigger] firsts@[a] < #[trigger] firsts@[b],
            forall|g: int| 0 <= g < firsts@.len() ==> #[trigger] firsts@[g] < start && label@[firsts@[g] as int] == g,
            forall|x: int| 0 <= x < n && #[trigger] label@[x] != NO_COMPONENT ==> firsts@[label@[x] as int] <= x,
            forall|x: int| 0 <= x < n && #[trigger] label@[x] != NO_COMPONENT ==> connected(rows, mb, ky,
                firsts@[label@[x] as int] as int, x),
            forall|x: int, y: int|
                0 <= x < n && #[trigger] label@[x] != NO_COMPONENT && #[trigger] bond(rows, mb, ky, x, y) ==> label@[y]
                    == label@[x],
        decreases n - start,
    {
        if !member[start] || label[start] != NO_COMPONENT {
            start += 1;
            continue;
        }
        let id = firsts.len() as u32;
        let ghost old_firsts = firsts@;
        let ghost old_label = label@;
        firsts.push(start as u32);
        proof {
            lemma_count_false_set(labelled(label@), start as int);
            assert(labelled(label@).update(start as int, true) =~= labelled(label@.update(start as int, id)));
        }
        label.set(start, id);
        stack.push(start as u32);
        proof {
            lemma_connected_self(rows, mb, ky, start as u32);
            assert forall|x: int, y: int|
                0 <= x < n && #[trigger] label@[x] == id && !stack@.contains(x as u32) && #[trigger] bond(rows, mb, ky, x, y)
                    implies label@[y] == id by {
                if x != start as int {
                    assert(old_label[x] == label@[x]);
                } else {
                    assert(stack@[0] == start as u32);
                }
            }
        }
        while stack.len() > 0
            invariant
                n == rows.len(),
                n <= u32::MAX,
                well_linked(rows, n as int),
                rows == graph.rows(),
                mb == member@,
                ky == key@,
                mb.len() == n,
                ky.len() == n,
                start < n,
                mb[start as int],
                label@.len() == n,
                id == old_firsts.len(),
                id <= start,
                n == graph.node_count(),
                firsts@ == old_firsts.push(start as u32),
                label@[start as int] == id,
                forall|g: int| 0 <= g < old_firsts.len() ==> #[trigger] old_firsts[g] < start,
                forall|x: int| 0 <= x < n && #[trigger] label@[x] != NO_COMPONENT ==> mb[x] && label@[x] <= id,
                forall|x: int| 0 <= x < start && mb[x] ==> #[trigger] label@[x] != NO_COMPONENT,
                forall|x: int| 0 <= x < n && #[trigger] old_label[x] != NO_COMPONENT ==> label@[x] == old_label[x],
                forall|x: int| 0 <= x < n && #[trigger] label@[x] != NO_COMPONENT && label@[x] < id ==> old_label[x] == label@[x],
                forall|g: int| 0 <= g < old_firsts.len() ==> old_label[#[trigger] old_firsts[g] as int] == g,
                forall|x: int| 0 <= x < n && #[trigger] label@[x] != NO_COMPONENT ==> firsts@[label@[x] as int] <= x,
                forall|x: int| 0 <= x < n && #[trigger] label@[x] != NO_COMPONENT ==> connected(rows, mb, ky,
                    firsts@[label@[x] as int] as int, x),
                forall|x: int, y: int|
                    0 <= x < n && #[trigger] old_label[x] != NO_COMPONENT && #[trigger] bond(rows, mb, ky, x, y) ==> old_label[y]
                        == old_label[x],
                forall|m: int| 0 <= m < stack@.len() ==> #[trigger] stack@[m] < n && label@[stack@[m] as int] == id,
                stack@.no_duplicates(),
                forall|x: int, y: int|
                    0 <= x < n && #[trigger] label@[x] == id && !stack@.contains(x as u32) && #[trigger] bond(rows, mb, ky, x, y)
                        ==> label@[y] == id,
            decreases 2 * count_false(labelled(label@)) + stack@.len(),
        {
            let ghost m0 = 2 * count_false(labelled(label@)) + stack@.len();
            let ghost before_pop = stack@;
            let node = stack.pop().unwrap();
            proof {
                assert(stack@ == before_pop.drop_last());
                assert(before_pop.last() == node);
                assert forall|x: int, y: int|
                    0 <= x < n && #[trigger] label@[x] == id && !stack@.contains(x as u32) && x != node
                        && #[trigger] bond(rows, mb, ky, x, y) implies label@[y] == id by {
                    assert(!before_pop.contains(x as u32)) by {
                        if before_pop.contains(x as u32) {
                            let m = choose|m: int| 0 <= m < before_pop.len() && before_pop[m] == x as u32;
                            if m < before_pop.len() - 1 {
                                assert(stack@[m] == x as u32);
                            }
                        }
                    }
                }
                assert(!stack@.contains(node)) by {
                    if stack@.contains(node) {
                        let m = choose|m: int| 0 <= m < stack@.len() && stack@[m] == node;
                        assert(before_pop[m] == before_pop[before_pop.len() - 1]);
                    }
                }
            }
            let nbrs = graph.neighbours(node);
            let mut j: usize = 0;
            while j < nbrs.len()
                invariant
                    n == rows.len(),
                    n <= u32::MAX,
                    well_linked(rows, n as int),
                    nbrs@ == rows[node as int],
                    node < n,
                    mb == member@,
                    ky == key@,
                    mb.len() == n,
                    ky.len() == n,
                    start < n,
                    label@.len() == n,
                    id == old_firsts.len(),
                    id <= start,
                    firsts@ == old_firsts.push(start as u32),
                    label@[start as int] == id,
                    label@[node as int] == id,
                    !stack@.contains(node),
                    forall|g: int| 0 <= g < old_firsts.len() ==> #[trigger] old_firsts[g] < start,
                    forall|x: int| 0 <= x < n && #[trigger] label@[x] != NO_COMPONENT ==> mb[x] && label@[x] <= id,
                    forall|x: int| 0 <= x < start && mb[x] ==> #[trigger] label@[x] != NO_COMPONENT,
                    forall|x: int| 0 <= x < n && #[trigger] old_label[x] != NO_COMPONENT ==> label@[x] == old_label[x],
                    forall|x: int| 0 <= x < n && #[trigger] label@[x] != NO_COMPONENT && label@[x] < id ==> old_label[x] == label@[x],
                    forall|g: int| 0 <= g < old_firsts.len() ==> old_label[#[trigger] old_firsts[g] as int] == g,
                    forall|x: int| 0 <= x < n && #[trigger] label@[x] != NO_COMPONENT ==> firsts@[label@[x] as int] <= x,
                    forall|x: int| 0 <= x < n && #[trigger] label@[x] != NO_COMPONENT ==> connected(rows, mb, ky,
                        firsts@[label@[x] as int] as int, x),
                    forall|x: int, y: int|
                        0 <= x < n && #[trigger] old_label[x] != NO_COMPONENT && #[trigger] bond(rows, mb, ky, x, y) ==> old_label[y]
                            == old_label[x],
                    forall|m: int| 0 <= m < stack@.len() ==> #[trigger] stack@[m] < n && label@[stack@[m] as int] == id,
                    stack@.no_duplicates(),
                    forall|x: int, y: int|
                        0 <= x < n && #[trigger] label@[x] == id && !stack@.contains(x as u32) && x != node
                            && #[trigger] bond(rows, mb, ky, x, y) ==> label@[y] == id,
                    forall|k: int| 0 <= k < j && bond(rows, mb, ky, node as int, #[trigger] nbrs@[k] as int) ==> label@[nbrs@[k] as int] == id,
                    2 * count_false(labelled(label@)) + stack@.len() + 1 <= m0,
                decreases nbrs@.len() - j,
            {
                let y = nbrs[j];
                proof {
                    assert(rows[node as int][j as int] == y);
                    assert(y < n);
                }
                if member[y as usize] && label[y as usize] == NO_COMPONENT && key[y as usize] == key[node as usize] {
                    let ghost before = label@;
                    let ghost before_stack = stack@;
                    proof {
                        assert(rows[node as int].contains(y));
                        assert(bond(rows, mb, ky, node as int, y as int));
                        assert(connected(rows, mb, ky, firsts@[label@[node as int] as int] as int, node as int));
                        lemma_connected_step(rows, mb, ky, start as int, node as int, y);
                        lemma_count_false_set(labelled(label@), y as int);
                        assert(labelled(label@).update(y as int, true) =~= labelled(label@.update(y as int, id)));
                        assert(y as int >= start) by {
                            if (y as int) < start {
                                assert(label@[y as int] != NO_COMPONENT);
                            }
                        }
                        assert(!stack@.contains(y)) by {
                            if stack@.contains(y) {
                                let m = choose|m: int| 0 <= m < stack@.len() && stack@[m] == y;
                            }
                        }
                    }
                    label.set(y as usize, id);
                    stack.push(y);
                    proof {
                        assert(label@ == before.update(y as int, id));
                        assert(stack@ == before_stack.push(y));
                        assert forall|x: int| 0 <= x < n && #[trigger] label@[x] != NO_COMPONENT implies connected(rows, mb, ky,
                            firsts@[label@[x] as int] as int, x) by {
                            if x != y as int {
                                assert(before[x] != NO_COMPONENT);
                            }
                        }
                        assert forall|x: int| 0 <= x < n && #[trigger] old_label[x] != NO_COMPONENT implies label@[x] == old_label[x] by {
                            if x == y as int {
                                assert(before[x] == old_label[x]);
                            }
                        }
                        assert forall|a: int, b: int| 0 <= a < b < stack@.len() implies stack@[a] != stack@[b] by {
                            if b == stack@.len() - 1 {
                                assert(before_stack[a] != y);
                            }
                        }
                        assert forall|x: int, z: int|
                            0 <= x < n && #[trigger] label@[x] == id && !stack@.contains(x as u32) && x != node
                                && #[trigger] bond(rows, mb, ky, x, z) implies label@[z] == id by {
                            assert(x != y as int) by {
                                if x == y as int {
                                    assert(stack@[stack@.len() - 1] == y);
                                }
                            }
                            assert(before[x] == id);
                            assert(!before_stack.contains(x as u32)) by {
                                if before_stack.contains(x as u32) {
                                    let m = choose|m: int| 0 <= m < before_stack.len() && before_stack[m] == x as u32;
                                    assert(stack@[m] == x as u32);
                                }
                            }
                        }
                        assert forall|k: int| 0 <= k < j + 1 && bond(rows, mb, ky, node as int, #[trigger] nbrs@[k] as int) implies
                            label@[nbrs@[k] as int] == id by {
                            if k < j {
                                assert(before[nbrs@[k] as int] == id);
                            }
                        }
                    }
                } else {
                    proof {
                        if bond(rows, mb, ky, node as int, y as int) {
                            assert(label@[y as int] != NO_COMPONENT);
                            if label@[y as int] < id {
                                assert(old_label[y as int] == label@[y as int]);
                                let (a, b) = (node as int, y as int);
                                assert(rows[a].contains(b as u32));
                                assert(rows[b].contains(a as u32));
                                assert(bond(rows, mb, ky, y as int, node as int));
                                assert(old_label[node as int] == old_label[y as int]);
                                assert(label@[node as int] == old_label[node as int]);
                            }
                        }
                    }
                }
                j += 1;
            }
            proof {
                assert forall|x: int, y: int|
                    0 <= x < n && #[trigger] label@[x] == id && !stack@.contains(x as u32) && #[trigger] bond(rows, mb, ky, x, y)
                        implies label@[y] == id by {
                    if x == node as int {
                        assert(rows[node as int].contains(y as u32));
                        let k = choose|k: int| 0 <= k < nbrs@.len() && nbrs@[k] == y as u32;
                        assert(bond(rows, mb, ky, node as int, nbrs@[k] as int));
                    }
                }
            }
        }
        proof {
            assert forall|x: int, y: int|
                0 <= x < n && #[trigger] label@[x] != NO_COMPONENT && #[trigger] bond(rows, mb, ky, x, y) implies label@[y]
                    == label@[x] by {
                if label@[x] < id {
                    assert(old_label[x] == label@[x]);
                    assert(old_label[y] == old_label[x]);
                } else {
                    assert(!stack@.contains(x as u32));
                }
            }
            assert forall|a: int, b: int| 0 <= a < b < firsts@.len() implies #[trigger] firsts@[a] < #[trigger] firsts@[b] by {
                if b == firsts@.len() - 1 {
                    assert(old_firsts[a] < start);
                } else {
                    assert(firsts@[a] == old_firsts[a] && firsts@[b] == old_firsts[b]);
                }
            }
            assert forall|g: int| 0 <= g < firsts@.len() implies #[trigger] firsts@[g] < start + 1 && label@[firsts@[g] as int]
                == g by {
                if g < old_firsts.len() {
                    assert(firsts@[g] == old_firsts[g]);
                    assert(old_label[old_firsts[g] as int] == g);
                }
            }
        }
        start += 1;
    }
    proof {
        assert forall|i: int, j: int|
            0 <= i < n && 0 <= j < n && mb[i] && mb[j] implies (label@[i] == label@[j] <==> #[trigger] connected(rows, mb,
            ky, i, j)) by {
            if label@[i] == label@[j] {
                let f = firsts@[label@[i] as int] as int;
                lemma_connected_through(rows, mb, ky, f, i, j);
            }
            if connected(rows, mb, ky, i, j) {
                reveal(connected);
                let p = choose|p: Seq<u32>| #[trigger] is_path(rows, mb, ky, p) && p[0] == i && p.last() == j;
                assert(label@[i] != NO_COMPONENT);
                lemma_closed_along(rows, mb, ky, label@, p);
            }
        }
    }
    Components { label, firsts }
}

/// The world's below-datum water, once one group of it is named the ocean.
pub struct Water {
    /// Each node is ocean.
    pub ocean: Vec<bool>,
    /// Each node's enclosed basin, or `NO_BASIN` for land and ocean.
    pub enclosed: Vec<u32>,
    /// How many enclosed basins there are.
    pub enclosed_count: u32,
}

/// A node in no enclosed basin.
pub const NO_BASIN: u32 = 0xffff_ffffu32;

/// The basin number of group `g` once group `ocean_group` is taken out of the numbering.
pub open spec fn basin_of(g: u32, ocean_group: u32) -> u32 {
    if g == NO_COMPONENT || g == ocean_group {
        NO_BASIN
    } else if g < ocean_group {
        g
    } else {
        (g - 1) as u32
    }
}

/// Names the water: the group `ocean_group` of the below-datum groups `label` is the ocean, and
/// every other group an enclosed basin, numbered in group order with the ocean left out. With
/// no groups at all there is neither ocean nor basin.
pub fn label_water(label: &Vec<u32>, group_count: u32, ocean_group: u32) -> (water: Water)
    requires
        group_count == 0 || ocean_group < group_count,
        forall|i: int| 0 <= i < label@.len() ==> #[trigger] label@[i] == NO_COMPONENT || label@[i] < group_count,
    ensures
        water.ocean@.len() == label@.len(),
        water.enclosed@.len() == label@.len(),
        forall|i: int| 0 <= i < label@.len() ==> (#[trigger] water.ocean@[i] <==> group_count > 0 && label@[i]
            == ocean_group),
        forall|i: int| 0 <= i < label@.len() ==> #[trigger] water.enclosed@[i] == basin_of(label@[i], ocean_group),
        water.enclosed_count == if group_count == 0 { 0 } else { group_count - 1 },
{
    let mut ocean: Vec<bool> = Vec::new();
    let mut enclosed: Vec<u32> = Vec::new();
    let mut i: usize = 0;
    while i < label.len()
        invariant
            i <= label@.len(),
            ocean@.len() == i,
            enclosed@.len() == i,
            group_count == 0 || ocean_group < group_count,
            forall|x: int| 0 <= x < label@.len() ==> #[trigger] label@[x] == NO_COMPONENT || label@[x] < group_count,
            forall|x: int| 0 <= x < i ==> (#[trigger] ocean@[x] <==> group_count > 0 && label@[x] == ocean_group),
            forall|x: int| 0 <= x < i ==> #[trigger] enclosed@[x] == basin_of(label@[x], ocean_group),
        decreases label@.len() - i,
    {
        let c = label[i];
        let is_ocean = c != NO_COMPONENT && c == ocean_group;
        ocean.push(is_ocean);
        if c == NO_COMPONENT || c == ocean_group {
            enclosed.push(NO_BASIN);
        } else if c < ocean_group {
            enclosed.push(c);
        } else {
            enclosed.push(c - 1);
        }
        i += 1;
    }
    let enclosed_count = if group_count == 0 { 0 } else { group_count - 1 };
    Water { ocean, enclosed, enclosed_count }
}

/// The group with the largest area, ties to the lower group, given each group's area as a
/// key that sorts like the area; `None` when there is no group.
pub fn largest_group(area_keys: &Vec<u64>) -> (largest: Option<u32>)
    requires
        area_keys@.len() <= u32::MAX,
    ensures
        largest is None <==> area_keys@.len() == 0,
        largest matches Some(g) ==> {
            &&& g < area_keys@.len()
            &&& forall|k: int| 0 <= k < area_keys@.len() ==> #[trigger] area_keys@[k] <= area_keys@[g as int]
            &&& forall|k: int| 0 <= k < g ==> #[trigger] area_keys@[k] < area_keys@[g as int]
        },
{
    if area_keys.len() == 0 {
        return None;
    }
    let mut best: usize = 0;
    let mut k: usize = 1;
    while k < area_keys.len()
        invariant
            1 <= k <= area_keys@.len(),
            best < k,
            forall|j: int| 0 <= j < k ==> #[trigger] area_keys@[j] <= area_keys@[best as int],
            forall|j: int| 0 <= j < best ==> #[trigger] area_keys@[j] < area_keys@[best as int],
        decreases area_keys@.len() - k,
    {
        if area_keys[k] > area_keys[best] {
            best = k;
        }
        k += 1;
    }
    Some(best as u32)
}

} // verus!
