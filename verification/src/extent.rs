//! A body's extent: its shore members (members with a neighbour off the body), its collar (the
//! nodes off the body next to a member), and the steps from one to the other that the body's
//! level contour crosses -- those whose collar end stands above the level.
use vstd::prelude::*;
use crate::graph::{LandGraph, ascending, insert_sorted};
use crate::routing::Lake;
use crate::seqs::lemma_distinct_ids_below;

verus! {

/// Node `m`, one of `members`, is on lake `l`, and `x` is a neighbour of it off the lake.
pub open spec fn is_step(rows: Seq<Seq<u32>>, lake_of: Seq<u32>, l: u32, members: Seq<u32>, m: u32, x: u32) -> bool {
    &&& members.contains(m)
    &&& lake_of[m as int] == l
    &&& rows[m as int].contains(x)
    &&& lake_of[x as int] != l
}

/// A lake's extent as nodes: its shore members and its collar, each ascending, and the steps
/// from shore to collar whose collar end stands above the level.
pub struct Shore {
    pub shore: Vec<u32>,
    pub collar: Vec<u32>,
    pub usable: Vec<(u32, u32)>,
}

proof fn lemma_take_one_more(s: Seq<u32>, k: int)
    requires
        0 <= k < s.len(),
    ensures
        forall|y: u32| #[trigger] s.take(k + 1).contains(y) <==> s.take(k).contains(y) || y == s[k],
{
    let t1 = s.take(k + 1);
    let t0 = s.take(k);
    assert forall|y: u32| #[trigger] t1.contains(y) <==> t0.contains(y) || y == s[k] by {
        if t1.contains(y) {
            let i = choose|i: int| 0 <= i < t1.len() && t1[i] == y;
            if i < k {
                assert(t0[i] == y);
            }
        }
        if t0.contains(y) {
            let i = choose|i: int| 0 <= i < t0.len() && t0[i] == y;
            assert(t1[i] == y);
        }
        if y == s[k] {
            assert(t1[k] == y);
        }
    }
}

/// The extent of lake `l`: among `members`, those on the lake with a neighbour off it; the
/// neighbours off the lake of those on it; and each such step whose far end's height key is
/// above `level_key`.
pub fn shore_of(graph: &LandGraph, lake_of: &Vec<u32>, l: u32, members: &Vec<u32>, height_key: &Vec<u64>, level_key: u64)
    -> (out: Shore)
    requires
        lake_of@.len() == graph.node_count(),
        height_key@.len() == graph.node_count(),
        forall|k: int| 0 <= k < members@.len() ==> #[trigger] members@[k] < graph.node_count(),
    ensures
        ascending(out.shore@),
        ascending(out.collar@),
        forall|k: int| 0 <= k < out.shore@.len() ==> #[trigger] out.shore@[k] < graph.node_count(),
        forall|k: int| 0 <= k < out.collar@.len() ==> #[trigger] out.collar@[k] < graph.node_count(),
        forall|m: u32| #[trigger] out.shore@.contains(m) <==> exists|x: u32| is_step(graph.rows(), lake_of@, l, members@, m, x),
        forall|x: u32| #[trigger] out.collar@.contains(x) <==> exists|m: u32| is_step(graph.rows(), lake_of@, l, members@, m, x),
        forall|m: u32, x: u32| #[trigger] out.usable@.contains((m, x)) <==> is_step(graph.rows(), lake_of@, l, members@, m, x)
            && height_key@[x as int] > level_key,
{
    let ghost ms = members@;
    let mut shore: Vec<u32> = Vec::new();
    let mut collar: Vec<u32> = Vec::new();
    let mut usable: Vec<(u32, u32)> = Vec::new();
    let mut k: usize = 0;
    while k < members.len()
        invariant
            k <= ms.len(),
            ms == members@,
            lake_of@.len() == graph.node_count(),
            height_key@.len() == graph.node_count(),
            forall|j: int| 0 <= j < ms.len() ==> #[trigger] ms[j] < graph.node_count(),
            ascending(shore@),
            ascending(collar@),
            forall|q: int| 0 <= q < shore@.len() ==> #[trigger] shore@[q] < graph.node_count(),
            forall|q: int| 0 <= q < collar@.len() ==> #[trigger] collar@[q] < graph.node_count(),
            forall|m: u32| #[trigger] shore@.contains(m) <==> exists|x: u32| is_step(graph.rows(), lake_of@, l, ms.take(k as int), m, x),
            forall|x: u32| #[trigger] collar@.contains(x) <==> exists|m: u32| is_step(graph.rows(), lake_of@, l, ms.take(k as int), m, x),
            forall|m: u32, x: u32| #[trigger] usable@.contains((m, x)) <==> is_step(graph.rows(), lake_of@, l, ms.take(k as int), m, x)
                && height_key@[x as int] > level_key,
        decreases ms.len() - k,
    {
        let m = members[k];
        proof {
            lemma_take_one_more(ms, k as int);
        }
        let ghost before = ms.take(k as int);
        let ghost after = ms.take(k + 1);
        if lake_of[m as usize] == l {
            let row = graph.neighbours(m);
            let ghost collar0 = collar@;
            let ghost usable0 = usable@;
            let mut on_shore = false;
            let mut j: usize = 0;
            while j < row.len()
                invariant
                    j <= row@.len(),
                    row@ == graph.rows()[m as int],
                    lake_of@.len() == graph.node_count(),
                    height_key@.len() == graph.node_count(),
                    forall|q: int| 0 <= q < row@.len() ==> #[trigger] row@[q] < graph.node_count(),
                    ascending(collar@),
                    forall|q: int| 0 <= q < collar@.len() ==> #[trigger] collar@[q] < graph.node_count(),
                    on_shore == exists|q: int| 0 <= q < j && lake_of@[#[trigger] row@[q] as int] != l,
                    forall|x: u32| #[trigger] collar@.contains(x) <==> collar0.contains(x) || exists|q: int| 0 <= q < j
                        && #[trigger] row@[q] == x && lake_of@[x as int] != l,
                    forall|a: u32, x: u32| #[trigger] usable@.contains((a, x)) <==> usable0.contains((a, x)) || (a == m && exists|q: int|
                        0 <= q < j && #[trigger] row@[q] == x && lake_of@[x as int] != l && height_key@[x as int] > level_key),
                decreases row@.len() - j,
            {
                let x = row[j];
                let ghost u0 = usable@;
                let ghost c0 = collar@;
                if lake_of[x as usize] != l {
                    on_shore = true;
                    insert_sorted(&mut collar, x);
                    if height_key[x as usize] > level_key {
                        usable.push((m, x));
                    }
                }
                proof {
                    assert(x < graph.node_count());
                    assert forall|q: int| 0 <= q < collar@.len() implies #[trigger] collar@[q] < graph.node_count() by {
                        assert(collar@.contains(collar@[q]));
                        if !c0.contains(collar@[q]) {
                            assert(collar@[q] == x);
                        } else {
                            let i = choose|i: int| 0 <= i < c0.len() && c0[i] == collar@[q];
                        }
                    }
                    assert forall|x2: u32| #[trigger] collar@.contains(x2) <==> collar0.contains(x2) || exists|q: int| 0 <= q < j + 1
                        && #[trigger] row@[q] == x2 && lake_of@[x2 as int] != l by {
                        if exists|q: int| 0 <= q < j + 1 && #[trigger] row@[q] == x2 && lake_of@[x2 as int] != l {
                            let q = choose|q: int| 0 <= q < j + 1 && #[trigger] row@[q] == x2 && lake_of@[x2 as int] != l;
                            if q < j {
                                assert(c0.contains(x2));
                            }
                        }
                    }
                    assert forall|a: u32, x2: u32| #[trigger] usable@.contains((a, x2)) <==> usable0.contains((a, x2)) || (a == m && exists|q: int|
                        0 <= q < j + 1 && #[trigger] row@[q] == x2 && lake_of@[x2 as int] != l && height_key@[x2 as int] > level_key) by {
                        if usable@.contains((a, x2)) && !u0.contains((a, x2)) {
                            let i = choose|i: int| 0 <= i < usable@.len() && usable@[i] == (a, x2);
                            if i < u0.len() {
                                assert(u0[i] == (a, x2));
                            }
                            assert(row@[j as int] == x2);
                        }
                        if u0.contains((a, x2)) {
                            let i = choose|i: int| 0 <= i < u0.len() && u0[i] == (a, x2);
                            assert(usable@[i] == (a, x2));
                        }
                        if a == m && exists|q: int| 0 <= q < j + 1 && #[trigger] row@[q] == x2 && lake_of@[x2 as int] != l && height_key@[x2 as int] > level_key {
                            let q = choose|q: int| 0 <= q < j + 1 && #[trigger] row@[q] == x2 && lake_of@[x2 as int] != l && height_key@[x2 as int] > level_key;
                            if q < j {
                                assert(u0.contains((a, x2)));
                                let i = choose|i: int| 0 <= i < u0.len() && u0[i] == (a, x2);
                                assert(usable@[i] == (a, x2));
                            } else {
                                assert(usable@[usable@.len() - 1] == (a, x2));
                            }
                        }
                    }
                    if lake_of@[x as int] != l {
                        assert(lake_of@[row@[j as int] as int] != l);
                    }
                    if exists|q: int| 0 <= q < j + 1 && lake_of@[#[trigger] row@[q] as int] != l {
                        let q = choose|q: int| 0 <= q < j + 1 && lake_of@[#[trigger] row@[q] as int] != l;
                        if q < j {
                            assert(exists|q2: int| 0 <= q2 < j && lake_of@[#[trigger] row@[q2] as int] != l);
                        }
                    }
                }
                j += 1;
            }
            let ghost s0 = shore@;
            if on_shore {
                insert_sorted(&mut shore, m);
            }
            proof {
                assert forall|q: int| 0 <= q < shore@.len() implies #[trigger] shore@[q] < graph.node_count() by {
                    assert(shore@.contains(shore@[q]));
                    if !s0.contains(shore@[q]) {
                        assert(shore@[q] == m);
                    } else {
                        let i = choose|i: int| 0 <= i < s0.len() && s0[i] == shore@[q];
                    }
                }
                assert forall|m2: u32| #[trigger] shore@.contains(m2) <==> exists|x: u32| is_step(graph.rows(), lake_of@, l, after, m2, x) by {
                    if m2 == m && on_shore {
                        let q = choose|q: int| 0 <= q < row@.len() && lake_of@[#[trigger] row@[q] as int] != l;
                        assert(row@.contains(row@[q]));
                        assert(is_step(graph.rows(), lake_of@, l, after, m2, row@[q]));
                    }
                    if exists|x: u32| is_step(graph.rows(), lake_of@, l, after, m2, x) {
                        let x = choose|x: u32| is_step(graph.rows(), lake_of@, l, after, m2, x);
                        if m2 == m {
                            let q = choose|q: int| 0 <= q < row@.len() && row@[q] == x;
                            assert(lake_of@[row@[q] as int] != l);
                        } else {
                            assert(is_step(graph.rows(), lake_of@, l, before, m2, x));
                        }
                    }
                    if s0.contains(m2) {
                        let x = choose|x: u32| is_step(graph.rows(), lake_of@, l, before, m2, x);
                        assert(is_step(graph.rows(), lake_of@, l, after, m2, x));
                    }
                }
                assert forall|x: u32| #[trigger] collar@.contains(x) <==> exists|m2: u32| is_step(graph.rows(), lake_of@, l, after, m2, x) by {
                    if collar@.contains(x) && !collar0.contains(x) {
                        let q = choose|q: int| 0 <= q < row@.len() && #[trigger] row@[q] == x && lake_of@[x as int] != l;
                        assert(row@.contains(x));
                        assert(is_step(graph.rows(), lake_of@, l, after, m, x));
                    }
                    if collar0.contains(x) {
                        let m2 = choose|m2: u32| is_step(graph.rows(), lake_of@, l, before, m2, x);
                        assert(is_step(graph.rows(), lake_of@, l, after, m2, x));
                    }
                    if exists|m2: u32| is_step(graph.rows(), lake_of@, l, after, m2, x) {
                        let m2 = choose|m2: u32| is_step(graph.rows(), lake_of@, l, after, m2, x);
                        if m2 == m {
                            let q = choose|q: int| 0 <= q < row@.len() && row@[q] == x;
                            assert(row@[q] == x);
                        } else {
                            assert(is_step(graph.rows(), lake_of@, l, before, m2, x));
                        }
                    }
                }
                assert forall|a: u32, x: u32| #[trigger] usable@.contains((a, x)) <==> is_step(graph.rows(), lake_of@, l, after, a, x)
                    && height_key@[x as int] > level_key by {
                    if usable@.contains((a, x)) && !usable0.contains((a, x)) {
                        let q = choose|q: int| 0 <= q < row@.len() && #[trigger] row@[q] == x && lake_of@[x as int] != l && height_key@[x as int] > level_key;
                        assert(row@.contains(x));
                    }
                    if usable0.contains((a, x)) {
                        assert(is_step(graph.rows(), lake_of@, l, before, a, x));
                    }
                    if is_step(graph.rows(), lake_of@, l, after, a, x) && height_key@[x as int] > level_key {
                        if a == m {
                            let q = choose|q: int| 0 <= q < row@.len() && row@[q] == x;
                            assert(row@[q] == x);
                        } else {
                            assert(is_step(graph.rows(), lake_of@, l, before, a, x));
                        }
                    }
                }
            }
        } else {
            proof {
                assert forall|m2: u32, x: u32| is_step(graph.rows(), lake_of@, l, after, m2, x) <==> is_step(graph.rows(), lake_of@, l, before, m2, x) by {
                }
            }
        }
        k += 1;
    }
    proof {
        assert(ms.take(ms.len() as int) =~= ms);
    }
    Shore { shore, collar, usable }
}

/// The points a list of nodes stands at.
pub open spec fn points_of(nodes: Seq<u32>, lat: Seq<u64>, lon: Seq<u64>) -> Seq<(u64, u64)> {
    Seq::new(nodes.len(), |i: int| (lat[nodes[i] as int], lon[nodes[i] as int]))
}

/// `outline` and `count` are lake `l`'s extent: its shore members, ascending, then its collar,
/// ascending, as points; `count` is how many are shore members.
pub open spec fn is_extent(
    outline: Seq<(u64, u64)>,
    count: u32,
    rows: Seq<Seq<u32>>,
    lake_of: Seq<u32>,
    l: u32,
    members: Seq<u32>,
    lat: Seq<u64>,
    lon: Seq<u64>,
) -> bool {
    exists|s: Seq<u32>, c: Seq<u32>| {
        &&& ascending(s)
        &&& ascending(c)
        &&& forall|m: u32| #[trigger] s.contains(m) <==> exists|x: u32| is_step(rows, lake_of, l, members, m, x)
        &&& forall|x: u32| #[trigger] c.contains(x) <==> exists|m: u32| is_step(rows, lake_of, l, members, m, x)
        &&& count == s.len()
        &&& outline == points_of(s + c, lat, lon)
    }
}

fn append_points(out: &mut Vec<(u64, u64)>, nodes: &Vec<u32>, lat: &Vec<u64>, lon: &Vec<u64>)
    requires
        forall|k: int| 0 <= k < nodes@.len() ==> #[trigger] nodes@[k] < lat@.len(),
        lat@.len() == lon@.len(),
    ensures
        final(out)@ == old(out)@ + points_of(nodes@, lat@, lon@),
{
    let ghost start = out@;
    let mut k: usize = 0;
    while k < nodes.len()
        invariant
            k <= nodes@.len(),
            forall|j: int| 0 <= j < nodes@.len() ==> #[trigger] nodes@[j] < lat@.len(),
            lat@.len() == lon@.len(),
            out@ == start + points_of(nodes@.take(k as int), lat@, lon@),
        decreases nodes@.len() - k,
    {
        let x = nodes[k] as usize;
        out.push((lat[x], lon[x]));
        proof {
            assert(points_of(nodes@.take(k + 1), lat@, lon@) =~= points_of(nodes@.take(k as int), lat@, lon@).push((lat@[x as int], lon@[x as int])));
            assert(out@ =~= start + points_of(nodes@.take(k + 1), lat@, lon@));
        }
        k += 1;
    }
    proof {
        assert(nodes@.take(nodes@.len() as int) =~= nodes@);
    }
}

/// Each kept lake's extent as points with its shore count; nothing for a lake not kept.
pub fn lake_extents(graph: &LandGraph, lake_of: &Vec<u32>, lakes: &Vec<Lake>, height_key: &Vec<u64>, lat: &Vec<u64>, lon: &Vec<u64>)
    -> (out: Vec<(Vec<(u64, u64)>, u32)>)
    requires
        graph.node_count() <= u32::MAX,
        lakes@.len() <= u32::MAX,
        lake_of@.len() == graph.node_count(),
        height_key@.len() == graph.node_count(),
        lat@.len() == graph.node_count(),
        lon@.len() == graph.node_count(),
        forall|l: int, k: int| 0 <= l < lakes@.len() && 0 <= k < lakes@[l].members@.len() ==> #[trigger] lakes@[l].members@[k]
            < graph.node_count(),
    ensures
        out@.len() == lakes@.len(),
        forall|l: int| 0 <= l < lakes@.len() ==> if lakes@[l].kept {
            is_extent((#[trigger] out@[l]).0@, out@[l].1, graph.rows(), lake_of@, l as u32, lakes@[l].members@, lat@, lon@)
        } else {
            out@[l].0@.len() == 0 && out@[l].1 == 0
        },
{
    let n = graph.len();
    let mut out: Vec<(Vec<(u64, u64)>, u32)> = Vec::new();
    let mut l: usize = 0;
    while l < lakes.len()
        invariant
            l <= lakes@.len(),
            n == graph.node_count(),
            n <= u32::MAX,
            lakes@.len() <= u32::MAX,
            lake_of@.len() == n,
            height_key@.len() == n,
            lat@.len() == n,
            lon@.len() == n,
            forall|a: int, k: int| 0 <= a < lakes@.len() && 0 <= k < lakes@[a].members@.len() ==> #[trigger] lakes@[a].members@[k] < n,
            out@.len() == l,
            forall|a: int| 0 <= a < l ==> if lakes@[a].kept {
                is_extent((#[trigger] out@[a]).0@, out@[a].1, graph.rows(), lake_of@, a as u32, lakes@[a].members@, lat@, lon@)
            } else {
                out@[a].0@.len() == 0 && out@[a].1 == 0
            },
        decreases lakes@.len() - l,
    {
        if lakes[l].kept {
            let ghost ms = lakes@[l as int].members@;
            proof {
                assert forall|k: int| 0 <= k < ms.len() implies #[trigger] ms[k] < graph.node_count() by {
                    assert(lakes@[l as int].members@[k] < n);
                }
            }
            let sh = shore_of(graph, lake_of, l as u32, &lakes[l].members, height_key, lakes[l].level_key);
            proof {
                assert(sh.shore@.no_duplicates()) by {
                    assert forall|i: int, j: int| 0 <= i < sh.shore@.len() && 0 <= j < sh.shore@.len() && i != j implies sh.shore@[i] != sh.shore@[j] by {
                        if i < j {
                            assert(sh.shore@[i] < sh.shore@[j]);
                        } else {
                            assert(sh.shore@[j] < sh.shore@[i]);
                        }
                    }
                }
                lemma_distinct_ids_below(sh.shore@, n as int);
            }
            let count = sh.shore.len() as u32;
            let mut pts: Vec<(u64, u64)> = Vec::new();
            append_points(&mut pts, &sh.shore, lat, lon);
            append_points(&mut pts, &sh.collar, lat, lon);
            proof {
                assert(points_of(sh.shore@ + sh.collar@, lat@, lon@) =~= points_of(sh.shore@, lat@, lon@) + points_of(sh.collar@, lat@, lon@));
                assert(pts@ =~= points_of(sh.shore@ + sh.collar@, lat@, lon@));
                assert(is_extent(pts@, count, graph.rows(), lake_of@, l as u32, ms, lat@, lon@));
            }
            out.push((pts, count));
        } else {
            out.push((Vec::new(), 0));
        }
        l += 1;
    }
    out
}

} // verus!
