//! Crossings between the refined lines of two reaches: which pairs of reaches may meet without
//! crossing, and the one order the crossings found are listed in.
use vstd::prelude::*;
use crate::reaches::{Downstream, feeds};

verus! {

/// Two refined segments of different reaches that intersect. `index_a` and `index_b` are the
/// first point of each crossing segment in its own reach's list, and `reach_a < reach_b`.
#[derive(Debug, Clone, Copy, PartialEq, Eq, Structural)]
pub struct Crossing {
    pub reach_a: u32,
    pub index_a: usize,
    pub reach_b: u32,
    pub index_b: usize,
}

/// Reaches `ra` and `rb` meet at a confluence: one drains straight into the other, or both
/// drain into the same reach. They share a vertex by design there, and that is no crossing.
pub open spec fn confluence_spec(links: Seq<Downstream>, ra: int, rb: int) -> bool {
    ||| feeds(links[ra], rb)
    ||| feeds(links[rb], ra)
    ||| (links[ra] matches Downstream::Reach(x) && links[rb] matches Downstream::Reach(y) && x == y)
}

pub fn confluence(links: &Vec<Downstream>, ra: u32, rb: u32) -> (meet: bool)
    requires
        ra < links@.len(),
        rb < links@.len(),
    ensures
        meet == confluence_spec(links@, ra as int, rb as int),
{
    let into_b = match links[ra as usize] {
        Downstream::Reach(next) => next == rb,
        _ => false,
    };
    let into_a = match links[rb as usize] {
        Downstream::Reach(next) => next == ra,
        _ => false,
    };
    let shared = match (links[ra as usize], links[rb as usize]) {
        (Downstream::Reach(x), Downstream::Reach(y)) => x == y,
        _ => false,
    };
    into_b || into_a || shared
}

/// `a` comes before `b`: by first reach, then its point, then second reach, then its point.
pub open spec fn crossing_before(a: Crossing, b: Crossing) -> bool {
    ||| a.reach_a < b.reach_a
    ||| (a.reach_a == b.reach_a && a.index_a < b.index_a)
    ||| (a.reach_a == b.reach_a && a.index_a == b.index_a && a.reach_b < b.reach_b)
    ||| (a.reach_a == b.reach_a && a.index_a == b.index_a && a.reach_b == b.reach_b && a.index_b < b.index_b)
}

/// Strictly in crossing order, so each crossing once.
pub open spec fn in_crossing_order(s: Seq<Crossing>) -> bool {
    forall|i: int, j: int| 0 <= i < j < s.len() ==> crossing_before(#[trigger] s[i], #[trigger] s[j])
}

fn before(a: &Crossing, b: &Crossing) -> (r: bool)
    ensures
        r == crossing_before(*a, *b),
{
    if a.reach_a != b.reach_a {
        a.reach_a < b.reach_a
    } else if a.index_a != b.index_a {
        a.index_a < b.index_a
    } else if a.reach_b != b.reach_b {
        a.reach_b < b.reach_b
    } else {
        a.index_b < b.index_b
    }
}

proof fn lemma_before_transitive(a: Crossing, b: Crossing, c: Crossing)
    requires
        crossing_before(a, b),
        crossing_before(b, c),
    ensures
        crossing_before(a, c),
{
}

fn insert_crossing(list: &mut Vec<Crossing>, x: Crossing)
    requires
        in_crossing_order(old(list)@),
    ensures
        in_crossing_order(final(list)@),
        forall|y: Crossing| #[trigger] final(list)@.contains(y) <==> old(list)@.contains(y) || y == x,
{
    let mut i: usize = 0;
    while i < list.len() && before(&list[i], &x)
        invariant
            i <= list@.len(),
            forall|m: int| 0 <= m < i ==> crossing_before(#[trigger] list@[m], x),
        decreases list@.len() - i,
    {
        i += 1;
    }
    if i < list.len() && list[i] == x {
        return;
    }
    let ghost before_list = list@;
    list.insert(i, x);
    proof {
        assert(list@ == before_list.insert(i as int, x));
        assert forall|p: int, q: int| 0 <= p < q < list@.len() implies crossing_before(#[trigger] list@[p], #[trigger] list@[q]) by {
            if q < i {
                assert(crossing_before(before_list[p], before_list[q]));
            } else if p < i && q == i {
            } else if p < i {
                assert(crossing_before(before_list[p], before_list[q - 1]));
            } else if p == i {
                assert(!crossing_before(before_list[i as int], x));
                assert(before_list[i as int] != x);
                if q - 1 > i {
                    assert(crossing_before(before_list[i as int], before_list[q - 1]));
                    lemma_before_transitive(x, before_list[i as int], before_list[q - 1]);
                }
            } else {
                assert(crossing_before(before_list[p - 1], before_list[q - 1]));
            }
        }
        assert forall|y: Crossing| #[trigger] list@.contains(y) <==> before_list.contains(y) || y == x by {
            if list@.contains(y) {
                let m = choose|m: int| 0 <= m < list@.len() && list@[m] == y;
                if m < i {
                    assert(before_list[m] == y);
                } else if m > i {
                    assert(before_list[m - 1] == y);
                }
            }
            if before_list.contains(y) {
                let m = choose|m: int| 0 <= m < before_list.len() && before_list[m] == y;
                if m < i {
                    assert(list@[m] == y);
                } else {
                    assert(list@[m + 1] == y);
                }
            }
            if y == x {
                assert(list@[i as int] == x);
            }
        }
    }
}

/// The crossings found, in crossing order and each once, whatever order they were found in.
pub fn order_crossings(found: &Vec<Crossing>) -> (ordered: Vec<Crossing>)
    ensures
        in_crossing_order(ordered@),
        forall|c: Crossing| #[trigger] ordered@.contains(c) <==> found@.contains(c),
{
    let mut ordered: Vec<Crossing> = Vec::new();
    let mut k: usize = 0;
    while k < found.len()
        invariant
            k <= found@.len(),
            in_crossing_order(ordered@),
            forall|c: Crossing| #[trigger] ordered@.contains(c) <==> found@.take(k as int).contains(c),
        decreases found@.len() - k,
    {
        insert_crossing(&mut ordered, found[k]);
        proof {
            let t0 = found@.take(k as int);
            let t1 = found@.take(k + 1);
            assert forall|c: Crossing| #[trigger] ordered@.contains(c) <==> t1.contains(c) by {
                if t0.contains(c) {
                    let m = choose|m: int| 0 <= m < t0.len() && t0[m] == c;
                    assert(t1[m] == c);
                }
                if t1.contains(c) {
                    let m = choose|m: int| 0 <= m < t1.len() && t1[m] == c;
                    if m < k {
                        assert(t0[m] == c);
                    }
                }
                if c == found@[k as int] {
                    assert(t1[k as int] == c);
                }
            }
        }
        k += 1;
    }
    proof {
        assert(found@.take(found@.len() as int) == found@);
    }
    ordered
}

} // verus!
