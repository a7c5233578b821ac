//! A min-priority queue keyed by height, with one fixed order on every build.
//!
//! An entry is `(level key, tie key, node)`, compared in that order: lowest level first, equal
//! levels in ascending tie order, then ascending node order. Keys are the integers of
//! [`crate::keys`], so nothing here compares a float.
use vstd::prelude::*;
use vstd::multiset::Multiset;

verus! {

broadcast use vstd::seq_lib::group_to_multiset_ensures, vstd::multiset::group_multiset_properties;

/// `(level key, tie key, node)`.
pub type Entry = (u64, u64, u32);

/// The order the queue pops in: by level key, then tie key, then node.
pub open spec fn entry_le(a: Entry, b: Entry) -> bool {
    a.0 < b.0 || (a.0 == b.0 && (a.1 < b.1 || (a.1 == b.1 && a.2 <= b.2)))
}

/// `entry_le` as an executable test.
pub fn entry_before(a: Entry, b: Entry) -> (r: bool)
    ensures
        r == entry_le(a, b),
{
    a.0 < b.0 || (a.0 == b.0 && (a.1 < b.1 || (a.1 == b.1 && a.2 <= b.2)))
}

/// `m` holds no entry that comes before `e`.
pub open spec fn is_least(e: Entry, m: Multiset<Entry>) -> bool {
    m.contains(e) && forall|x: Entry| m.contains(x) ==> entry_le(e, x)
}

pub open spec fn parent_of(i: int) -> int {
    (i - 1) / 2
}

/// The heap order on a sequence laid out as a binary tree.
pub open spec fn heap_ordered(s: Seq<Entry>) -> bool {
    forall|i: int| 0 < i < s.len() ==> entry_le(#[trigger] s[parent_of(i)], s[i])
}

/// Lowest level first; equal levels pop in ascending tie order, then ascending node order.
pub struct FloodQueue {
    heap: Vec<Entry>,
}

impl FloodQueue {
    #[verifier::type_invariant]
    spec fn inv(self) -> bool {
        heap_ordered(self.heap@)
    }

    /// What the queue holds.
    pub closed spec fn view(&self) -> Multiset<Entry> {
        self.heap@.to_multiset()
    }

    /// An empty queue.
    pub fn new() -> (queue: Self)
        ensures
            queue.view() =~= Multiset::<Entry>::empty(),
    {
        FloodQueue { heap: Vec::new() }
    }

    /// How many entries the queue holds.
    pub fn len(&self) -> (n: usize)
        ensures
            n == self.view().len(),
    {
        self.heap.len()
    }

    /// Whether the queue holds nothing.
    pub fn is_empty(&self) -> (empty: bool)
        ensures
            empty <==> self.view().len() == 0,
    {
        self.heap.len() == 0
    }

    /// Push with an explicit tie-break key, compared after the level and before the node.
    pub fn push_tied(&mut self, level_key: u64, tie_key: u64, node: u32)
        ensures
            final(self).view() =~= old(self).view().insert((level_key, tie_key, node)),
            final(self).view().len() == old(self).view().len() + 1,
    {
        let mut heap = Vec::new();
        proof {
            use_type_invariant(&*self);
        }
        std::mem::swap(&mut heap, &mut self.heap);
        let ghost before = heap@;
        heap.push((level_key, tie_key, node));
        assert(heap@ == before.push((level_key, tie_key, node)));
        sift_up(&mut heap);
        self.heap = heap;
    }

    /// Push with the level as its own tie-break key.
    pub fn push(&mut self, level_key: u64, node: u32)
        ensures
            final(self).view() =~= old(self).view().insert((level_key, level_key, node)),
            final(self).view().len() == old(self).view().len() + 1,
    {
        self.push_tied(level_key, level_key, node);
    }

    /// Takes out the entry that comes first, and gives its level and node.
    pub fn pop(&mut self) -> (popped: Option<(u64, u32)>)
        ensures
            popped is None ==> old(self).view().len() == 0 && final(self).view() =~= old(self).view(),
            popped is Some ==> old(self).view().len() > 0 && final(self).view().len() == old(self).view().len() - 1,
            popped is Some ==> exists|tie: u64|
                {
                    &&& #[trigger] is_least((popped.unwrap().0, tie, popped.unwrap().1), old(self).view())
                    &&& final(self).view() =~= old(self).view().remove((popped.unwrap().0, tie, popped.unwrap().1))
                },
    {
        let taken = self.pop_entry();
        match taken {
            None => None,
            Some(e) => {
                let r = Some((e.0, e.2));
                assert(exists|tie: u64|
                    {
                        &&& #[trigger] is_least((r.unwrap().0, tie, r.unwrap().1), old(self).view())
                        &&& self.view() =~= old(self).view().remove((r.unwrap().0, tie, r.unwrap().1))
                    }) by {
                    assert(e == (e.0, e.1, e.2));
                    assert(is_least((r.unwrap().0, e.1, r.unwrap().1), old(self).view()));
                }
                r
            },
        }
    }

    /// Takes out the entry that comes first, whole.
    pub fn pop_entry(&mut self) -> (popped: Option<Entry>)
        ensures
            match popped {
                None => old(self).view().len() == 0 && final(self).view() =~= old(self).view(),
                Some(e) => is_least(e, old(self).view()) && final(self).view() =~= old(
                    self,
                ).view().remove(e) && final(self).view().len() == old(self).view().len() - 1,
            },
    {
        let mut heap = Vec::new();
        proof {
            use_type_invariant(&*self);
        }
        std::mem::swap(&mut heap, &mut self.heap);
        let ghost s = heap@;
        if heap.len() == 0 {
            self.heap = heap;
            return None;
        }
        proof {
            lemma_root_is_least(s);
        }
        let last = heap.pop().unwrap();
        let ghost rest = heap@;
        assert(s == rest.push(last));
        if heap.len() == 0 {
            assert(rest.push(last) =~= seq![last]);
            assert(s.to_multiset().remove(last) =~= rest.to_multiset());
            self.heap = heap;
            return Some(last);
        }
        let top = heap[0];
        assert(top == s[0]);
        heap.set(0, last);
        proof {
            vstd::seq_lib::to_multiset_update(rest, 0, last);
            assert(heap@.to_multiset() =~= s.to_multiset().remove(top));
            assert forall|i: int| 0 < i < heap@.len() && parent_of(i) != 0 implies entry_le(
                #[trigger] heap@[parent_of(i)],
                heap@[i],
            ) by {
                assert(s[parent_of(i)] == heap@[parent_of(i)]);
            }
        }
        sift_down(&mut heap);
        self.heap = heap;
        Some(top)
    }
}

/// The first entry of a heap-ordered sequence comes before every entry in it.
pub proof fn lemma_root_is_least(s: Seq<Entry>)
    requires
        heap_ordered(s),
        s.len() > 0,
    ensures
        is_least(s[0], s.to_multiset()),
{
    assert forall|i: int| 0 <= i < s.len() implies entry_le(s[0], s[i]) by {
        lemma_root_before(s, i);
    }
    assert forall|x: Entry| s.to_multiset().contains(x) implies entry_le(s[0], x) by {
        assert(s.contains(x));
        let i = choose|i: int| 0 <= i < s.len() && s[i] == x;
        lemma_root_before(s, i);
    }
}

proof fn lemma_root_before(s: Seq<Entry>, i: int)
    requires
        heap_ordered(s),
        0 <= i < s.len(),
    ensures
        entry_le(s[0], s[i]),
    decreases i,
{
    if i > 0 {
        lemma_root_before(s, parent_of(i));
        assert(entry_le(s[parent_of(i)], s[i]));
    }
}

/// Restores the heap order after the last entry was appended.
fn sift_up(heap: &mut Vec<Entry>)
    requires
        old(heap)@.len() > 0,
        forall|i: int|
            0 < i < old(heap)@.len() - 1 ==> entry_le(#[trigger] old(heap)@[parent_of(i)], old(heap)@[i]),
    ensures
        heap_ordered(final(heap)@),
        final(heap)@.to_multiset() =~= old(heap)@.to_multiset(),
{
    let mut k = heap.len() - 1;
    let ghost len = heap@.len();
    while k > 0
        invariant
            heap@.len() == len,
            0 <= k < len,
            heap@.to_multiset() =~= old(heap)@.to_multiset(),
            forall|i: int| 0 < i < len && i != k ==> entry_le(#[trigger] heap@[parent_of(i)], heap@[i]),
            k > 0 ==> forall|c: int|
                0 < c < len && parent_of(c) == k ==> entry_le(heap@[parent_of(k as int)], #[trigger] heap@[c]),
        decreases k,
    {
        let p = (k - 1) / 2;
        let up = heap[p];
        let here = heap[k];
        if entry_before(up, here) {
            return;
        }
        let ghost before = heap@;
        heap.set(k, up);
        heap.set(p, here);
        proof {
            vstd::seq_lib::to_multiset_update(before, k as int, up);
            vstd::seq_lib::to_multiset_update(before.update(k as int, up), p as int, here);
            assert(heap@.to_multiset() =~= before.to_multiset());
            assert forall|i: int| 0 < i < len && i != p implies entry_le(#[trigger] heap@[parent_of(i)], heap@[i]) by {
                if i == k {
                } else if parent_of(i) == k {
                    assert(entry_le(before[parent_of(k as int)], before[i]));
                } else if parent_of(i) == p {
                    assert(entry_le(before[p as int], before[i]));
                } else {
                    assert(heap@[i] == before[i]);
                    assert(heap@[parent_of(i)] == before[parent_of(i)]);
                }
            }
            if p > 0 {
                assert forall|c: int| 0 < c < len && parent_of(c) == p implies entry_le(
                    heap@[parent_of(p as int)],
                    #[trigger] heap@[c],
                ) by {
                    assert(entry_le(before[parent_of(p as int)], before[p as int]));
                    if c != k {
                        assert(entry_le(before[p as int], before[c]));
                    }
                }
            }
        }
        k = p;
    }
}

/// Restores the heap order after the first entry was replaced.
fn sift_down(heap: &mut Vec<Entry>)
    requires
        forall|i: int|
            0 < i < old(heap)@.len() && parent_of(i) != 0 ==> entry_le(
                #[trigger] old(heap)@[parent_of(i)],
                old(heap)@[i],
            ),
    ensures
        heap_ordered(final(heap)@),
        final(heap)@.to_multiset() =~= old(heap)@.to_multiset(),
{
    let len = heap.len();
    let mut k: usize = 0;
    while k < len / 2
        invariant
            heap@.len() == len,
            0 <= k < len || len == 0,
            heap@.to_multiset() =~= old(heap)@.to_multiset(),
            forall|i: int|
                0 < i < len && parent_of(i) != k ==> entry_le(#[trigger] heap@[parent_of(i)], heap@[i]),
            k > 0 ==> forall|c: int|
                0 < c < len && parent_of(c) == k ==> entry_le(heap@[parent_of(k as int)], #[trigger] heap@[c]),
        decreases len - k,
    {
        let left = 2 * k + 1;
        let right = left + 1;
        let mut m = left;
        if right < len && !entry_before(heap[left], heap[right]) {
            m = right;
        }
        let here = heap[k];
        let child = heap[m];
        assert(parent_of(left as int) == k && parent_of(right as int) == k);
        if entry_before(here, child) {
            proof {
                assert forall|i: int| 0 < i < len implies entry_le(#[trigger] heap@[parent_of(i)], heap@[i]) by {
                    if parent_of(i) == k {
                        assert(i == left || i == right);
                    }
                }
            }
            return;
        }
        let ghost before = heap@;
        heap.set(m, here);
        heap.set(k, child);
        proof {
            vstd::seq_lib::to_multiset_update(before, m as int, here);
            vstd::seq_lib::to_multiset_update(before.update(m as int, here), k as int, child);
            assert(heap@.to_multiset() =~= before.to_multiset());
            assert forall|i: int| 0 < i < len && parent_of(i) != m implies entry_le(
                #[trigger] heap@[parent_of(i)],
                heap@[i],
            ) by {
                if i == k {
                    assert(k > 0);
                    assert(entry_le(before[parent_of(k as int)], before[m as int]));
                } else if i == m {
                } else if parent_of(i) == k {
                    assert(i == left || i == right);
                } else {
                    assert(heap@[i] == before[i]);
                    assert(heap@[parent_of(i)] == before[parent_of(i)]);
                }
            }
            assert forall|c: int| 0 < c < len && parent_of(c) == m implies entry_le(
                heap@[parent_of(m as int)],
                #[trigger] heap@[c],
            ) by {
                assert(entry_le(before[m as int], before[c]));
            }
        }
        k = m;
    }
    proof {
        assert forall|i: int| 0 < i < len implies entry_le(#[trigger] heap@[parent_of(i)], heap@[i]) by {
            if parent_of(i) == k {
                assert(2 * k + 1 <= i);
            }
        }
    }
}

/// One call on a flood queue: a push of an entry, or a pop that found something.
pub enum QueueStep {
    Push(Entry),
    Pop,
}

/// How many of `steps` are pushes.
pub open spec fn push_count(steps: Seq<QueueStep>) -> nat
    decreases steps.len(),
{
    if steps.len() == 0 {
        0
    } else {
        push_count(steps.drop_last()) + if steps.last() is Push { 1nat } else { 0nat }
    }
}

/// How many of `steps` are pops.
pub open spec fn pop_count(steps: Seq<QueueStep>) -> nat
    decreases steps.len(),
{
    if steps.len() == 0 {
        0
    } else {
        pop_count(steps.drop_last()) + if steps.last() is Pop { 1nat } else { 0nat }
    }
}

/// One call takes a queue holding `mid` to one holding `after`.
pub open spec fn steps_to(mid: Multiset<Entry>, step: QueueStep, after: Multiset<Entry>) -> bool {
    match step {
        QueueStep::Push(e) => after == mid.insert(e),
        QueueStep::Pop => exists|e: Entry| #[trigger] is_least(e, mid) && after == mid.remove(e),
    }
}

/// A queue goes through `states` as `steps` run: it starts at the first, each call takes it to
/// the next, and it ends at the last.
pub open spec fn runs_through(steps: Seq<QueueStep>, states: Seq<Multiset<Entry>>) -> bool {
    &&& states.len() == steps.len() + 1
    &&& forall|k: int| #![trigger steps[k]] 0 <= k < steps.len() ==> steps_to(states[k], steps[k], states[k + 1])
}

proof fn lemma_length_upto(steps: Seq<QueueStep>, states: Seq<Multiset<Entry>>, k: int)
    requires
        runs_through(steps, states),
        0 <= k <= steps.len(),
    ensures
        states[k].len() == states[0].len() + push_count(steps.take(k)) - pop_count(steps.take(k)),
    decreases k,
{
    if k > 0 {
        lemma_length_upto(steps, states, k - 1);
        assert(steps.take(k).drop_last() =~= steps.take(k - 1));
        assert(steps.take(k).last() == steps[k - 1]);
        assert(steps_to(states[k - 1], steps[k - 1], states[k]));
        match steps[k - 1] {
            QueueStep::Push(e) => {},
            QueueStep::Pop => {
                let e = choose|e: Entry| #[trigger] is_least(e, states[k - 1]) && states[k] == states[k - 1].remove(e);
            },
        }
    } else {
        assert(steps.take(0).len() == 0);
    }
}

/// A queue's length after a run of pushes and pops: what it held, plus the pushes, less the
/// pops.
pub proof fn lemma_queue_length(steps: Seq<QueueStep>, states: Seq<Multiset<Entry>>)
    requires
        runs_through(steps, states),
    ensures
        states.last().len() == states[0].len() + push_count(steps) - pop_count(steps),
{
    lemma_length_upto(steps, states, steps.len() as int);
    assert(steps.take(steps.len() as int) =~= steps);
}

} // verus!
