//! Counting facts about sequences.
use vstd::prelude::*;

verus! {

/// A list of distinct indices below `n` has at most `n` entries.
pub proof fn lemma_distinct_below(s: Seq<usize>, n: int)
    requires
        s.no_duplicates(),
        forall|m: int| 0 <= m < s.len() ==> #[trigger] s[m] < n,
        0 <= n,
    ensures
        s.len() <= n,
{
    let t = s.map_values(|x: usize| x as int);
    s.lemma_no_duplicates_injective(|x: usize| x as int);
    t.unique_seq_to_set();
    vstd::set_lib::lemma_int_range(0, n);
    assert(t.to_set().subset_of(vstd::set_lib::set_int_range(0, n))) by {
        assert forall|x: int| t.to_set().contains(x) implies vstd::set_lib::set_int_range(
            0,
            n,
        ).contains(x) by {
            assert(t.contains(x));
            let m = choose|m: int| 0 <= m < t.len() && t[m] == x;
            assert(s[m] < n);
        }
    }
    vstd::set_lib::lemma_len_subset(t.to_set(), vstd::set_lib::set_int_range(0, n));
}

/// A list of distinct node ids below `n` has at most `n` entries.
pub proof fn lemma_distinct_ids_below(s: Seq<u32>, n: int)
    requires
        s.no_duplicates(),
        forall|m: int| 0 <= m < s.len() ==> #[trigger] s[m] < n,
        0 <= n,
    ensures
        s.len() <= n,
{
    let t = s.map_values(|x: u32| x as int);
    s.lemma_no_duplicates_injective(|x: u32| x as int);
    t.unique_seq_to_set();
    vstd::set_lib::lemma_int_range(0, n);
    assert(t.to_set().subset_of(vstd::set_lib::set_int_range(0, n))) by {
        assert forall|x: int| t.to_set().contains(x) implies vstd::set_lib::set_int_range(
            0,
            n,
        ).contains(x) by {
            assert(t.contains(x));
            let m = choose|m: int| 0 <= m < t.len() && t[m] == x;
            assert(s[m] < n);
        }
    }
    vstd::set_lib::lemma_len_subset(t.to_set(), vstd::set_lib::set_int_range(0, n));
}

/// How many entries of `s` are false.
pub open spec fn count_false(s: Seq<bool>) -> nat
    decreases s.len(),
{
    if s.len() == 0 {
        0
    } else {
        count_false(s.drop_last()) + if s.last() {
            0nat
        } else {
            1nat
        }
    }
}

pub proof fn lemma_count_false_set(s: Seq<bool>, i: int)
    requires
        0 <= i < s.len(),
        !s[i],
    ensures
        count_false(s.update(i, true)) + 1 == count_false(s),
    decreases s.len(),
{
    let t = s.update(i, true);
    if i < s.len() - 1 {
        assert(t.drop_last() == s.drop_last().update(i, true));
        lemma_count_false_set(s.drop_last(), i);
    } else {
        assert(t.drop_last() == s.drop_last());
    }
}

} // verus!
