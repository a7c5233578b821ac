//! What is read writes back: the words a record is read from are the words it is written as,
//! but where a count or index of zero was read from `-0.0`, which is written `+0.0`.
use vstd::prelude::*;
use crate::codec::{
    decode, encode, record_valid, record_writable,
    body_reads_as, body_sizer, body_words, body_writer, candidate, fall_reads_as, fall_sizer, fall_words, fall_writer,
    falls_at, header_reads_as, header_words, items_size, items_words, lemma_fall_sizes, lemma_items_size_grows,
    lemma_items_size_step, lemma_items_words_len, notch_reads_as, notch_sizer, notch_words, notch_writer, notches_at,
    record_counts, record_reads_as, record_words, reach_reads_as, reach_sizer, reach_words, reach_writer, reaches_at,
};
use crate::hydro::{BakeStats, Body, Fall, HydroRecord, NotchLine, ReachLine};
use crate::words::{NEG_ZERO, denotes_optional, denotes_u32, optional_word, u32_word};

verus! {

/// Word `i` of `written` is word `i` of `read`, or `+0.0` where `read` has `-0.0`.
pub open spec fn matches_at(written: Seq<u64>, read: Seq<u64>, i: int) -> bool {
    written[i] == read[i] || (written[i] == 0 && read[i] == NEG_ZERO)
}

/// `written` is `read` word for word, but where a zero read as `-0.0` is written `+0.0`.
pub open spec fn rewrites(written: Seq<u64>, read: Seq<u64>) -> bool {
    &&& written.len() == read.len()
    &&& forall|i: int| 0 <= i < read.len() ==> #[trigger] matches_at(written, read, i)
}

proof fn lemma_zero_word()
    ensures
        u32_word(0) == 0,
        forall|w: u64, n: u32| #[trigger] denotes_u32(w, n) ==> u32_word(n) == w || (u32_word(n) == 0 && w == NEG_ZERO),
        forall|w: u64, o: Option<u32>| #[trigger] denotes_optional(w, o) ==> optional_word(o) == w || (optional_word(o) == 0 && w == NEG_ZERO),
{
}

proof fn lemma_rewrites_concat(a1: Seq<u64>, b1: Seq<u64>, a2: Seq<u64>, b2: Seq<u64>)
    requires
        rewrites(a1, b1),
        rewrites(a2, b2),
    ensures
        rewrites(a1 + a2, b1 + b2),
{
    assert forall|i: int| 0 <= i < (b1 + b2).len() implies #[trigger] matches_at(a1 + a2, b1 + b2, i) by {
        if i < b1.len() {
            assert(matches_at(a1, b1, i));
        } else {
            assert(matches_at(a2, b2, i - b1.len()));
        }
    }
}

proof fn lemma_body_rewrites(b: Body, w: Seq<u64>)
    requires
        body_reads_as(b, w),
    ensures
        rewrites(body_words(b), w),
{
    lemma_zero_word();
    assert(matches_at(body_words(b), w, 0));
    assert(matches_at(body_words(b), w, 1));
    assert(matches_at(body_words(b), w, 2));
    assert(matches_at(body_words(b), w, 3));
    assert(matches_at(body_words(b), w, 4));
    assert(matches_at(body_words(b), w, 5));
    assert(matches_at(body_words(b), w, 6));
    assert(matches_at(body_words(b), w, 7));
    assert(matches_at(body_words(b), w, 8));
    assert(matches_at(body_words(b), w, 9));
    assert(matches_at(body_words(b), w, 10));
    assert(matches_at(body_words(b), w, 11));
    assert(matches_at(body_words(b), w, 12));
    assert(matches_at(body_words(b), w, 13));
    assert(matches_at(body_words(b), w, 14));
    assert(matches_at(body_words(b), w, 15));
    assert forall|i: int| 0 <= i < w.len() implies #[trigger] matches_at(body_words(b), w, i) by {
        if i == 0 {
        } else if i == 1 {
        } else if i == 2 {
        } else if i == 3 {
        } else if i == 4 {
        } else if i == 5 {
        } else if i == 6 {
        } else if i == 7 {
        } else if i == 8 {
        } else if i == 9 {
        } else if i == 10 {
        } else if i == 11 {
        } else if i == 12 {
        } else if i == 13 {
        } else if i == 14 {
        } else if i == 15 {
        } else {
            assert(w.subrange(16, w.len() as int)[i - 16] == w[i]);
        }
    }
}

proof fn lemma_reach_rewrites(r: ReachLine, w: Seq<u64>)
    requires
        reach_reads_as(r, w),
    ensures
        rewrites(reach_words(r), w),
{
    lemma_zero_word();
    assert(matches_at(reach_words(r), w, 0));
    assert(matches_at(reach_words(r), w, 1));
    assert(matches_at(reach_words(r), w, 2));
    assert(matches_at(reach_words(r), w, 3));
    assert(matches_at(reach_words(r), w, 4));
    assert(matches_at(reach_words(r), w, 5));
    assert(matches_at(reach_words(r), w, 6));
    assert forall|i: int| 0 <= i < w.len() implies #[trigger] matches_at(reach_words(r), w, i) by {
        if i == 0 {
        } else if i == 1 {
        } else if i == 2 {
        } else if i == 3 {
        } else if i == 4 {
        } else if i == 5 {
        } else if i == 6 {
        } else {
            assert(w.subrange(7, w.len() as int)[i - 7] == w[i]);
        }
    }
}

proof fn lemma_notch_rewrites(n: NotchLine, w: Seq<u64>)
    requires
        notch_reads_as(n, w),
    ensures
        rewrites(notch_words(n), w),
{
    lemma_zero_word();
    assert(matches_at(notch_words(n), w, 0));
    assert forall|i: int| 0 <= i < w.len() implies #[trigger] matches_at(notch_words(n), w, i) by {
        if i == 0 {
        } else {
            assert(w.subrange(1, w.len() as int)[i - 1] == w[i]);
        }
    }
}

proof fn lemma_fall_rewrites(f: Fall, w: Seq<u64>)
    requires
        fall_reads_as(f, w),
    ensures
        rewrites(fall_words(f), w),
{
    lemma_zero_word();
    assert(matches_at(fall_words(f), w, 0));
    assert(matches_at(fall_words(f), w, 1));
    assert(matches_at(fall_words(f), w, 2));
    assert(matches_at(fall_words(f), w, 3));
    assert forall|i: int| 0 <= i < w.len() implies #[trigger] matches_at(fall_words(f), w, i) by {
        if i == 0 {
        } else if i == 1 {
        } else if i == 2 {
        } else if i == 3 {
        }
    }
}

#[verifier::spinoff_prover]
#[verifier::rlimit(60)]
proof fn lemma_header_rewrites(stats: BakeStats, counts: (u32, u32, u32, u32), ground: Seq<u8>, w: Seq<u64>)
    requires
        header_reads_as(stats, counts, ground, w),
    ensures
        rewrites(header_words(stats, counts, ground), w),
{
    lemma_zero_word();
    assert(matches_at(header_words(stats, counts, ground), w, 0));
    assert(matches_at(header_words(stats, counts, ground), w, 1));
    assert(matches_at(header_words(stats, counts, ground), w, 2));
    assert(matches_at(header_words(stats, counts, ground), w, 3));
    assert(matches_at(header_words(stats, counts, ground), w, 4));
    assert(matches_at(header_words(stats, counts, ground), w, 5));
    assert(matches_at(header_words(stats, counts, ground), w, 6));
    assert(matches_at(header_words(stats, counts, ground), w, 7));
    assert(matches_at(header_words(stats, counts, ground), w, 8));
    assert(matches_at(header_words(stats, counts, ground), w, 9));
    assert(matches_at(header_words(stats, counts, ground), w, 10));
    assert(matches_at(header_words(stats, counts, ground), w, 11));
    assert(matches_at(header_words(stats, counts, ground), w, 12));
    assert(matches_at(header_words(stats, counts, ground), w, 13));
    assert(matches_at(header_words(stats, counts, ground), w, 14));
    assert(matches_at(header_words(stats, counts, ground), w, 15));
    assert(matches_at(header_words(stats, counts, ground), w, 16));
    assert(matches_at(header_words(stats, counts, ground), w, 17));
    assert(matches_at(header_words(stats, counts, ground), w, 18));
    assert(matches_at(header_words(stats, counts, ground), w, 19));
    assert(matches_at(header_words(stats, counts, ground), w, 20));
    assert(matches_at(header_words(stats, counts, ground), w, 21));
    assert(matches_at(header_words(stats, counts, ground), w, 22));
    assert(matches_at(header_words(stats, counts, ground), w, 23));
    assert(matches_at(header_words(stats, counts, ground), w, 24));
    assert(matches_at(header_words(stats, counts, ground), w, 25));
    assert(matches_at(header_words(stats, counts, ground), w, 26));
    assert(matches_at(header_words(stats, counts, ground), w, 27));
    assert(matches_at(header_words(stats, counts, ground), w, 28));
    assert(matches_at(header_words(stats, counts, ground), w, 29));
    assert(matches_at(header_words(stats, counts, ground), w, 30));
    assert(matches_at(header_words(stats, counts, ground), w, 31));
    assert(matches_at(header_words(stats, counts, ground), w, 32));
    assert(matches_at(header_words(stats, counts, ground), w, 33));
    assert(matches_at(header_words(stats, counts, ground), w, 34));
    assert(matches_at(header_words(stats, counts, ground), w, 35));
    assert(matches_at(header_words(stats, counts, ground), w, 36));
    assert(matches_at(header_words(stats, counts, ground), w, 37));
    assert(matches_at(header_words(stats, counts, ground), w, 38));
    assert(matches_at(header_words(stats, counts, ground), w, 39));
    assert(matches_at(header_words(stats, counts, ground), w, 40));
    assert(matches_at(header_words(stats, counts, ground), w, 41));
    assert(matches_at(header_words(stats, counts, ground), w, 42));
    assert(matches_at(header_words(stats, counts, ground), w, 43));
    assert(matches_at(header_words(stats, counts, ground), w, 44));
    assert(matches_at(header_words(stats, counts, ground), w, 45));
    assert(matches_at(header_words(stats, counts, ground), w, 46));
    assert(matches_at(header_words(stats, counts, ground), w, 47));
    assert(matches_at(header_words(stats, counts, ground), w, 48));
    assert(matches_at(header_words(stats, counts, ground), w, 49));
    assert(matches_at(header_words(stats, counts, ground), w, 50));
    assert(matches_at(header_words(stats, counts, ground), w, 51));
    assert(matches_at(header_words(stats, counts, ground), w, 52));
    assert(matches_at(header_words(stats, counts, ground), w, 53));
    assert(matches_at(header_words(stats, counts, ground), w, 54));
    assert(matches_at(header_words(stats, counts, ground), w, 55));
    assert(matches_at(header_words(stats, counts, ground), w, 56));
    assert(matches_at(header_words(stats, counts, ground), w, 57));
    assert(matches_at(header_words(stats, counts, ground), w, 58));
    assert(matches_at(header_words(stats, counts, ground), w, 59));
    assert forall|i: int| 0 <= i < w.len() implies #[trigger] matches_at(header_words(stats, counts, ground), w, i) by {
        if i == 0 {
        } else if i == 1 {
        } else if i == 2 {
        } else if i == 3 {
        } else if i == 4 {
        } else if i == 5 {
        } else if i == 6 {
        } else if i == 7 {
        } else if i == 8 {
        } else if i == 9 {
        } else if i == 10 {
        } else if i == 11 {
        } else if i == 12 {
        } else if i == 13 {
        } else if i == 14 {
        } else if i == 15 {
        } else if i == 16 {
        } else if i == 17 {
        } else if i == 18 {
        } else if i == 19 {
        } else if i == 20 {
        } else if i == 21 {
        } else if i == 22 {
        } else if i == 23 {
        } else if i == 24 {
        } else if i == 25 {
        } else if i == 26 {
        } else if i == 27 {
        } else if i == 28 {
        } else if i == 29 {
        } else if i == 30 {
        } else if i == 31 {
        } else if i == 32 {
        } else if i == 33 {
        } else if i == 34 {
        } else if i == 35 {
        } else if i == 36 {
        } else if i == 37 {
        } else if i == 38 {
        } else if i == 39 {
        } else if i == 40 {
        } else if i == 41 {
        } else if i == 42 {
        } else if i == 43 {
        } else if i == 44 {
        } else if i == 45 {
        } else if i == 46 {
        } else if i == 47 {
        } else if i == 48 {
        } else if i == 49 {
        } else if i == 50 {
        } else if i == 51 {
        } else if i == 52 {
        } else if i == 53 {
        } else if i == 54 {
        } else if i == 55 {
        } else if i == 56 {
        } else if i == 57 {
        } else if i == 58 {
        } else if i == 59 {
        }
    }
}

/// A list of items read one after another writes back item by item.
proof fn lemma_items_rewrite<T>(
    s: Seq<T>,
    words: spec_fn(T) -> Seq<u64>,
    size: spec_fn(T) -> nat,
    reads: spec_fn(T, Seq<u64>) -> bool,
    w: Seq<u64>,
)
    requires
        forall|x: T| #[trigger] words(x).len() == size(x),
        forall|x: T, v: Seq<u64>| #[trigger] reads(x, v) ==> rewrites(words(x), v),
        w.len() == items_size(s, size),
        forall|k: int| #![trigger s[k]] 0 <= k < s.len() ==> reads(s[k], w.subrange(items_size(s.take(k), size) as int,
            items_size(s.take(k + 1), size) as int)),
    ensures
        rewrites(items_words(s, words), w),
    decreases s.len(),
{
    lemma_items_words_len(s, words, size);
    if s.len() == 0 {
        assert(w.len() == 0);
    } else {
        let n = s.len() as int;
        let p = s.drop_last();
        let m = items_size(p, size) as int;
        assert(s.take(n - 1) =~= p);
        assert(s.take(n) =~= s);
        let wp = w.take(m);
        assert forall|k: int| #![trigger p[k]] 0 <= k < p.len() implies reads(p[k], wp.subrange(items_size(p.take(k), size) as int,
            items_size(p.take(k + 1), size) as int)) by {
            assert(p.take(k) =~= s.take(k));
            assert(p.take(k + 1) =~= s.take(k + 1));
            lemma_items_size_grows(s, size, k, k + 1);
            lemma_items_size_grows(s, size, k + 1, n - 1);
            let a = items_size(s.take(k), size) as int;
            let b = items_size(s.take(k + 1), size) as int;
            assert(wp.subrange(a, b) =~= w.subrange(a, b));
            assert(p[k] == s[k]);
        }
        lemma_items_rewrite(p, words, size, reads, wp);
        let last = s[n - 1];
        assert(reads(s[n - 1], w.subrange(m, w.len() as int)));
        assert(s[n - 1] == s.last());
        lemma_rewrites_concat(items_words(p, words), wp, words(s.last()), w.subrange(m, w.len() as int));
        assert(wp + w.subrange(m, w.len() as int) =~= w);
    }
}

/// Items read one after another from `w`, starting at `at`, write back as the words they were
/// read from.
#[verifier::spinoff_prover]
#[verifier::rlimit(40)]
proof fn lemma_segment_rewrite<T>(
    w: Seq<u64>,
    at: int,
    s: Seq<T>,
    words: spec_fn(T) -> Seq<u64>,
    size: spec_fn(T) -> nat,
    reads: spec_fn(T, Seq<u64>) -> bool,
)
    requires
        0 <= at,
        at + items_size(s, size) <= w.len(),
        forall|x: T| #[trigger] words(x).len() == size(x),
        forall|x: T, v: Seq<u64>| #[trigger] reads(x, v) ==> rewrites(words(x), v),
        forall|k: int| #![trigger s[k]] 0 <= k < s.len() ==> reads(s[k], w.subrange(at + items_size(s.take(k), size),
            at + items_size(s.take(k + 1), size))),
    ensures
        rewrites(items_words(s, words), w.subrange(at, at + items_size(s, size))),
{
    let seg = w.subrange(at, at + items_size(s, size));
    assert forall|k: int| #![trigger s[k]] 0 <= k < s.len() implies reads(s[k], seg.subrange(
        items_size(s.take(k), size) as int, items_size(s.take(k + 1), size) as int)) by {
        lemma_items_size_grows(s, size, k, k + 1);
        lemma_items_size_grows(s, size, k + 1, s.len() as int);
        assert(s.take(s.len() as int) =~= s);
        let a = items_size(s.take(k), size) as int;
        let b = items_size(s.take(k + 1), size) as int;
        assert(seg.subrange(a, b) =~= w.subrange(at + a, at + b));
    }
    lemma_items_rewrite(s, words, size, reads, seg);
}

#[verifier::spinoff_prover]
proof fn lemma_bodies_rewrite(r: HydroRecord, w: Seq<u64>)
    requires
        record_reads_as(r, w),
    ensures
        rewrites(items_words(r.bodies@, body_writer()), w.subrange(60int, reaches_at(r) as int)),
{
    assert(forall|x: Body| #[trigger] body_writer()(x).len() == body_sizer()(x));
    let body_reads = |x: Body, v: Seq<u64>| body_reads_as(x, v);
    assert forall|x: Body, v: Seq<u64>| #[trigger] body_reads(x, v) implies rewrites(body_writer()(x), v) by {
        lemma_body_rewrites(x, v);
    }
    let at = 60int;
    assert forall|k: int| #![trigger r.bodies@[k]] 0 <= k < r.bodies@.len() implies body_reads(r.bodies@[k], w.subrange(
        at + items_size(r.bodies@.take(k), body_sizer()), at + items_size(r.bodies@.take(k + 1), body_sizer()))) by {
        assert(body_reads_as(r.bodies@[k], w.subrange(
            (60 + items_size(r.bodies@.take(k), body_sizer())) as int, (60 + items_size(r.bodies@.take(k + 1), body_sizer())) as int)));
    }
    lemma_segment_rewrite(w, at, r.bodies@, body_writer(), body_sizer(), body_reads);
}

#[verifier::spinoff_prover]
proof fn lemma_reaches_rewrite(r: HydroRecord, w: Seq<u64>)
    requires
        record_reads_as(r, w),
    ensures
        rewrites(items_words(r.reaches@, reach_writer()), w.subrange(reaches_at(r) as int, notches_at(r) as int)),
{
    assert(forall|x: ReachLine| #[trigger] reach_writer()(x).len() == reach_sizer()(x));
    let reach_reads = |x: ReachLine, v: Seq<u64>| reach_reads_as(x, v);
    assert forall|x: ReachLine, v: Seq<u64>| #[trigger] reach_reads(x, v) implies rewrites(reach_writer()(x), v) by {
        lemma_reach_rewrites(x, v);
    }
    let at = reaches_at(r) as int;
    assert forall|k: int| #![trigger r.reaches@[k]] 0 <= k < r.reaches@.len() implies reach_reads(r.reaches@[k], w.subrange(
        at + items_size(r.reaches@.take(k), reach_sizer()), at + items_size(r.reaches@.take(k + 1), reach_sizer()))) by {
        assert(reach_reads_as(r.reaches@[k], w.subrange(
            (reaches_at(r) + items_size(r.reaches@.take(k), reach_sizer())) as int, (reaches_at(r) + items_size(r.reaches@.take(k + 1), reach_sizer())) as int)));
    }
    lemma_segment_rewrite(w, at, r.reaches@, reach_writer(), reach_sizer(), reach_reads);
}

#[verifier::spinoff_prover]
proof fn lemma_notches_rewrite(r: HydroRecord, w: Seq<u64>)
    requires
        record_reads_as(r, w),
    ensures
        rewrites(items_words(r.notches@, notch_writer()), w.subrange(notches_at(r) as int, falls_at(r) as int)),
{
    assert(forall|x: NotchLine| #[trigger] notch_writer()(x).len() == notch_sizer()(x));
    let notch_reads = |x: NotchLine, v: Seq<u64>| notch_reads_as(x, v);
    assert forall|x: NotchLine, v: Seq<u64>| #[trigger] notch_reads(x, v) implies rewrites(notch_writer()(x), v) by {
        lemma_notch_rewrites(x, v);
    }
    let at = notches_at(r) as int;
    assert forall|k: int| #![trigger r.notches@[k]] 0 <= k < r.notches@.len() implies notch_reads(r.notches@[k], w.subrange(
        at + items_size(r.notches@.take(k), notch_sizer()), at + items_size(r.notches@.take(k + 1), notch_sizer()))) by {
        assert(notch_reads_as(r.notches@[k], w.subrange(
            (notches_at(r) + items_size(r.notches@.take(k), notch_sizer())) as int, (notches_at(r) + items_size(r.notches@.take(k + 1), notch_sizer())) as int)));
    }
    lemma_segment_rewrite(w, at, r.notches@, notch_writer(), notch_sizer(), notch_reads);
}

#[verifier::spinoff_prover]
proof fn lemma_falls_rewrite(r: HydroRecord, w: Seq<u64>)
    requires
        record_reads_as(r, w),
    ensures
        rewrites(items_words(r.falls@, fall_writer()), w.subrange(falls_at(r) as int, w.len() as int)),
{
    assert(forall|x: Fall| #[trigger] fall_writer()(x).len() == fall_sizer()(x));
    lemma_fall_sizes(r.falls@, r.falls@.len() as int);
    assert(r.falls@.take(r.falls@.len() as int) =~= r.falls@);
    let fall_reads = |x: Fall, v: Seq<u64>| fall_reads_as(x, v);
    assert forall|x: Fall, v: Seq<u64>| #[trigger] fall_reads(x, v) implies rewrites(fall_writer()(x), v) by {
        lemma_fall_rewrites(x, v);
    }
    let f0 = falls_at(r) as int;
    assert forall|k: int| #![trigger r.falls@[k]] 0 <= k < r.falls@.len() implies fall_reads(r.falls@[k], w.subrange(
        f0 + items_size(r.falls@.take(k), fall_sizer()), f0 + items_size(r.falls@.take(k + 1), fall_sizer()))) by {
        lemma_fall_sizes(r.falls@, k);
        lemma_fall_sizes(r.falls@, k + 1);
        assert(fall_reads_as(r.falls@[k], w.subrange(falls_at(r) + 4 * k, falls_at(r) + 4 * k + 4)));
    }
    lemma_segment_rewrite(w, f0, r.falls@, fall_writer(), fall_sizer(), fall_reads);
}

/// What is read writes back: the words of a record that `w` reads as are `w`, but where a zero
/// count or index was read from `-0.0`.
pub proof fn lemma_read_then_write(r: HydroRecord, w: Seq<u64>)
    requires
        record_reads_as(r, w),
    ensures
        rewrites(record_words(r), w),
{
    let hw = header_words(r.stats, record_counts(r), r.ground@);
    let bw = items_words(r.bodies@, body_writer());
    let rw = items_words(r.reaches@, reach_writer());
    let nw = items_words(r.notches@, notch_writer());
    let fw = items_words(r.falls@, fall_writer());
    let (r0, n0, f0) = (reaches_at(r) as int, notches_at(r) as int, falls_at(r) as int);
    let end = w.len() as int;
    lemma_header_rewrites(r.stats, record_counts(r), r.ground@, w.take(60));
    lemma_bodies_rewrite(r, w);
    lemma_reaches_rewrite(r, w);
    lemma_notches_rewrite(r, w);
    lemma_falls_rewrite(r, w);
    let wb = w.subrange(60, r0);
    let wr = w.subrange(r0, n0);
    let wn = w.subrange(n0, f0);
    let wf = w.subrange(f0, end);
    lemma_rewrites_concat(hw, w.take(60), bw, wb);
    lemma_rewrites_concat(hw + bw, w.take(60) + wb, rw, wr);
    lemma_rewrites_concat(hw + bw + rw, w.take(60) + wb + wr, nw, wn);
    lemma_rewrites_concat(hw + bw + rw + nw, w.take(60) + wb + wr + wn, fw, wf);
    assert(w.take(60) + wb + wr + wn + wf =~= w);
}

/// Reads a record from its words and writes it again: the words come back as they were, but
/// where a zero count or index was read from `-0.0`. Nothing when the words are not a record.
pub fn reencode(words: &Vec<u64>) -> (out: Option<Vec<u64>>)
    ensures
        out is Some <==> exists|c: HydroRecord| #[trigger] candidate(c, words@),
        out matches Some(v) ==> rewrites(v@, words@),
{
    match decode(words) {
        None => None,
        Some(r) => {
            proof {
                assert(candidate(r, words@));
                lemma_read_then_write(r, words@);
            }
            Some(encode(&r))
        },
    }
}

} // verus!
