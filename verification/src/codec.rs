//! The record as one flat list of words, and back.
//!
//! The layout: a header of `HEADER_WORDS` words (the schema, the four item counts, the counts
//! and parameters of the bake, the ground fingerprint's four words), then every body, every
//! reach, every notch and every fall in turn. An item leads with its fixed words and, where it
//! has a list of points, their count, then the points.
//!
//! Reading refuses any list of words that is not exactly the words of a record: a count that
//! cannot be met by the words left, a word that is not a whole number where one belongs, a
//! body claiming more shore members than its outline holds (or all of it, leaving no collar),
//! a shore reach that is not a finite length, words left over at the end.
use vstd::prelude::*;
use crate::hydro::{BakeStats, Body, BodyKind, Fall, HydroRecord, NotchLine, ReachLine, ReachPoint};
use crate::reaches::{Downstream, ReachClass};
use crate::record::{
    SCHEMA_VERSION, body_kind_code, body_kind_code_spec, body_kind_of_code, bool_code, bool_code_spec,
    bool_of_code, count_fits, downstream_of_words, downstream_words, downstream_words_spec, ground_of_words,
    ground_words, ground_words_spec, reach_class_code, reach_class_code_spec, reach_class_of_code,
};
use crate::words::{
    denotes_optional, denotes_u32, is_distance, lemma_u32_word_reads_back, lemma_word_to_u32_denotes,
    optional_word, optional_word_of, u32_word, u32_word_of, word_is_distance, word_to_optional, word_to_u32,
    word_to_u32_spec,
};

verus! {

// ---- sizes and words of lists of items ----------------------------------------------------

/// The words a list of items takes, each item `size` words.
pub open spec fn items_size<T>(s: Seq<T>, size: spec_fn(T) -> nat) -> nat
    decreases s.len(),
{
    if s.len() == 0 {
        0
    } else {
        items_size(s.drop_last(), size) + size(s.last())
    }
}

/// The words of a list of items, one after another.
pub open spec fn items_words<T>(s: Seq<T>, words: spec_fn(T) -> Seq<u64>) -> Seq<u64>
    decreases s.len(),
{
    if s.len() == 0 {
        Seq::empty()
    } else {
        items_words(s.drop_last(), words) + words(s.last())
    }
}

pub(crate) proof fn lemma_items_size_step<T>(s: Seq<T>, size: spec_fn(T) -> nat, k: int)
    requires
        0 <= k < s.len(),
    ensures
        items_size(s.take(k + 1), size) == items_size(s.take(k), size) + size(s[k]),
{
    assert(s.take(k + 1).drop_last() =~= s.take(k));
}

pub(crate) proof fn lemma_items_size_grows<T>(s: Seq<T>, size: spec_fn(T) -> nat, k: int, j: int)
    requires
        0 <= k <= j <= s.len(),
    ensures
        items_size(s.take(k), size) <= items_size(s.take(j), size),
    decreases j - k,
{
    if k < j {
        lemma_items_size_grows(s, size, k, j - 1);
        lemma_items_size_step(s, size, j - 1);
    }
}

proof fn lemma_items_size_at_least<T>(s: Seq<T>, size: spec_fn(T) -> nat, least: nat)
    requires
        forall|k: int| 0 <= k < s.len() ==> size(#[trigger] s[k]) >= least,
    ensures
        items_size(s, size) >= least * s.len(),
    decreases s.len(),
{
    if s.len() > 0 {
        let front = s.drop_last();
        assert forall|k: int| 0 <= k < front.len() implies size(#[trigger] front[k]) >= least by {
            assert(front[k] == s[k]);
        }
        lemma_items_size_at_least(front, size, least);
        assert(size(s.last()) >= least);
        assert(least * s.len() == least * front.len() + least) by (nonlinear_arith)
            requires s.len() == front.len() + 1;
    }
}

proof fn lemma_items_size_same<T>(s: Seq<T>, t: Seq<T>, size: spec_fn(T) -> nat)
    requires
        s.len() == t.len(),
        forall|k: int| 0 <= k < s.len() ==> size(#[trigger] s[k]) == size(t[k]),
    ensures
        items_size(s, size) == items_size(t, size),
    decreases s.len(),
{
    if s.len() > 0 {
        let (fs, ft) = (s.drop_last(), t.drop_last());
        assert forall|k: int| 0 <= k < fs.len() implies size(#[trigger] fs[k]) == size(ft[k]) by {
            assert(fs[k] == s[k] && ft[k] == t[k]);
        }
        lemma_items_size_same(fs, ft, size);
        assert(size(s[s.len() - 1]) == size(t[t.len() - 1]));
    }
}

pub(crate) proof fn lemma_items_words_len<T>(s: Seq<T>, words: spec_fn(T) -> Seq<u64>, size: spec_fn(T) -> nat)
    requires
        forall|x: T| #[trigger] words(x).len() == size(x),
    ensures
        items_words(s, words).len() == items_size(s, size),
    decreases s.len(),
{
    if s.len() > 0 {
        lemma_items_words_len(s.drop_last(), words, size);
    }
}

/// Item `k`'s words sit in the list's words between the sizes of the items before it and
/// up to it.
proof fn lemma_items_words_at<T>(s: Seq<T>, words: spec_fn(T) -> Seq<u64>, size: spec_fn(T) -> nat, k: int)
    requires
        forall|x: T| #[trigger] words(x).len() == size(x),
        0 <= k < s.len(),
    ensures
        items_words(s, words).subrange(items_size(s.take(k), size) as int, items_size(s.take(k + 1), size) as int)
            == words(s[k]),
        items_size(s.take(k + 1), size) <= items_size(s, size),
    decreases s.len(),
{
    lemma_items_size_step(s, size, k);
    lemma_items_words_len(s, words, size);
    let front = s.drop_last();
    if k == s.len() - 1 {
        assert(s.take(k) =~= front);
        assert(s.take(k + 1) =~= s);
        lemma_items_words_len(front, words, size);
        assert(items_words(s, words).subrange(items_size(front, size) as int, items_size(s, size) as int)
            =~= words(s.last()));
    } else {
        lemma_items_words_at(front, words, size, k);
        assert(front.take(k) =~= s.take(k));
        assert(front.take(k + 1) =~= s.take(k + 1));
        lemma_items_words_len(front, words, size);
        let a = items_size(s.take(k), size) as int;
        let b = items_size(s.take(k + 1), size) as int;
        assert(items_words(s, words).subrange(a, b) =~= items_words(front, words).subrange(a, b));
        assert(items_size(front, size) <= items_size(s, size));
    }
}

// ---- bodies ----------------------------------------------------------------------------

/// The words a body takes: sixteen, then two per outline point.
pub open spec fn body_size(b: Body) -> nat {
    16 + 2 * b.outline@.len()
}

/// An outline's points as words: latitude, longitude, point after point.
pub open spec fn pair_words(o: Seq<(u64, u64)>) -> Seq<u64> {
    Seq::new(2 * o.len(), |i: int| if i % 2 == 0 { o[i / 2].0 } else { o[i / 2].1 })
}

/// The words a body is written as.
pub open spec fn body_words(b: Body) -> Seq<u64> {
    seq![
        u32_word(b.id),
        u32_word(body_kind_code_spec(b.kind)),
        u32_word(bool_code_spec(b.fresh)),
        u32_word(bool_code_spec(b.enclosed)),
        u32_word(bool_code_spec(b.forced)),
        b.level_m,
        b.area_m2,
        b.depth_m,
        optional_word(b.outlet_reach),
        b.anchor.0,
        b.anchor.1,
        u32_word(downstream_words_spec(b.downstream).0),
        optional_word(downstream_words_spec(b.downstream).1),
        u32_word(b.shore_member_count),
        b.shore_reach_m,
        u32_word(b.outline@.len() as u32),
    ] + pair_words(b.outline@)
}

/// A body a reader accepts: its outline's length is a count, its shore reach is a finite
/// length, and its shore members are a part of its outline that leaves a collar.
pub open spec fn body_valid(b: Body) -> bool {
    &&& b.outline@.len() <= u32::MAX
    &&& is_distance(b.shore_reach_m)
    &&& b.shore_member_count <= b.outline@.len()
    &&& !(b.shore_member_count > 0 && b.shore_member_count == b.outline@.len())
}

/// The words `w` are a body's words: every count word stands for its count (zero may be
/// written `-0.0`), every measurement word is the measurement.
pub open spec fn body_reads_as(b: Body, w: Seq<u64>) -> bool {
    &&& w.len() == body_size(b)
    &&& denotes_u32(w[0], b.id)
    &&& denotes_u32(w[1], body_kind_code_spec(b.kind))
    &&& denotes_u32(w[2], bool_code_spec(b.fresh))
    &&& denotes_u32(w[3], bool_code_spec(b.enclosed))
    &&& denotes_u32(w[4], bool_code_spec(b.forced))
    &&& w[5] == b.level_m
    &&& w[6] == b.area_m2
    &&& w[7] == b.depth_m
    &&& denotes_optional(w[8], b.outlet_reach)
    &&& w[9] == b.anchor.0
    &&& w[10] == b.anchor.1
    &&& denotes_u32(w[11], downstream_words_spec(b.downstream).0)
    &&& denotes_optional(w[12], downstream_words_spec(b.downstream).1)
    &&& denotes_u32(w[13], b.shore_member_count)
    &&& w[14] == b.shore_reach_m
    &&& denotes_u32(w[15], b.outline@.len() as u32)
    &&& w.subrange(16, w.len() as int) == pair_words(b.outline@)
}

/// Two bodies hold the same things.
pub open spec fn same_body(a: Body, b: Body) -> bool {
    &&& a.id == b.id
    &&& a.kind == b.kind
    &&& a.fresh == b.fresh
    &&& a.enclosed == b.enclosed
    &&& a.forced == b.forced
    &&& a.level_m == b.level_m
    &&& a.area_m2 == b.area_m2
    &&& a.depth_m == b.depth_m
    &&& a.outlet_reach == b.outlet_reach
    &&& a.anchor == b.anchor
    &&& a.outline@ == b.outline@
    &&& a.downstream == b.downstream
    &&& a.shore_member_count == b.shore_member_count
    &&& a.shore_reach_m == b.shore_reach_m
}

proof fn lemma_body_words_read(b: Body)
    requires
        body_valid(b),
    ensures
        body_reads_as(b, body_words(b)),
        body_words(b).len() == body_size(b),
{
    lemma_u32_word_reads_back(b.id);
    let w = body_words(b);
    assert(w.subrange(16, w.len() as int) =~= pair_words(b.outline@));
    assert(denotes_optional(optional_word(b.outlet_reach), b.outlet_reach));
    assert(denotes_optional(optional_word(downstream_words_spec(b.downstream).1),
        downstream_words_spec(b.downstream).1));
}

// ---- reading and writing single words ---------------------------------------------------

/// Reads a flag word.
fn word_to_flag(w: u64) -> (b: Option<bool>)
    ensures
        forall|x: bool| b == Some(x) <==> denotes_u32(w, bool_code_spec(x)),
{
    match word_to_u32(w) {
        Some(code) => bool_of_code(code),
        None => None,
    }
}

/// Reads a body kind word.
fn word_to_body_kind(w: u64) -> (kind: Option<BodyKind>)
    ensures
        forall|x: BodyKind| kind == Some(x) <==> denotes_u32(w, body_kind_code_spec(x)),
{
    match word_to_u32(w) {
        Some(code) => body_kind_of_code(code),
        None => None,
    }
}

/// Reads a reach class word.
fn word_to_reach_class(w: u64) -> (class: Option<ReachClass>)
    ensures
        forall|x: ReachClass| class == Some(x) <==> denotes_u32(w, reach_class_code_spec(x)),
{
    match word_to_u32(w) {
        Some(code) => reach_class_of_code(code),
        None => None,
    }
}

/// Reads a downstream link from its kind word and its id word.
fn words_to_downstream(kind: u64, id: u64) -> (d: Option<Downstream>)
    ensures
        forall|x: Downstream| d == Some(x) <==> denotes_u32(kind, downstream_words_spec(x).0)
            && denotes_optional(id, downstream_words_spec(x).1),
{
    proof {
        assert forall|x: Downstream| denotes_optional(id, downstream_words_spec(x).1) && denotes_u32(kind,
            downstream_words_spec(x).0) implies word_to_u32_spec(kind) == Some(downstream_words_spec(x).0) by {
            lemma_word_to_u32_denotes(kind, downstream_words_spec(x).0);
        }
    }
    let k = match word_to_u32(kind) {
        Some(k) => k,
        None => return None,
    };
    let i = match word_to_optional(id) {
        Some(i) => i,
        None => return None,
    };
    downstream_of_words(k, i)
}

/// Writes `o`'s pairs.
fn push_pairs(out: &mut Vec<u64>, o: &Vec<(u64, u64)>)
    ensures
        final(out)@ == old(out)@ + pair_words(o@),
{
    let ghost start = out@;
    let mut j: usize = 0;
    while j < o.len()
        invariant
            j <= o@.len(),
            out@ == start + pair_words(o@.take(j as int)),
        decreases o@.len() - j,
    {
        let (a, b) = o[j];
        out.push(a);
        out.push(b);
        proof {
            assert(pair_words(o@.take(j + 1)) =~= pair_words(o@.take(j as int)).push(a).push(b));
        }
        j += 1;
    }
    assert(o@.take(o@.len() as int) =~= o@);
}

proof fn lemma_pair_words_injective(a: Seq<(u64, u64)>, b: Seq<(u64, u64)>)
    requires
        pair_words(a) == pair_words(b),
    ensures
        a == b,
{
    assert(pair_words(a).len() == 2 * a.len());
    assert(pair_words(b).len() == 2 * b.len());
    assert forall|j: int| 0 <= j < a.len() implies a[j] == b[j] by {
        assert((2 * j) % 2 == 0 && (2 * j) / 2 == j);
        assert((2 * j + 1) % 2 == 1 && (2 * j + 1) / 2 == j);
        assert(pair_words(a)[2 * j] == pair_words(b)[2 * j]);
        assert(pair_words(a)[2 * j + 1] == pair_words(b)[2 * j + 1]);
        assert(pair_words(a)[2 * j] == a[j].0 && pair_words(b)[2 * j] == b[j].0);
        assert(pair_words(a)[2 * j + 1] == a[j].1 && pair_words(b)[2 * j + 1] == b[j].1);
    }
    assert(a =~= b);
}

// ---- bodies, written and read ------------------------------------------------------------

fn encode_body(out: &mut Vec<u64>, b: &Body)
    requires
        b.outline@.len() <= u32::MAX,
    ensures
        final(out)@ == old(out)@ + body_words(*b),
{
    let ghost start = out@;
    out.push(u32_word_of(b.id));
    out.push(u32_word_of(body_kind_code(b.kind)));
    out.push(u32_word_of(bool_code(b.fresh)));
    out.push(u32_word_of(bool_code(b.enclosed)));
    out.push(u32_word_of(bool_code(b.forced)));
    out.push(b.level_m);
    out.push(b.area_m2);
    out.push(b.depth_m);
    out.push(optional_word_of(b.outlet_reach));
    out.push(b.anchor.0);
    out.push(b.anchor.1);
    let (kind, id) = downstream_words(b.downstream);
    out.push(u32_word_of(kind));
    out.push(optional_word_of(id));
    out.push(u32_word_of(b.shore_member_count));
    out.push(b.shore_reach_m);
    out.push(u32_word_of(b.outline.len() as u32));
    let ghost fixed = out@;
    push_pairs(out, &b.outline);
    proof {
        assert(fixed.subrange(0, start.len() as int) == start);
        assert(fixed == start + body_words(*b).take(16)) by {
            assert(fixed =~= start + body_words(*b).take(16));
        }
        assert(out@ =~= start + body_words(*b));
    }
}

/// Reads the body that starts at word `pos`.
#[verifier::spinoff_prover]
#[verifier::rlimit(60)]
fn decode_body(words: &Vec<u64>, pos: usize) -> (read: Option<(Body, usize)>)
    requires
        pos <= words@.len(),
    ensures
        read matches Some((b, end)) ==> end == pos + body_size(b) && end <= words@.len() && body_valid(b)
            && body_reads_as(b, words@.subrange(pos as int, end as int)),
        forall|c: Body|
            body_valid(c) && pos + body_size(c) <= words@.len() && #[trigger] body_reads_as(c,
                words@.subrange(pos as int, pos + body_size(c))) ==> (read matches Some((b, end)) && same_body(b, c)
                && end == pos + body_size(c)),
{
    let ghost w = words@;
    if words.len() - pos < 16 {
        return None;
    }
    let id = match word_to_u32(words[pos]) {
        Some(v) => v,
        None => return None,
    };
    let kind = match word_to_body_kind(words[pos + 1]) {
        Some(v) => v,
        None => return None,
    };
    let fresh = match word_to_flag(words[pos + 2]) {
        Some(v) => v,
        None => return None,
    };
    let enclosed = match word_to_flag(words[pos + 3]) {
        Some(v) => v,
        None => return None,
    };
    let forced = match word_to_flag(words[pos + 4]) {
        Some(v) => v,
        None => return None,
    };
    let level_m = words[pos + 5];
    let area_m2 = words[pos + 6];
    let depth_m = words[pos + 7];
    let outlet_reach = match word_to_optional(words[pos + 8]) {
        Some(v) => v,
        None => return None,
    };
    let anchor = (words[pos + 9], words[pos + 10]);
    let downstream = match words_to_downstream(words[pos + 11], words[pos + 12]) {
        Some(v) => v,
        None => return None,
    };
    let shore_member_count = match word_to_u32(words[pos + 13]) {
        Some(v) => v,
        None => return None,
    };
    let shore_reach_m = words[pos + 14];
    if !word_is_distance(shore_reach_m) {
        return None;
    }
    let outline_len = match word_to_u32(words[pos + 15]) {
        Some(v) => v,
        None => return None,
    };
    if shore_member_count > outline_len {
        return None;
    }
    if shore_member_count > 0 && shore_member_count == outline_len {
        return None;
    }
    let start = pos + 16;
    if !count_fits(outline_len as usize, 2, words.len() - start) {
        return None;
    }
    let mut outline: Vec<(u64, u64)> = Vec::new();
    let mut j: usize = 0;
    while j < outline_len as usize
        invariant
            w == words@,
            j <= outline_len,
            start + 2 * outline_len <= words.len(),
            outline@.len() == j,
            pair_words(outline@) == w.subrange(start as int, start + 2 * j),
        decreases outline_len - j,
    {
        let p = start + 2 * j;
        let ghost old_o = outline@;
        outline.push((words[p], words[p + 1]));
        proof {
            let t = w.subrange(start as int, start + 2 * (j + 1));
            assert forall|i: int| 0 <= i < 2 * (j + 1) implies #[trigger] pair_words(outline@)[i] == t[i] by {
                if i < 2 * j {
                    assert(i / 2 < j);
                    assert(outline@[i / 2] == old_o[i / 2]);
                    assert(pair_words(old_o)[i] == w.subrange(start as int, start + 2 * j)[i]);
                } else if i == 2 * j {
                    assert(i / 2 == j && i % 2 == 0);
                } else {
                    assert(i / 2 == j && i % 2 == 1);
                }
            }
            assert(pair_words(outline@) =~= t);
        }
        j += 1;
    }
    let end = start + 2 * (outline_len as usize);
    let b = Body {
        id,
        kind,
        fresh,
        enclosed,
        forced,
        level_m,
        area_m2,
        depth_m,
        outlet_reach,
        anchor,
        outline,
        downstream,
        shore_member_count,
        shore_reach_m,
    };
    proof {
        let sub = w.subrange(pos as int, end as int);
        assert(sub.subrange(16, sub.len() as int) =~= w.subrange(start as int, end as int));
        assert(body_reads_as(b, sub));
        assert forall|c: Body|
            body_valid(c) && pos + body_size(c) <= w.len() && #[trigger] body_reads_as(c, w.subrange(pos as int, pos
                + body_size(c))) implies same_body(b, c) && end == pos + body_size(c) by {
            let cs = w.subrange(pos as int, pos + body_size(c));
            assert(cs[15] == w[pos + 15]);
            assert(c.outline@.len() == outline_len);
            assert(cs =~= sub);
            lemma_pair_words_injective(b.outline@, c.outline@);
        }
    }
    Some((b, end))
}

// ---- reaches, written and read -----------------------------------------------------------

/// One of a reach point's six words.
pub open spec fn point_field(p: ReachPoint, f: int) -> u64 {
    if f == 0 {
        p.lat_deg
    } else if f == 1 {
        p.lon_deg
    } else if f == 2 {
        p.bed_m
    } else if f == 3 {
        p.width_m
    } else if f == 4 {
        p.depth_m
    } else {
        p.flow_m2
    }
}

/// A reach's points as words: six per point, point after point.
pub open spec fn point_words(ps: Seq<ReachPoint>) -> Seq<u64> {
    Seq::new(6 * ps.len(), |i: int| point_field(ps[i / 6], i % 6))
}

/// The words a reach takes: seven, then six per point.
pub open spec fn reach_size(r: ReachLine) -> nat {
    7 + 6 * r.points@.len()
}

/// The words a reach is written as.
pub open spec fn reach_words(r: ReachLine) -> Seq<u64> {
    seq![
        u32_word(r.id),
        u32_word(reach_class_code_spec(r.class)),
        u32_word(r.order),
        u32_word(downstream_words_spec(r.downstream).0),
        optional_word(downstream_words_spec(r.downstream).1),
        u32_word(bool_code_spec(r.fresh)),
        u32_word(r.points@.len() as u32),
    ] + point_words(r.points@)
}

/// A reach a reader accepts: its point count is a count.
pub open spec fn reach_valid(r: ReachLine) -> bool {
    r.points@.len() <= u32::MAX
}

/// The words `w` are a reach's words.
pub open spec fn reach_reads_as(r: ReachLine, w: Seq<u64>) -> bool {
    &&& w.len() == reach_size(r)
    &&& denotes_u32(w[0], r.id)
    &&& denotes_u32(w[1], reach_class_code_spec(r.class))
    &&& denotes_u32(w[2], r.order)
    &&& denotes_u32(w[3], downstream_words_spec(r.downstream).0)
    &&& denotes_optional(w[4], downstream_words_spec(r.downstream).1)
    &&& denotes_u32(w[5], bool_code_spec(r.fresh))
    &&& denotes_u32(w[6], r.points@.len() as u32)
    &&& w.subrange(7, w.len() as int) == point_words(r.points@)
}

/// Two reaches hold the same things.
pub open spec fn same_reach(a: ReachLine, b: ReachLine) -> bool {
    &&& a.id == b.id
    &&& a.class == b.class
    &&& a.order == b.order
    &&& a.downstream == b.downstream
    &&& a.fresh == b.fresh
    &&& a.points@ == b.points@
}

proof fn lemma_point_words_injective(a: Seq<ReachPoint>, b: Seq<ReachPoint>)
    requires
        point_words(a) == point_words(b),
    ensures
        a == b,
{
    assert(point_words(a).len() == 6 * a.len());
    assert(point_words(b).len() == 6 * b.len());
    assert forall|j: int| 0 <= j < a.len() implies a[j] == b[j] by {
        assert forall|f: int| 0 <= f < 6 implies point_field(a[j], f) == point_field(b[j], f) by {
            assert((6 * j + f) / 6 == j && (6 * j + f) % 6 == f);
            assert(point_words(a)[6 * j + f] == point_words(b)[6 * j + f]);
            assert(point_words(a)[6 * j + f] == point_field(a[j], f));
            assert(point_words(b)[6 * j + f] == point_field(b[j], f));
        }
        assert(point_field(a[j], 0) == point_field(b[j], 0));
        assert(point_field(a[j], 1) == point_field(b[j], 1));
        assert(point_field(a[j], 2) == point_field(b[j], 2));
        assert(point_field(a[j], 3) == point_field(b[j], 3));
        assert(point_field(a[j], 4) == point_field(b[j], 4));
        assert(point_field(a[j], 5) == point_field(b[j], 5));
    }
    assert(a =~= b);
}

fn push_points(out: &mut Vec<u64>, ps: &Vec<ReachPoint>)
    ensures
        final(out)@ == old(out)@ + point_words(ps@),
{
    let ghost start = out@;
    let mut j: usize = 0;
    while j < ps.len()
        invariant
            j <= ps@.len(),
            out@ == start + point_words(ps@.take(j as int)),
        decreases ps@.len() - j,
    {
        let p = ps[j];
        let ghost before = out@;
        out.push(p.lat_deg);
        out.push(p.lon_deg);
        out.push(p.bed_m);
        out.push(p.width_m);
        out.push(p.depth_m);
        out.push(p.flow_m2);
        proof {
            let next = point_words(ps@.take(j + 1));
            let prev = point_words(ps@.take(j as int));
            assert forall|i: int| 0 <= i < 6 * (j + 1) implies #[trigger] next[i] == (prev + seq![p.lat_deg,
                p.lon_deg, p.bed_m, p.width_m, p.depth_m, p.flow_m2])[i] by {
                if i < 6 * j {
                    assert(i / 6 < j);
                } else {
                    assert(i / 6 == j);
                }
            }
            assert(next =~= prev + seq![p.lat_deg, p.lon_deg, p.bed_m, p.width_m, p.depth_m, p.flow_m2]);
        }
        j += 1;
    }
    assert(ps@.take(ps@.len() as int) =~= ps@);
}

fn encode_reach(out: &mut Vec<u64>, r: &ReachLine)
    requires
        r.points@.len() <= u32::MAX,
    ensures
        final(out)@ == old(out)@ + reach_words(*r),
{
    let ghost start = out@;
    out.push(u32_word_of(r.id));
    out.push(u32_word_of(reach_class_code(r.class)));
    out.push(u32_word_of(r.order));
    let (kind, id) = downstream_words(r.downstream);
    out.push(u32_word_of(kind));
    out.push(optional_word_of(id));
    out.push(u32_word_of(bool_code(r.fresh)));
    out.push(u32_word_of(r.points.len() as u32));
    let ghost fixed = out@;
    push_points(out, &r.points);
    proof {
        assert(fixed =~= start + reach_words(*r).take(7));
        assert(out@ =~= start + reach_words(*r));
    }
}

/// Reads the reach that starts at word `pos`.
#[verifier::spinoff_prover]
#[verifier::rlimit(60)]
fn decode_reach(words: &Vec<u64>, pos: usize) -> (read: Option<(ReachLine, usize)>)
    requires
        pos <= words@.len(),
    ensures
        read matches Some((r, end)) ==> end == pos + reach_size(r) && end <= words@.len() && reach_valid(r)
            && reach_reads_as(r, words@.subrange(pos as int, end as int)),
        forall|c: ReachLine|
            reach_valid(c) && pos + reach_size(c) <= words@.len() && #[trigger] reach_reads_as(c,
                words@.subrange(pos as int, pos + reach_size(c))) ==> (read matches Some((r, end)) && same_reach(r, c)
                && end == pos + reach_size(c)),
{
    let ghost w = words@;
    if words.len() - pos < 7 {
        return None;
    }
    let id = match word_to_u32(words[pos]) {
        Some(v) => v,
        None => return None,
    };
    let class = match word_to_reach_class(words[pos + 1]) {
        Some(v) => v,
        None => return None,
    };
    let order = match word_to_u32(words[pos + 2]) {
        Some(v) => v,
        None => return None,
    };
    let downstream = match words_to_downstream(words[pos + 3], words[pos + 4]) {
        Some(v) => v,
        None => return None,
    };
    let fresh = match word_to_flag(words[pos + 5]) {
        Some(v) => v,
        None => return None,
    };
    let count = match word_to_u32(words[pos + 6]) {
        Some(v) => v,
        None => return None,
    };
    let start = pos + 7;
    if !count_fits(count as usize, 6, words.len() - start) {
        return None;
    }
    let mut points: Vec<ReachPoint> = Vec::new();
    let mut j: usize = 0;
    while j < count as usize
        invariant
            w == words@,
            j <= count,
            start + 6 * count <= words.len(),
            points@.len() == j,
            point_words(points@) == w.subrange(start as int, start + 6 * j),
        decreases count - j,
    {
        let p = start + 6 * j;
        let ghost old_p = points@;
        let point = ReachPoint {
            lat_deg: words[p],
            lon_deg: words[p + 1],
            bed_m: words[p + 2],
            width_m: words[p + 3],
            depth_m: words[p + 4],
            flow_m2: words[p + 5],
        };
        points.push(point);
        proof {
            let t = w.subrange(start as int, start + 6 * (j + 1));
            assert forall|i: int| 0 <= i < 6 * (j + 1) implies #[trigger] point_words(points@)[i] == t[i] by {
                if i < 6 * j {
                    assert(i / 6 < j);
                    assert(points@[i / 6] == old_p[i / 6]);
                    assert(point_words(old_p)[i] == w.subrange(start as int, start + 6 * j)[i]);
                } else {
                    assert(i / 6 == j);
                    assert(points@[j as int] == point);
                }
            }
            assert(point_words(points@) =~= t);
        }
        j += 1;
    }
    let end = start + 6 * (count as usize);
    let r = ReachLine { id, class, order, downstream, fresh, points };
    proof {
        let sub = w.subrange(pos as int, end as int);
        assert(sub.subrange(7, sub.len() as int) =~= w.subrange(start as int, end as int));
        assert(reach_reads_as(r, sub));
        assert forall|c: ReachLine|
            reach_valid(c) && pos + reach_size(c) <= w.len() && #[trigger] reach_reads_as(c, w.subrange(pos as int,
                pos + reach_size(c))) implies same_reach(r, c) && end == pos + reach_size(c) by {
            let cs = w.subrange(pos as int, pos + reach_size(c));
            assert(cs[6] == w[pos + 6]);
            assert(c.points@.len() == count);
            assert(cs =~= sub);
            lemma_point_words_injective(r.points@, c.points@);
        }
    }
    Some((r, end))
}

// ---- notches and falls, written and read ---------------------------------------------------

/// One of a notch point's four words.
pub open spec fn quad_field(q: (u64, u64, u64, u64), f: int) -> u64 {
    if f == 0 {
        q.0
    } else if f == 1 {
        q.1
    } else if f == 2 {
        q.2
    } else {
        q.3
    }
}

/// A notch's points as words: four per point, point after point.
pub open spec fn quad_words(qs: Seq<(u64, u64, u64, u64)>) -> Seq<u64> {
    Seq::new(4 * qs.len(), |i: int| quad_field(qs[i / 4], i % 4))
}

/// The words a notch takes: its point count, then four per point.
pub open spec fn notch_size(n: NotchLine) -> nat {
    1 + 4 * n.points@.len()
}

/// The words a notch is written as.
pub open spec fn notch_words(n: NotchLine) -> Seq<u64> {
    seq![u32_word(n.points@.len() as u32)] + quad_words(n.points@)
}

/// A notch a reader accepts: its point count is a count.
pub open spec fn notch_valid(n: NotchLine) -> bool {
    n.points@.len() <= u32::MAX
}

/// The words `w` are a notch's words.
pub open spec fn notch_reads_as(n: NotchLine, w: Seq<u64>) -> bool {
    &&& w.len() == notch_size(n)
    &&& denotes_u32(w[0], n.points@.len() as u32)
    &&& w.subrange(1, w.len() as int) == quad_words(n.points@)
}

proof fn lemma_quad_words_injective(a: Seq<(u64, u64, u64, u64)>, b: Seq<(u64, u64, u64, u64)>)
    requires
        quad_words(a) == quad_words(b),
    ensures
        a == b,
{
    assert(quad_words(a).len() == 4 * a.len());
    assert(quad_words(b).len() == 4 * b.len());
    assert forall|j: int| 0 <= j < a.len() implies a[j] == b[j] by {
        assert forall|f: int| 0 <= f < 4 implies quad_field(a[j], f) == quad_field(b[j], f) by {
            assert((4 * j + f) / 4 == j && (4 * j + f) % 4 == f);
            assert(quad_words(a)[4 * j + f] == quad_words(b)[4 * j + f]);
            assert(quad_words(a)[4 * j + f] == quad_field(a[j], f));
            assert(quad_words(b)[4 * j + f] == quad_field(b[j], f));
        }
        assert(quad_field(a[j], 0) == quad_field(b[j], 0));
        assert(quad_field(a[j], 1) == quad_field(b[j], 1));
        assert(quad_field(a[j], 2) == quad_field(b[j], 2));
        assert(quad_field(a[j], 3) == quad_field(b[j], 3));
    }
    assert(a =~= b);
}

fn encode_notch(out: &mut Vec<u64>, n: &NotchLine)
    requires
        n.points@.len() <= u32::MAX,
    ensures
        final(out)@ == old(out)@ + notch_words(*n),
{
    let ghost start = out@;
    out.push(u32_word_of(n.points.len() as u32));
    let mut j: usize = 0;
    while j < n.points.len()
        invariant
            j <= n.points@.len(),
            out@ == start + seq![u32_word(n.points@.len() as u32)] + quad_words(n.points@.take(j as int)),
        decreases n.points@.len() - j,
    {
        let q = n.points[j];
        out.push(q.0);
        out.push(q.1);
        out.push(q.2);
        out.push(q.3);
        proof {
            let next = quad_words(n.points@.take(j + 1));
            let prev = quad_words(n.points@.take(j as int));
            assert forall|i: int| 0 <= i < 4 * (j + 1) implies #[trigger] next[i] == (prev + seq![q.0, q.1, q.2,
                q.3])[i] by {
                if i < 4 * j {
                    assert(i / 4 < j);
                } else {
                    assert(i / 4 == j);
                }
            }
            assert(next =~= prev + seq![q.0, q.1, q.2, q.3]);
        }
        j += 1;
    }
    assert(n.points@.take(n.points@.len() as int) =~= n.points@);
    assert(out@ =~= start + notch_words(*n));
}

/// Reads the notch that starts at word `pos`.
#[verifier::spinoff_prover]
fn decode_notch(words: &Vec<u64>, pos: usize) -> (read: Option<(NotchLine, usize)>)
    requires
        pos <= words@.len(),
    ensures
        read matches Some((n, end)) ==> end == pos + notch_size(n) && end <= words@.len() && notch_valid(n)
            && notch_reads_as(n, words@.subrange(pos as int, end as int)),
        forall|c: NotchLine|
            notch_valid(c) && pos + notch_size(c) <= words@.len() && #[trigger] notch_reads_as(c,
                words@.subrange(pos as int, pos + notch_size(c))) ==> (read matches Some((n, end)) && n.points@
                == c.points@ && end == pos + notch_size(c)),
{
    let ghost w = words@;
    if words.len() - pos < 1 {
        return None;
    }
    let count = match word_to_u32(words[pos]) {
        Some(v) => v,
        None => return None,
    };
    let start = pos + 1;
    if !count_fits(count as usize, 4, words.len() - start) {
        return None;
    }
    let mut points: Vec<(u64, u64, u64, u64)> = Vec::new();
    let mut j: usize = 0;
    while j < count as usize
        invariant
            w == words@,
            j <= count,
            start + 4 * count <= words.len(),
            points@.len() == j,
            quad_words(points@) == w.subrange(start as int, start + 4 * j),
        decreases count - j,
    {
        let p = start + 4 * j;
        let ghost old_p = points@;
        let q = (words[p], words[p + 1], words[p + 2], words[p + 3]);
        points.push(q);
        proof {
            let t = w.subrange(start as int, start + 4 * (j + 1));
            assert forall|i: int| 0 <= i < 4 * (j + 1) implies #[trigger] quad_words(points@)[i] == t[i] by {
                if i < 4 * j {
                    assert(i / 4 < j);
                    assert(points@[i / 4] == old_p[i / 4]);
                    assert(quad_words(old_p)[i] == w.subrange(start as int, start + 4 * j)[i]);
                } else {
                    assert(i / 4 == j);
                    assert(points@[j as int] == q);
                }
            }
            assert(quad_words(points@) =~= t);
        }
        j += 1;
    }
    let end = start + 4 * (count as usize);
    let n = NotchLine { points };
    proof {
        let sub = w.subrange(pos as int, end as int);
        assert(sub.subrange(1, sub.len() as int) =~= w.subrange(start as int, end as int));
        assert(notch_reads_as(n, sub));
        assert forall|c: NotchLine|
            notch_valid(c) && pos + notch_size(c) <= w.len() && #[trigger] notch_reads_as(c, w.subrange(pos as int,
                pos + notch_size(c))) implies n.points@ == c.points@ && end == pos + notch_size(c) by {
            let cs = w.subrange(pos as int, pos + notch_size(c));
            assert(cs[0] == w[pos as int]);
            assert(c.points@.len() == count);
            assert(cs =~= sub);
            lemma_quad_words_injective(n.points@, c.points@);
        }
    }
    Some((n, end))
}

/// The four words of a fall.
pub open spec fn fall_words(f: Fall) -> Seq<u64> {
    seq![u32_word(f.reach), f.at.0, f.at.1, f.height_m]
}

/// The words `w` are a fall's words.
pub open spec fn fall_reads_as(f: Fall, w: Seq<u64>) -> bool {
    &&& w.len() == 4
    &&& denotes_u32(w[0], f.reach)
    &&& w[1] == f.at.0
    &&& w[2] == f.at.1
    &&& w[3] == f.height_m
}

/// Reads the fall that starts at word `pos`.
fn decode_fall(words: &Vec<u64>, pos: usize) -> (read: Option<Fall>)
    requires
        pos + 4 <= words.len(),
    ensures
        read matches Some(f) ==> fall_reads_as(f, words@.subrange(pos as int, pos + 4)),
        forall|c: Fall| #[trigger] fall_reads_as(c, words@.subrange(pos as int, pos + 4)) ==> read == Some(c),
{
    let reach = match word_to_u32(words[pos]) {
        Some(v) => v,
        None => return None,
    };
    let f = Fall { reach, at: (words[pos + 1], words[pos + 2]), height_m: words[pos + 3] };
    proof {
        let sub = words@.subrange(pos as int, pos + 4);
        assert(sub[0] == words@[pos as int] && sub[1] == words@[pos + 1] && sub[2] == words@[pos + 2] && sub[3]
            == words@[pos + 3]);
    }
    Some(f)
}

// ---- the header, written and read ------------------------------------------------------

/// The header's words: the schema, the body, reach, notch and fall counts, the bake's counts and
/// parameters, and the ground fingerprint's four words.
pub open spec fn header_words(stats: BakeStats, counts: (u32, u32, u32, u32), ground: Seq<u8>) -> Seq<u64> {
    seq![
        u32_word(SCHEMA_VERSION),
        u32_word(counts.0),
        u32_word(counts.1),
        u32_word(counts.2),
        u32_word(counts.3),
        u32_word(stats.nodes),
        u32_word(stats.land_nodes),
        u32_word(stats.hollows),
        u32_word(stats.kept),
        u32_word(stats.notched),
        u32_word(stats.closed),
        u32_word(stats.streams),
        u32_word(stats.rivers),
        u32_word(stats.great),
        u32_word(stats.max_order),
        stats.bifurcation_min,
        stats.bifurcation_max,
        stats.stream_flow_m2,
        stats.river_flow_m2,
        stats.great_flow_m2,
        u32_word(stats.total_nodes),
        u32_word(stats.wetness_nodes),
        stats.keep_depth_m,
        stats.keep_area_m2,
        stats.pond_max_area_m2,
        stats.keep_max_area_m2,
        stats.min_stream_nodes,
        stats.notch_fall_m,
        stats.evaporation_factor,
        stats.salt_flat_share,
        u32_word(stats.forced_requested),
        u32_word(stats.forced_matched),
        u32_word(stats.capped_basins),
        u32_word(stats.capped_inner),
        u32_word(stats.capped_inner_kept),
        stats.refine_step_m,
        stats.refine_simplify_m,
        stats.refine_vertical_m,
        stats.fall_min_drop_m,
        stats.fall_max_run_m,
        stats.meander_wavelength_widths,
        stats.meander_amplitude_widths,
        stats.meander_max_slope,
        u32_word(stats.crossings_coarse),
        u32_word(stats.crossings_left),
        u32_word(stats.ponds_found),
        u32_word(stats.ponds_kept),
        stats.pond_cell_m,
        stats.pond_search_radius_m,
        stats.pond_keep_depth_m,
        stats.pond_keep_area_m2,
        stats.pond_wetness_share,
        stats.pond_max_slope,
        stats.pond_density_area_m2,
        u32_word(stats.shore_members),
        u32_word(stats.collar_points),
        u32_word(ground_words_spec(ground)[0]),
        u32_word(ground_words_spec(ground)[1]),
        u32_word(ground_words_spec(ground)[2]),
        u32_word(ground_words_spec(ground)[3]),
    ]
}

/// The words `w` are a header's words.
pub open spec fn header_reads_as(stats: BakeStats, counts: (u32, u32, u32, u32), ground: Seq<u8>, w: Seq<u64>) -> bool {
    &&& w.len() == 60
    &&& denotes_u32(w[0], SCHEMA_VERSION)
    &&& denotes_u32(w[1], counts.0)
    &&& denotes_u32(w[2], counts.1)
    &&& denotes_u32(w[3], counts.2)
    &&& denotes_u32(w[4], counts.3)
    &&& denotes_u32(w[5], stats.nodes)
    &&& denotes_u32(w[6], stats.land_nodes)
    &&& denotes_u32(w[7], stats.hollows)
    &&& denotes_u32(w[8], stats.kept)
    &&& denotes_u32(w[9], stats.notched)
    &&& denotes_u32(w[10], stats.closed)
    &&& denotes_u32(w[11], stats.streams)
    &&& denotes_u32(w[12], stats.rivers)
    &&& denotes_u32(w[13], stats.great)
    &&& denotes_u32(w[14], stats.max_order)
    &&& w[15] == stats.bifurcation_min
    &&& w[16] == stats.bifurcation_max
    &&& w[17] == stats.stream_flow_m2
    &&& w[18] == stats.river_flow_m2
    &&& w[19] == stats.great_flow_m2
    &&& denotes_u32(w[20], stats.total_nodes)
    &&& denotes_u32(w[21], stats.wetness_nodes)
    &&& w[22] == stats.keep_depth_m
    &&& w[23] == stats.keep_area_m2
    &&& w[24] == stats.pond_max_area_m2
    &&& w[25] == stats.keep_max_area_m2
    &&& w[26] == stats.min_stream_nodes
    &&& w[27] == stats.notch_fall_m
    &&& w[28] == stats.evaporation_factor
    &&& w[29] == stats.salt_flat_share
    &&& denotes_u32(w[30], stats.forced_requested)
    &&& denotes_u32(w[31], stats.forced_matched)
    &&& denotes_u32(w[32], stats.capped_basins)
    &&& denotes_u32(w[33], stats.capped_inner)
    &&& denotes_u32(w[34], stats.capped_inner_kept)
    &&& w[35] == stats.refine_step_m
    &&& w[36] == stats.refine_simplify_m
    &&& w[37] == stats.refine_vertical_m
    &&& w[38] == stats.fall_min_drop_m
    &&& w[39] == stats.fall_max_run_m
    &&& w[40] == stats.meander_wavelength_widths
    &&& w[41] == stats.meander_amplitude_widths
    &&& w[42] == stats.meander_max_slope
    &&& denotes_u32(w[43], stats.crossings_coarse)
    &&& denotes_u32(w[44], stats.crossings_left)
    &&& denotes_u32(w[45], stats.ponds_found)
    &&& denotes_u32(w[46], stats.ponds_kept)
    &&& w[47] == stats.pond_cell_m
    &&& w[48] == stats.pond_search_radius_m
    &&& w[49] == stats.pond_keep_depth_m
    &&& w[50] == stats.pond_keep_area_m2
    &&& w[51] == stats.pond_wetness_share
    &&& w[52] == stats.pond_max_slope
    &&& w[53] == stats.pond_density_area_m2
    &&& denotes_u32(w[54], stats.shore_members)
    &&& denotes_u32(w[55], stats.collar_points)
    &&& denotes_u32(w[56], ground_words_spec(ground)[0])
    &&& denotes_u32(w[57], ground_words_spec(ground)[1])
    &&& denotes_u32(w[58], ground_words_spec(ground)[2])
    &&& denotes_u32(w[59], ground_words_spec(ground)[3])
}

/// Reads the word at `i` as an index.
fn read_u32_at(words: &Vec<u64>, i: usize) -> (v: Option<u32>)
    requires
        i < words@.len(),
    ensures
        forall|m: u32| v == Some(m) <==> denotes_u32(words@[i as int], m),
{
    word_to_u32(words[i])
}

fn encode_header(out: &mut Vec<u64>, stats: &BakeStats, counts: (u32, u32, u32, u32), ground: &[u8; 16])
    ensures
        final(out)@ == old(out)@ + header_words(*stats, counts, ground@),
{
    let ghost start = out@;
    out.push(u32_word_of(SCHEMA_VERSION));
    out.push(u32_word_of(counts.0));
    out.push(u32_word_of(counts.1));
    out.push(u32_word_of(counts.2));
    out.push(u32_word_of(counts.3));
    out.push(u32_word_of(stats.nodes));
    out.push(u32_word_of(stats.land_nodes));
    out.push(u32_word_of(stats.hollows));
    out.push(u32_word_of(stats.kept));
    out.push(u32_word_of(stats.notched));
    out.push(u32_word_of(stats.closed));
    out.push(u32_word_of(stats.streams));
    out.push(u32_word_of(stats.rivers));
    out.push(u32_word_of(stats.great));
    out.push(u32_word_of(stats.max_order));
    out.push(stats.bifurcation_min);
    out.push(stats.bifurcation_max);
    out.push(stats.stream_flow_m2);
    out.push(stats.river_flow_m2);
    out.push(stats.great_flow_m2);
    out.push(u32_word_of(stats.total_nodes));
    out.push(u32_word_of(stats.wetness_nodes));
    out.push(stats.keep_depth_m);
    out.push(stats.keep_area_m2);
    out.push(stats.pond_max_area_m2);
    out.push(stats.keep_max_area_m2);
    out.push(stats.min_stream_nodes);
    out.push(stats.notch_fall_m);
    out.push(stats.evaporation_factor);
    out.push(stats.salt_flat_share);
    out.push(u32_word_of(stats.forced_requested));
    out.push(u32_word_of(stats.forced_matched));
    out.push(u32_word_of(stats.capped_basins));
    out.push(u32_word_of(stats.capped_inner));
    out.push(u32_word_of(stats.capped_inner_kept));
    out.push(stats.refine_step_m);
    out.push(stats.refine_simplify_m);
    out.push(stats.refine_vertical_m);
    out.push(stats.fall_min_drop_m);
    out.push(stats.fall_max_run_m);
    out.push(stats.meander_wavelength_widths);
    out.push(stats.meander_amplitude_widths);
    out.push(stats.meander_max_slope);
    out.push(u32_word_of(stats.crossings_coarse));
    out.push(u32_word_of(stats.crossings_left));
    out.push(u32_word_of(stats.ponds_found));
    out.push(u32_word_of(stats.ponds_kept));
    out.push(stats.pond_cell_m);
    out.push(stats.pond_search_radius_m);
    out.push(stats.pond_keep_depth_m);
    out.push(stats.pond_keep_area_m2);
    out.push(stats.pond_wetness_share);
    out.push(stats.pond_max_slope);
    out.push(stats.pond_density_area_m2);
    out.push(u32_word_of(stats.shore_members));
    out.push(u32_word_of(stats.collar_points));
    let g = ground_words(ground);
    out.push(u32_word_of(g[0]));
    out.push(u32_word_of(g[1]));
    out.push(u32_word_of(g[2]));
    out.push(u32_word_of(g[3]));
    proof {
        assert(out@ =~= start + header_words(*stats, counts, ground@));
    }
}

proof fn lemma_header_words_read(stats: BakeStats, counts: (u32, u32, u32, u32), ground: Seq<u8>)
    requires
        ground.len() == 16,
    ensures
        header_reads_as(stats, counts, ground, header_words(stats, counts, ground)),
{
    let w = header_words(stats, counts, ground);
    assert forall|n: u32| #[trigger] denotes_u32(u32_word(n), n) by {
        lemma_u32_word_reads_back(n);
        lemma_word_to_u32_denotes(u32_word(n), n);
    }
    assert(w.len() == 60);
}

/// Reads the header at the front of `words`.
#[verifier::spinoff_prover]
#[verifier::rlimit(80)]
fn decode_header(words: &Vec<u64>) -> (read: Option<(BakeStats, (u32, u32, u32, u32), [u8; 16])>)
    requires
        words@.len() >= 60,
    ensures
        read matches Some((stats, counts, ground)) ==> header_reads_as(stats, counts, ground@, words@.take(60)),
        forall|stats: BakeStats, counts: (u32, u32, u32, u32), ground: Seq<u8>|
            ground.len() == 16 && #[trigger] header_reads_as(stats, counts, ground, words@.take(60)) ==> (read matches Some(
                (s, c, g),
            ) && s == stats && c == counts && g@ == ground),
{
    let ghost h = words@.take(60);
    proof {
        assert forall|i: int| 0 <= i < 60 implies #[trigger] h[i] == words@[i] by {}
    }
    match read_u32_at(words, 0) {
        Some(v) => {
            if v != SCHEMA_VERSION {
                return None;
            }
        },
        None => return None,
    }
    let c0 = match read_u32_at(words, 1) {
        Some(v) => v,
        None => return None,
    };
    let c1 = match read_u32_at(words, 2) {
        Some(v) => v,
        None => return None,
    };
    let c2 = match read_u32_at(words, 3) {
        Some(v) => v,
        None => return None,
    };
    let c3 = match read_u32_at(words, 4) {
        Some(v) => v,
        None => return None,
    };
    let nodes = match read_u32_at(words, 5) {
        Some(v) => v,
        None => return None,
    };
    let land_nodes = match read_u32_at(words, 6) {
        Some(v) => v,
        None => return None,
    };
    let hollows = match read_u32_at(words, 7) {
        Some(v) => v,
        None => return None,
    };
    let kept = match read_u32_at(words, 8) {
        Some(v) => v,
        None => return None,
    };
    let notched = match read_u32_at(words, 9) {
        Some(v) => v,
        None => return None,
    };
    let closed = match read_u32_at(words, 10) {
        Some(v) => v,
        None => return None,
    };
    let streams = match read_u32_at(words, 11) {
        Some(v) => v,
        None => return None,
    };
    let rivers = match read_u32_at(words, 12) {
        Some(v) => v,
        None => return None,
    };
    let great = match read_u32_at(words, 13) {
        Some(v) => v,
        None => return None,
    };
    let max_order = match read_u32_at(words, 14) {
        Some(v) => v,
        None => return None,
    };
    let bifurcation_min = words[15];
    let bifurcation_max = words[16];
    let stream_flow_m2 = words[17];
    let river_flow_m2 = words[18];
    let great_flow_m2 = words[19];
    let total_nodes = match read_u32_at(words, 20) {
        Some(v) => v,
        None => return None,
    };
    let wetness_nodes = match read_u32_at(words, 21) {
        Some(v) => v,
        None => return None,
    };
    let keep_depth_m = words[22];
    let keep_area_m2 = words[23];
    let pond_max_area_m2 = words[24];
    let keep_max_area_m2 = words[25];
    let min_stream_nodes = words[26];
    let notch_fall_m = words[27];
    let evaporation_factor = words[28];
    let salt_flat_share = words[29];
    let forced_requested = match read_u32_at(words, 30) {
        Some(v) => v,
        None => return None,
    };
    let forced_matched = match read_u32_at(words, 31) {
        Some(v) => v,
        None => return None,
    };
    let capped_basins = match read_u32_at(words, 32) {
        Some(v) => v,
        None => return None,
    };
    let capped_inner = match read_u32_at(words, 33) {
        Some(v) => v,
        None => return None,
    };
    let capped_inner_kept = match read_u32_at(words, 34) {
        Some(v) => v,
        None => return None,
    };
    let refine_step_m = words[35];
    let refine_simplify_m = words[36];
    let refine_vertical_m = words[37];
    let fall_min_drop_m = words[38];
    let fall_max_run_m = words[39];
    let meander_wavelength_widths = words[40];
    let meander_amplitude_widths = words[41];
    let meander_max_slope = words[42];
    let crossings_coarse = match read_u32_at(words, 43) {
        Some(v) => v,
        None => return None,
    };
    let crossings_left = match read_u32_at(words, 44) {
        Some(v) => v,
        None => return None,
    };
    let ponds_found = match read_u32_at(words, 45) {
        Some(v) => v,
        None => return None,
    };
    let ponds_kept = match read_u32_at(words, 46) {
        Some(v) => v,
        None => return None,
    };
    let pond_cell_m = words[47];
    let pond_search_radius_m = words[48];
    let pond_keep_depth_m = words[49];
    let pond_keep_area_m2 = words[50];
    let pond_wetness_share = words[51];
    let pond_max_slope = words[52];
    let pond_density_area_m2 = words[53];
    let shore_members = match read_u32_at(words, 54) {
        Some(v) => v,
        None => return None,
    };
    let collar_points = match read_u32_at(words, 55) {
        Some(v) => v,
        None => return None,
    };
    let g0 = match read_u32_at(words, 56) {
        Some(v) => v,
        None => return None,
    };
    let g1 = match read_u32_at(words, 57) {
        Some(v) => v,
        None => return None,
    };
    let g2 = match read_u32_at(words, 58) {
        Some(v) => v,
        None => return None,
    };
    let g3 = match read_u32_at(words, 59) {
        Some(v) => v,
        None => return None,
    };
    let gw = [g0, g1, g2, g3];
    let ground = ground_of_words(&gw);
    let stats = BakeStats {
        nodes,
        land_nodes,
        hollows,
        kept,
        notched,
        closed,
        streams,
        rivers,
        great,
        max_order,
        bifurcation_min,
        bifurcation_max,
        stream_flow_m2,
        river_flow_m2,
        great_flow_m2,
        total_nodes,
        wetness_nodes,
        keep_depth_m,
        keep_area_m2,
        pond_max_area_m2,
        keep_max_area_m2,
        min_stream_nodes,
        notch_fall_m,
        evaporation_factor,
        salt_flat_share,
        forced_requested,
        forced_matched,
        capped_basins,
        capped_inner,
        capped_inner_kept,
        refine_step_m,
        refine_simplify_m,
        refine_vertical_m,
        fall_min_drop_m,
        fall_max_run_m,
        meander_wavelength_widths,
        meander_amplitude_widths,
        meander_max_slope,
        crossings_coarse,
        crossings_left,
        ponds_found,
        ponds_kept,
        pond_cell_m,
        pond_search_radius_m,
        pond_keep_depth_m,
        pond_keep_area_m2,
        pond_wetness_share,
        pond_max_slope,
        pond_density_area_m2,
        shore_members,
        collar_points,
    };
    let counts = (c0, c1, c2, c3);
    proof {
        assert(gw@ =~= seq![g0, g1, g2, g3]);
        assert forall|st: BakeStats, cs: (u32, u32, u32, u32), gr: Seq<u8>|
            gr.len() == 16 && #[trigger] header_reads_as(st, cs, gr, h) implies st == stats && cs == counts && ground@ == gr by {
            assert(ground_words_spec(gr) =~= ground_words_spec(ground@));
            crate::record::lemma_ground_words_determine_the_digest(gr, ground@);
        }
    }
    Some((stats, counts, ground))
}

// ---- the whole record ----------------------------------------------------------------

pub open spec fn body_sizer() -> spec_fn(Body) -> nat {
    |b: Body| body_size(b)
}

pub open spec fn body_writer() -> spec_fn(Body) -> Seq<u64> {
    |b: Body| body_words(b)
}

pub open spec fn reach_sizer() -> spec_fn(ReachLine) -> nat {
    |r: ReachLine| reach_size(r)
}

pub open spec fn reach_writer() -> spec_fn(ReachLine) -> Seq<u64> {
    |r: ReachLine| reach_words(r)
}

pub open spec fn notch_sizer() -> spec_fn(NotchLine) -> nat {
    |n: NotchLine| notch_size(n)
}

pub open spec fn notch_writer() -> spec_fn(NotchLine) -> Seq<u64> {
    |n: NotchLine| notch_words(n)
}

pub open spec fn fall_writer() -> spec_fn(Fall) -> Seq<u64> {
    |f: Fall| fall_words(f)
}

pub open spec fn fall_sizer() -> spec_fn(Fall) -> nat {
    |f: Fall| 4nat
}

/// The record's four item counts, as its header gives them.
pub open spec fn record_counts(r: HydroRecord) -> (u32, u32, u32, u32) {
    (r.bodies@.len() as u32, r.reaches@.len() as u32, r.notches@.len() as u32, r.falls@.len() as u32)
}

/// Where the record's reaches start.
pub open spec fn reaches_at(r: HydroRecord) -> nat {
    60 + items_size(r.bodies@, body_sizer())
}

/// Where the record's notches start.
pub open spec fn notches_at(r: HydroRecord) -> nat {
    reaches_at(r) + items_size(r.reaches@, reach_sizer())
}

/// Where the record's falls start.
pub open spec fn falls_at(r: HydroRecord) -> nat {
    notches_at(r) + items_size(r.notches@, notch_sizer())
}

/// The words a record is written as.
pub open spec fn record_words(r: HydroRecord) -> Seq<u64> {
    header_words(r.stats, record_counts(r), r.ground@) + items_words(r.bodies@, body_writer()) + items_words(
        r.reaches@,
        reach_writer(),
    ) + items_words(r.notches@, notch_writer()) + items_words(r.falls@, fall_writer())
}

/// A record a reader accepts: each of its counts is a count, and each of its items is one a
/// reader accepts.
pub open spec fn record_valid(r: HydroRecord) -> bool {
    &&& r.bodies@.len() <= u32::MAX
    &&& r.reaches@.len() <= u32::MAX
    &&& r.notches@.len() <= u32::MAX
    &&& r.falls@.len() <= u32::MAX
    &&& forall|k: int| 0 <= k < r.bodies@.len() ==> body_valid(#[trigger] r.bodies@[k])
    &&& forall|k: int| 0 <= k < r.reaches@.len() ==> reach_valid(#[trigger] r.reaches@[k])
    &&& forall|k: int| 0 <= k < r.notches@.len() ==> notch_valid(#[trigger] r.notches@[k])
}

/// A record that can be written: each of its counts fits a count word. (Writing does not ask
/// that a reader would accept it.)
pub open spec fn record_writable(r: HydroRecord) -> bool {
    &&& r.bodies@.len() <= u32::MAX
    &&& r.reaches@.len() <= u32::MAX
    &&& r.notches@.len() <= u32::MAX
    &&& r.falls@.len() <= u32::MAX
    &&& forall|k: int| 0 <= k < r.bodies@.len() ==> (#[trigger] r.bodies@[k]).outline@.len() <= u32::MAX
    &&& forall|k: int| 0 <= k < r.reaches@.len() ==> reach_valid(#[trigger] r.reaches@[k])
    &&& forall|k: int| 0 <= k < r.notches@.len() ==> notch_valid(#[trigger] r.notches@[k])
}

/// The words `w` are exactly a record's words: its header, then each body, reach, notch and
/// fall where the ones before it end, and nothing after.
pub open spec fn record_reads_as(r: HydroRecord, w: Seq<u64>) -> bool {
    &&& w.len() == falls_at(r) + 4 * r.falls@.len()
    &&& header_reads_as(r.stats, record_counts(r), r.ground@, w.take(60))
    &&& forall|k: int|
        0 <= k < r.bodies@.len() ==> #[trigger] body_reads_as(
            r.bodies@[k],
            w.subrange(
                (60 + items_size(r.bodies@.take(k), body_sizer())) as int,
                (60 + items_size(r.bodies@.take(k + 1), body_sizer())) as int,
            ),
        )
    &&& forall|k: int|
        0 <= k < r.reaches@.len() ==> #[trigger] reach_reads_as(
            r.reaches@[k],
            w.subrange(
                (reaches_at(r) + items_size(r.reaches@.take(k), reach_sizer())) as int,
                (reaches_at(r) + items_size(r.reaches@.take(k + 1), reach_sizer())) as int,
            ),
        )
    &&& forall|k: int|
        0 <= k < r.notches@.len() ==> #[trigger] notch_reads_as(
            r.notches@[k],
            w.subrange(
                (notches_at(r) + items_size(r.notches@.take(k), notch_sizer())) as int,
                (notches_at(r) + items_size(r.notches@.take(k + 1), notch_sizer())) as int,
            ),
        )
    &&& forall|k: int|
        0 <= k < r.falls@.len() ==> #[trigger] fall_reads_as(
            r.falls@[k],
            w.subrange(falls_at(r) + 4 * k, falls_at(r) + 4 * k + 4),
        )
}

/// Two records hold the same things.
pub open spec fn same_record(a: HydroRecord, b: HydroRecord) -> bool {
    &&& a.stats == b.stats
    &&& a.ground@ == b.ground@
    &&& a.bodies@.len() == b.bodies@.len()
    &&& forall|k: int| 0 <= k < a.bodies@.len() ==> same_body(#[trigger] a.bodies@[k], b.bodies@[k])
    &&& a.reaches@.len() == b.reaches@.len()
    &&& forall|k: int| 0 <= k < a.reaches@.len() ==> same_reach(#[trigger] a.reaches@[k], b.reaches@[k])
    &&& a.notches@.len() == b.notches@.len()
    &&& forall|k: int| 0 <= k < a.notches@.len() ==> (#[trigger] a.notches@[k]).points@ == b.notches@[k].points@
    &&& a.falls@ == b.falls@
}

proof fn lemma_reach_words_read(r: ReachLine)
    requires
        reach_valid(r),
    ensures
        reach_reads_as(r, reach_words(r)),
{
    lemma_u32_word_reads_back(r.id);
    let w = reach_words(r);
    assert forall|n: u32| #[trigger] denotes_u32(u32_word(n), n) by {
        lemma_u32_word_reads_back(n);
        lemma_word_to_u32_denotes(u32_word(n), n);
    }
    assert(w.subrange(7, w.len() as int) =~= point_words(r.points@));
    assert(denotes_optional(optional_word(downstream_words_spec(r.downstream).1),
        downstream_words_spec(r.downstream).1));
}

proof fn lemma_notch_words_read(n: NotchLine)
    requires
        notch_valid(n),
    ensures
        notch_reads_as(n, notch_words(n)),
{
    let w = notch_words(n);
    assert forall|m: u32| #[trigger] denotes_u32(u32_word(m), m) by {
        lemma_u32_word_reads_back(m);
        lemma_word_to_u32_denotes(u32_word(m), m);
    }
    assert(w.subrange(1, w.len() as int) =~= quad_words(n.points@));
}

proof fn lemma_body_words_read_all(b: Body)
    requires
        body_valid(b),
    ensures
        body_reads_as(b, body_words(b)),
{
    assert forall|m: u32| #[trigger] denotes_u32(u32_word(m), m) by {
        lemma_u32_word_reads_back(m);
        lemma_word_to_u32_denotes(u32_word(m), m);
    }
    lemma_body_words_read(b);
}

pub(crate) proof fn lemma_fall_sizes(s: Seq<Fall>, k: int)
    requires
        0 <= k <= s.len(),
    ensures
        items_size(s.take(k), fall_sizer()) == 4 * k,
    decreases k,
{
    if k > 0 {
        lemma_fall_sizes(s, k - 1);
        lemma_items_size_step(s, fall_sizer(), k - 1);
    }
}

/// The words of the items `s` inside a longer list: the list from `at` on starts with them.
proof fn lemma_inside<T>(
    whole: Seq<u64>,
    at: int,
    s: Seq<T>,
    words: spec_fn(T) -> Seq<u64>,
    size: spec_fn(T) -> nat,
    k: int,
)
    requires
        forall|x: T| #[trigger] words(x).len() == size(x),
        0 <= k < s.len(),
        0 <= at,
        at + items_words(s, words).len() <= whole.len(),
        whole.subrange(at, at + items_words(s, words).len()) == items_words(s, words),
    ensures
        whole.subrange(at + items_size(s.take(k), size), at + items_size(s.take(k + 1), size)) == words(s[k]),
{
    lemma_items_words_at(s, words, size, k);
    lemma_items_words_len(s, words, size);
    let a = items_size(s.take(k), size) as int;
    let b = items_size(s.take(k + 1), size) as int;
    lemma_items_size_grows(s, size, k, k + 1);
    assert(whole.subrange(at + a, at + b) =~= items_words(s, words).subrange(a, b));
}

/// What is written reads back: a record's words are exactly that record's words.
pub proof fn lemma_record_round_trips(r: HydroRecord)
    requires
        record_valid(r),
    ensures
        record_reads_as(r, record_words(r)),
{
    let hw = header_words(r.stats, record_counts(r), r.ground@);
    let bw = items_words(r.bodies@, body_writer());
    let rw = items_words(r.reaches@, reach_writer());
    let nw = items_words(r.notches@, notch_writer());
    let fw = items_words(r.falls@, fall_writer());
    let w = record_words(r);
    assert(w == hw + bw + rw + nw + fw);
    assert(forall|x: Body| #[trigger] body_writer()(x).len() == body_sizer()(x));
    assert(forall|x: ReachLine| #[trigger] reach_writer()(x).len() == reach_sizer()(x));
    assert(forall|x: NotchLine| #[trigger] notch_writer()(x).len() == notch_sizer()(x));
    assert(forall|x: Fall| #[trigger] fall_writer()(x).len() == fall_sizer()(x));
    lemma_items_words_len(r.bodies@, body_writer(), body_sizer());
    lemma_items_words_len(r.reaches@, reach_writer(), reach_sizer());
    lemma_items_words_len(r.notches@, notch_writer(), notch_sizer());
    lemma_items_words_len(r.falls@, fall_writer(), fall_sizer());
    lemma_fall_sizes(r.falls@, r.falls@.len() as int);
    assert(r.falls@.take(r.falls@.len() as int) =~= r.falls@);
    let (b0, r0, n0, f0) = (60int, reaches_at(r) as int, notches_at(r) as int, falls_at(r) as int);
    assert(hw.len() == 60);
    assert(w.take(60) =~= hw);
    lemma_header_words_read(r.stats, record_counts(r), r.ground@);
    assert(w.subrange(b0, r0) =~= bw);
    assert(w.subrange(r0, n0) =~= rw);
    assert(w.subrange(n0, f0) =~= nw);
    assert(w.subrange(f0, f0 + fw.len()) =~= fw);
    assert forall|k: int| 0 <= k < r.bodies@.len() implies #[trigger] body_reads_as(
        r.bodies@[k],
        w.subrange(
            (60 + items_size(r.bodies@.take(k), body_sizer())) as int,
            (60 + items_size(r.bodies@.take(k + 1), body_sizer())) as int,
        ),
    ) by {
        lemma_inside(w, b0, r.bodies@, body_writer(), body_sizer(), k);
        lemma_body_words_read_all(r.bodies@[k]);
    }
    assert forall|k: int| 0 <= k < r.reaches@.len() implies #[trigger] reach_reads_as(
        r.reaches@[k],
        w.subrange(
            (reaches_at(r) + items_size(r.reaches@.take(k), reach_sizer())) as int,
            (reaches_at(r) + items_size(r.reaches@.take(k + 1), reach_sizer())) as int,
        ),
    ) by {
        lemma_inside(w, r0, r.reaches@, reach_writer(), reach_sizer(), k);
        lemma_reach_words_read(r.reaches@[k]);
    }
    assert forall|k: int| 0 <= k < r.notches@.len() implies #[trigger] notch_reads_as(
        r.notches@[k],
        w.subrange(
            (notches_at(r) + items_size(r.notches@.take(k), notch_sizer())) as int,
            (notches_at(r) + items_size(r.notches@.take(k + 1), notch_sizer())) as int,
        ),
    ) by {
        lemma_inside(w, n0, r.notches@, notch_writer(), notch_sizer(), k);
        lemma_notch_words_read(r.notches@[k]);
    }
    assert forall|k: int| 0 <= k < r.falls@.len() implies #[trigger] fall_reads_as(
        r.falls@[k],
        w.subrange(falls_at(r) + 4 * k, falls_at(r) + 4 * k + 4),
    ) by {
        lemma_inside(w, f0, r.falls@, fall_writer(), fall_sizer(), k);
        lemma_fall_sizes(r.falls@, k);
        lemma_fall_sizes(r.falls@, k + 1);
        assert forall|m: u32| #[trigger] denotes_u32(u32_word(m), m) by {
            lemma_u32_word_reads_back(m);
            lemma_word_to_u32_denotes(u32_word(m), m);
        }
    }
}

/// Writes a record as its words.
pub fn encode(record: &HydroRecord) -> (words: Vec<u64>)
    requires
        record_writable(*record),
    ensures
        words@ == record_words(*record),
{
    let mut out: Vec<u64> = Vec::new();
    let counts = (record.bodies.len() as u32, record.reaches.len() as u32, record.notches.len() as u32,
        record.falls.len() as u32);
    encode_header(&mut out, &record.stats, counts, &record.ground);
    let ghost h = out@;
    let mut k: usize = 0;
    while k < record.bodies.len()
        invariant
            record_writable(*record),
            k <= record.bodies@.len(),
            out@ == h + items_words(record.bodies@.take(k as int), body_writer()),
        decreases record.bodies@.len() - k,
    {
        assert(record.bodies@[k as int].outline@.len() <= u32::MAX);
        encode_body(&mut out, &record.bodies[k]);
        proof {
            assert(record.bodies@.take(k + 1).drop_last() =~= record.bodies@.take(k as int));
        }
        k += 1;
    }
    assert(record.bodies@.take(k as int) =~= record.bodies@);
    let ghost hb = out@;
    let mut k: usize = 0;
    while k < record.reaches.len()
        invariant
            record_writable(*record),
            k <= record.reaches@.len(),
            out@ == hb + items_words(record.reaches@.take(k as int), reach_writer()),
        decreases record.reaches@.len() - k,
    {
        assert(reach_valid(record.reaches@[k as int]));
        encode_reach(&mut out, &record.reaches[k]);
        proof {
            assert(record.reaches@.take(k + 1).drop_last() =~= record.reaches@.take(k as int));
        }
        k += 1;
    }
    assert(record.reaches@.take(k as int) =~= record.reaches@);
    let ghost hr = out@;
    let mut k: usize = 0;
    while k < record.notches.len()
        invariant
            record_writable(*record),
            k <= record.notches@.len(),
            out@ == hr + items_words(record.notches@.take(k as int), notch_writer()),
        decreases record.notches@.len() - k,
    {
        assert(notch_valid(record.notches@[k as int]));
        encode_notch(&mut out, &record.notches[k]);
        proof {
            assert(record.notches@.take(k + 1).drop_last() =~= record.notches@.take(k as int));
        }
        k += 1;
    }
    assert(record.notches@.take(k as int) =~= record.notches@);
    let ghost hn = out@;
    let mut k: usize = 0;
    while k < record.falls.len()
        invariant
            k <= record.falls@.len(),
            out@ == hn + items_words(record.falls@.take(k as int), fall_writer()),
        decreases record.falls@.len() - k,
    {
        let f = record.falls[k];
        out.push(u32_word_of(f.reach));
        out.push(f.at.0);
        out.push(f.at.1);
        out.push(f.height_m);
        proof {
            assert(record.falls@.take(k + 1).drop_last() =~= record.falls@.take(k as int));
            assert(out@ =~= hn + items_words(record.falls@.take(k + 1), fall_writer()));
        }
        k += 1;
    }
    assert(record.falls@.take(k as int) =~= record.falls@);
    assert(out@ =~= record_words(*record));
    out
}

/// A record `c` the words could hold: one a reader accepts whose words they exactly are.
pub open spec fn candidate(c: HydroRecord, w: Seq<u64>) -> bool {
    record_valid(c) && record_reads_as(c, w)
}

proof fn lemma_same_bodies_same_size(a: Seq<Body>, b: Seq<Body>)
    requires
        a.len() == b.len(),
        forall|k: int| 0 <= k < a.len() ==> same_body(#[trigger] a[k], b[k]),
    ensures
        items_size(a, body_sizer()) == items_size(b, body_sizer()),
{
    assert forall|k: int| 0 <= k < a.len() implies body_sizer()(#[trigger] a[k]) == body_sizer()(b[k]) by {
        assert(same_body(a[k], b[k]));
    }
    lemma_items_size_same(a, b, body_sizer());
}

proof fn lemma_same_reaches_same_size(a: Seq<ReachLine>, b: Seq<ReachLine>)
    requires
        a.len() == b.len(),
        forall|k: int| 0 <= k < a.len() ==> same_reach(#[trigger] a[k], b[k]),
    ensures
        items_size(a, reach_sizer()) == items_size(b, reach_sizer()),
{
    assert forall|k: int| 0 <= k < a.len() implies reach_sizer()(#[trigger] a[k]) == reach_sizer()(b[k]) by {
        assert(same_reach(a[k], b[k]));
    }
    lemma_items_size_same(a, b, reach_sizer());
}

proof fn lemma_same_notches_same_size(a: Seq<NotchLine>, b: Seq<NotchLine>)
    requires
        a.len() == b.len(),
        forall|k: int| 0 <= k < a.len() ==> (#[trigger] a[k]).points@ == b[k].points@,
    ensures
        items_size(a, notch_sizer()) == items_size(b, notch_sizer()),
{
    assert forall|k: int| 0 <= k < a.len() implies notch_sizer()(#[trigger] a[k]) == notch_sizer()(b[k]) by {
        assert(a[k].points@ == b[k].points@);
    }
    lemma_items_size_same(a, b, notch_sizer());
}

/// Item `k` of a list stands between the words before it and the words up to it, and both
/// fit within the whole list's words.
proof fn lemma_item_bounds<T>(s: Seq<T>, size: spec_fn(T) -> nat, k: int)
    requires
        0 <= k < s.len(),
    ensures
        items_size(s.take(k + 1), size) == items_size(s.take(k), size) + size(s[k]),
        items_size(s.take(k + 1), size) <= items_size(s, size),
{
    lemma_items_size_step(s, size, k);
    lemma_items_size_grows(s, size, k + 1, s.len() as int);
    assert(s.take(s.len() as int) =~= s);
}

/// Every record a reader would accept is accepted from its own words: with `decode`'s own
/// contract, a written record is read back exactly when it is valid -- among the rest, when each
/// body names no shore members or fewer than its outline points, and a finite, non-negative
/// shore reach.
pub proof fn lemma_valid_records_are_read(r: HydroRecord)
    requires
        record_valid(r),
    ensures
        candidate(r, record_words(r)),
{
    lemma_record_round_trips(r);
}

/// A reader accepts only this schema: word zero of anything it reads is the schema number's
/// word.
pub proof fn lemma_read_schema_is_this_one(c: HydroRecord, w: Seq<u64>)
    requires
        candidate(c, w),
    ensures
        w[0] == u32_word(SCHEMA_VERSION),
{
    let h = w.take(60);
    assert(header_reads_as(c.stats, record_counts(c), c.ground@, h));
    assert(h[0] == w[0]);
    assert(SCHEMA_VERSION != 0);
}

/// How a record is written: sixty header words, each body in sixteen words and two per outline
/// point, each reach in seven and six per point, each notch in one and four per point, four
/// words per fall; word zero the schema, words one to four the counts.
pub proof fn lemma_written_layout(r: HydroRecord)
    requires
        record_valid(r),
    ensures
        record_words(r).len() == 60 + items_size(r.bodies@, body_sizer()) + items_size(r.reaches@, reach_sizer())
            + items_size(r.notches@, notch_sizer()) + 4 * r.falls@.len(),
        denotes_u32(record_words(r)[0], SCHEMA_VERSION),
        denotes_u32(record_words(r)[1], r.bodies@.len() as u32),
        denotes_u32(record_words(r)[2], r.reaches@.len() as u32),
        denotes_u32(record_words(r)[3], r.notches@.len() as u32),
        denotes_u32(record_words(r)[4], r.falls@.len() as u32),
        forall|b: Body| #[trigger] body_size(b) == 16 + 2 * b.outline@.len(),
        forall|x: ReachLine| #[trigger] reach_size(x) == 7 + 6 * x.points@.len(),
        forall|x: NotchLine| #[trigger] notch_size(x) == 1 + 4 * x.points@.len(),
{
    lemma_record_round_trips(r);
    let w = record_words(r);
    let h = w.take(60);
    assert(header_reads_as(r.stats, record_counts(r), r.ground@, h));
    assert(h[0] == w[0] && h[1] == w[1] && h[2] == w[2] && h[3] == w[3] && h[4] == w[4]);
}

/// A record that a reader accepts has its counts in words one to four, each the word of a whole
/// number no larger than `u32::MAX` (zero may be written `-0.0`).
pub proof fn lemma_read_counts_are_whole(c: HydroRecord, w: Seq<u64>)
    requires
        candidate(c, w),
    ensures
        denotes_u32(w[1], record_counts(c).0),
        denotes_u32(w[2], record_counts(c).1),
        denotes_u32(w[3], record_counts(c).2),
        denotes_u32(w[4], record_counts(c).3),
        record_counts(c).0 == c.bodies@.len(),
        record_counts(c).1 == c.reaches@.len(),
        record_counts(c).2 == c.notches@.len(),
        record_counts(c).3 == c.falls@.len(),
{
    let h = w.take(60);
    assert(header_reads_as(c.stats, record_counts(c), c.ground@, h));
    assert(h[1] == w[1] && h[2] == w[2] && h[3] == w[3] && h[4] == w[4]);
}

/// A body that a reader accepts names no shore members, or fewer than its outline has points,
/// and its shore reach is a distance: a finite, non-negative number of metres.
pub proof fn lemma_read_body_holds_its_shore(c: HydroRecord, w: Seq<u64>, k: int)
    requires
        candidate(c, w),
        0 <= k < c.bodies@.len(),
    ensures
        c.bodies@[k].shore_member_count == 0 || c.bodies@[k].shore_member_count < c.bodies@[k].outline@.len(),
        is_distance(c.bodies@[k].shore_reach_m),
{
    assert(body_valid(c.bodies@[k]));
}

/// Reads a record from its words. It answers a record exactly when the words are the words of
/// one a reader accepts, and then it answers that record.
#[verifier::spinoff_prover]
#[verifier::rlimit(80)]
pub fn decode(words: &Vec<u64>) -> (read: Option<HydroRecord>)
    ensures
        read matches Some(r) ==> candidate(r, words@),
        forall|c: HydroRecord| #[trigger] candidate(c, words@) ==> (read matches Some(r) && same_record(r, c)),
{
    let ghost w = words@;
    if words.len() < 60 {
        return None;
    }
    let (stats, counts, ground) = match decode_header(words) {
        Some(h) => h,
        None => return None,
    };
    proof {
        assert forall|c: HydroRecord| #[trigger] candidate(c, w) implies c.stats == stats && record_counts(c) == counts
            && c.ground@ == ground@ by {
            assert(c.ground@.len() == 16);
        }
    }
    let (body_count, reach_count, notch_count, fall_count) = counts;
    let mut pos: usize = 60;

    // Bodies: sixteen words each at least.
    if !count_fits(body_count as usize, 16, words.len() - pos) {
        proof {
            assert forall|c: HydroRecord| #[trigger] candidate(c, w) implies false by {
                assert forall|k: int| 0 <= k < c.bodies@.len() implies body_sizer()(#[trigger] c.bodies@[k]) >= 16 by {}
                lemma_items_size_at_least(c.bodies@, body_sizer(), 16);
            }
        }
        return None;
    }
    let mut bodies: Vec<Body> = Vec::new();
    let mut k: usize = 0;
    while k < body_count as usize
        invariant
            w == words@,
            k <= body_count,
            counts == (body_count, reach_count, notch_count, fall_count),
            bodies@.len() == k,
            pos == 60 + items_size(bodies@, body_sizer()),
            pos <= words.len(),
            forall|j: int| 0 <= j < k ==> body_valid(#[trigger] bodies@[j]),
            forall|j: int|
                0 <= j < k ==> #[trigger] body_reads_as(
                    bodies@[j],
                    w.subrange(
                        (60 + items_size(bodies@.take(j), body_sizer())) as int,
                        (60 + items_size(bodies@.take(j + 1), body_sizer())) as int,
                    ),
                ),
            forall|c: HydroRecord|
                #[trigger] candidate(c, w) ==> c.stats == stats && record_counts(c) == counts && c.ground@ == ground@,
            forall|c: HydroRecord|
                #[trigger] candidate(c, w) ==> forall|j: int| 0 <= j < k ==> same_body(#[trigger] bodies@[j], c.bodies@[j]),
        decreases body_count - k,
    {
        proof {
            assert forall|c: HydroRecord| #[trigger] candidate(c, w) implies ({
                let at = 60 + items_size(c.bodies@.take(k as int), body_sizer());
                &&& at == pos
                &&& pos + body_size(c.bodies@[k as int]) <= w.len()
                &&& body_reads_as(c.bodies@[k as int], w.subrange(pos as int, pos + body_size(c.bodies@[k as int])))
                &&& body_valid(c.bodies@[k as int])
            }) by {
                assert(record_valid(c) && c.bodies@.len() <= u32::MAX && record_counts(c).0 == c.bodies@.len() as u32 && counts.0 == body_count); assert(c.bodies@.len() == body_count);
                assert(bodies@ =~= bodies@.take(k as int));
                lemma_same_bodies_same_size(bodies@, c.bodies@.take(k as int));
                lemma_item_bounds(c.bodies@, body_sizer(), k as int);
                assert(body_reads_as(c.bodies@[k as int], w.subrange(
                    (60 + items_size(c.bodies@.take(k as int), body_sizer())) as int,
                    (60 + items_size(c.bodies@.take(k + 1), body_sizer())) as int,
                )));
            }
        }
        let (b, end) = match decode_body(words, pos) {
            Some(x) => x,
            None => return None,
        };
        let ghost before = bodies@;
        bodies.push(b);
        proof {
            assert(bodies@.drop_last() =~= before);
            assert(bodies@.take(k as int) =~= before);
            assert forall|j: int| 0 <= j < k + 1 implies #[trigger] body_reads_as(
                bodies@[j],
                w.subrange(
                    (60 + items_size(bodies@.take(j), body_sizer())) as int,
                    (60 + items_size(bodies@.take(j + 1), body_sizer())) as int,
                ),
            ) by {
                if j < k {
                    assert(bodies@.take(j) =~= before.take(j));
                    assert(bodies@.take(j + 1) =~= before.take(j + 1));
                } else {
                    assert(bodies@.take(j + 1) =~= bodies@);
                }
            }
            assert forall|j: int| 0 <= j < k + 1 implies body_valid(#[trigger] bodies@[j]) by {
                if j < k {
                    assert(bodies@[j] == before[j]);
                }
            }
            assert forall|c: HydroRecord| #[trigger] candidate(c, w) implies forall|j: int| 0 <= j < k + 1 ==> same_body(
                #[trigger] bodies@[j], c.bodies@[j]) by {
                assert forall|j: int| 0 <= j < k + 1 implies same_body(#[trigger] bodies@[j], c.bodies@[j]) by {
                    if j < k {
                        assert(bodies@[j] == before[j]);
                    }
                }
            }
        }
        pos = end;
        k += 1;
    }
    let ghost body_end = pos as int;
    proof {
        assert forall|c: HydroRecord| #[trigger] candidate(c, w) implies reaches_at(c) == pos by {
            assert(bodies@.len() == c.bodies@.len());
            lemma_same_bodies_same_size(bodies@, c.bodies@);
        }
    }

    // Reaches: seven words each at least.
    if !count_fits(reach_count as usize, 7, words.len() - pos) {
        proof {
            assert forall|c: HydroRecord| #[trigger] candidate(c, w) implies false by {
                assert forall|k: int| 0 <= k < c.reaches@.len() implies reach_sizer()(#[trigger] c.reaches@[k]) >= 7 by {}
                lemma_items_size_at_least(c.reaches@, reach_sizer(), 7);
            }
        }
        return None;
    }
    let mut reaches: Vec<ReachLine> = Vec::new();
    let mut k: usize = 0;
    while k < reach_count as usize
        invariant
            w == words@,
            k <= reach_count,
            counts == (body_count, reach_count, notch_count, fall_count),
            reaches@.len() == k,
            pos == body_end + items_size(reaches@, reach_sizer()),
            pos <= words.len(),
            forall|j: int| 0 <= j < k ==> reach_valid(#[trigger] reaches@[j]),
            forall|j: int|
                0 <= j < k ==> #[trigger] reach_reads_as(
                    reaches@[j],
                    w.subrange(
                        (body_end + items_size(reaches@.take(j), reach_sizer())) as int,
                        (body_end + items_size(reaches@.take(j + 1), reach_sizer())) as int,
                    ),
                ),
            forall|c: HydroRecord| #[trigger] candidate(c, w) ==> record_counts(c) == counts && reaches_at(c) == body_end,
            forall|c: HydroRecord|
                #[trigger] candidate(c, w) ==> forall|j: int| 0 <= j < k ==> same_reach(#[trigger] reaches@[j], c.reaches@[j]),
        decreases reach_count - k,
    {
        proof {
            assert forall|c: HydroRecord| #[trigger] candidate(c, w) implies ({
                &&& pos + reach_size(c.reaches@[k as int]) <= w.len()
                &&& reach_reads_as(c.reaches@[k as int], w.subrange(pos as int, pos + reach_size(c.reaches@[k as int])))
                &&& reach_valid(c.reaches@[k as int])
            }) by {
                assert(record_valid(c) && c.reaches@.len() <= u32::MAX && record_counts(c).1 == c.reaches@.len() as u32 && counts.1 == reach_count); assert(c.reaches@.len() == reach_count);
                assert(reaches@ =~= reaches@.take(k as int));
                lemma_same_reaches_same_size(reaches@, c.reaches@.take(k as int));
                lemma_item_bounds(c.reaches@, reach_sizer(), k as int);
                assert(reach_reads_as(c.reaches@[k as int], w.subrange(
                    (reaches_at(c) + items_size(c.reaches@.take(k as int), reach_sizer())) as int,
                    (reaches_at(c) + items_size(c.reaches@.take(k + 1), reach_sizer())) as int,
                )));
            }
        }
        let (r, end) = match decode_reach(words, pos) {
            Some(x) => x,
            None => return None,
        };
        let ghost before = reaches@;
        reaches.push(r);
        proof {
            assert(reaches@.drop_last() =~= before);
            assert(reaches@.take(k as int) =~= before);
            assert forall|j: int| 0 <= j < k + 1 implies #[trigger] reach_reads_as(
                reaches@[j],
                w.subrange(
                    (body_end + items_size(reaches@.take(j), reach_sizer())) as int,
                    (body_end + items_size(reaches@.take(j + 1), reach_sizer())) as int,
                ),
            ) by {
                if j < k {
                    assert(reaches@.take(j) =~= before.take(j));
                    assert(reaches@.take(j + 1) =~= before.take(j + 1));
                } else {
                    assert(reaches@.take(j + 1) =~= reaches@);
                }
            }
            assert forall|j: int| 0 <= j < k + 1 implies reach_valid(#[trigger] reaches@[j]) by {
                if j < k {
                    assert(reaches@[j] == before[j]);
                }
            }
            assert forall|c: HydroRecord| #[trigger] candidate(c, w) implies forall|j: int| 0 <= j < k + 1 ==> same_reach(
                #[trigger] reaches@[j], c.reaches@[j]) by {
                assert forall|j: int| 0 <= j < k + 1 implies same_reach(#[trigger] reaches@[j], c.reaches@[j]) by {
                    if j < k {
                        assert(reaches@[j] == before[j]);
                    }
                }
            }
        }
        pos = end;
        k += 1;
    }
    let ghost reach_end = pos as int;
    proof {
        assert forall|c: HydroRecord| #[trigger] candidate(c, w) implies notches_at(c) == pos by {
            assert(reaches@.len() == c.reaches@.len());
            lemma_same_reaches_same_size(reaches@, c.reaches@);
        }
    }

    // Notches: one word each at least.
    if !count_fits(notch_count as usize, 1, words.len() - pos) {
        proof {
            assert forall|c: HydroRecord| #[trigger] candidate(c, w) implies false by {
                assert forall|k: int| 0 <= k < c.notches@.len() implies notch_sizer()(#[trigger] c.notches@[k]) >= 1 by {}
                lemma_items_size_at_least(c.notches@, notch_sizer(), 1);
            }
        }
        return None;
    }
    let mut notches: Vec<NotchLine> = Vec::new();
    let mut k: usize = 0;
    while k < notch_count as usize
        invariant
            w == words@,
            k <= notch_count,
            counts == (body_count, reach_count, notch_count, fall_count),
            notches@.len() == k,
            pos == reach_end + items_size(notches@, notch_sizer()),
            pos <= words.len(),
            forall|j: int| 0 <= j < k ==> notch_valid(#[trigger] notches@[j]),
            forall|j: int|
                0 <= j < k ==> #[trigger] notch_reads_as(
                    notches@[j],
                    w.subrange(
                        (reach_end + items_size(notches@.take(j), notch_sizer())) as int,
                        (reach_end + items_size(notches@.take(j + 1), notch_sizer())) as int,
                    ),
                ),
            forall|c: HydroRecord| #[trigger] candidate(c, w) ==> record_counts(c) == counts && notches_at(c) == reach_end,
            forall|c: HydroRecord|
                #[trigger] candidate(c, w) ==> forall|j: int| 0 <= j < k ==> (#[trigger] notches@[j]).points@
                    == c.notches@[j].points@,
        decreases notch_count - k,
    {
        proof {
            assert forall|c: HydroRecord| #[trigger] candidate(c, w) implies ({
                &&& pos + notch_size(c.notches@[k as int]) <= w.len()
                &&& notch_reads_as(c.notches@[k as int], w.subrange(pos as int, pos + notch_size(c.notches@[k as int])))
                &&& notch_valid(c.notches@[k as int])
            }) by {
                assert(record_valid(c) && c.notches@.len() <= u32::MAX && record_counts(c).2 == c.notches@.len() as u32 && counts.2 == notch_count); assert(c.notches@.len() == notch_count);
                assert(notches@ =~= notches@.take(k as int));
                lemma_same_notches_same_size(notches@, c.notches@.take(k as int));
                lemma_item_bounds(c.notches@, notch_sizer(), k as int);
                assert(notch_reads_as(c.notches@[k as int], w.subrange(
                    (notches_at(c) + items_size(c.notches@.take(k as int), notch_sizer())) as int,
                    (notches_at(c) + items_size(c.notches@.take(k + 1), notch_sizer())) as int,
                )));
            }
        }
        let (n, end) = match decode_notch(words, pos) {
            Some(x) => x,
            None => return None,
        };
        let ghost before = notches@;
        notches.push(n);
        proof {
            assert(notches@.drop_last() =~= before);
            assert(notches@.take(k as int) =~= before);
            assert forall|j: int| 0 <= j < k + 1 implies #[trigger] notch_reads_as(
                notches@[j],
                w.subrange(
                    (reach_end + items_size(notches@.take(j), notch_sizer())) as int,
                    (reach_end + items_size(notches@.take(j + 1), notch_sizer())) as int,
                ),
            ) by {
                if j < k {
                    assert(notches@.take(j) =~= before.take(j));
                    assert(notches@.take(j + 1) =~= before.take(j + 1));
                } else {
                    assert(notches@.take(j + 1) =~= notches@);
                }
            }
            assert forall|j: int| 0 <= j < k + 1 implies notch_valid(#[trigger] notches@[j]) by {
                if j < k {
                    assert(notches@[j] == before[j]);
                }
            }
            assert forall|c: HydroRecord| #[trigger] candidate(c, w) implies forall|j: int| 0 <= j < k + 1
                ==> (#[trigger] notches@[j]).points@ == c.notches@[j].points@ by {
                assert forall|j: int| 0 <= j < k + 1 implies (#[trigger] notches@[j]).points@ == c.notches@[j].points@ by {
                    if j < k {
                        assert(notches@[j] == before[j]);
                    }
                }
            }
        }
        pos = end;
        k += 1;
    }
    let ghost notch_end = pos as int;
    proof {
        assert forall|c: HydroRecord| #[trigger] candidate(c, w) implies falls_at(c) == pos by {
            assert(notches@.len() == c.notches@.len());
            lemma_same_notches_same_size(notches@, c.notches@);
        }
    }

    // Falls: four words each.
    if !count_fits(fall_count as usize, 4, words.len() - pos) {
        return None;
    }
    let mut falls: Vec<Fall> = Vec::new();
    let mut k: usize = 0;
    while k < fall_count as usize
        invariant
            w == words@,
            k <= fall_count,
            counts == (body_count, reach_count, notch_count, fall_count),
            falls@.len() == k,
            pos == notch_end + 4 * k,
            notch_end + 4 * fall_count <= words.len(),
            forall|j: int| 0 <= j < k ==> #[trigger] fall_reads_as(falls@[j], w.subrange(notch_end + 4 * j, notch_end + 4 * j + 4)),
            forall|c: HydroRecord| #[trigger] candidate(c, w) ==> record_counts(c) == counts && falls_at(c) == notch_end,
            forall|c: HydroRecord| #[trigger] candidate(c, w) ==> falls@ == c.falls@.take(k as int),
        decreases fall_count - k,
    {
        let f = match decode_fall(words, pos) {
            Some(f) => f,
            None => {
                proof {
                    assert forall|c: HydroRecord| #[trigger] candidate(c, w) implies false by {
                        assert(record_valid(c) && c.falls@.len() <= u32::MAX && record_counts(c).3 == c.falls@.len() as u32 && counts.3 == fall_count); assert(c.falls@.len() == fall_count);
                        assert(fall_reads_as(c.falls@[k as int], w.subrange(falls_at(c) + 4 * k, falls_at(c) + 4 * k + 4)));
                    }
                }
                return None;
            },
        };
        let ghost before = falls@;
        falls.push(f);
        proof {
            assert forall|j: int| 0 <= j < k + 1 implies #[trigger] fall_reads_as(falls@[j], w.subrange(notch_end + 4 * j,
                notch_end + 4 * j + 4)) by {
                if j < k {
                    assert(falls@[j] == before[j]);
                }
            }
            assert forall|c: HydroRecord| #[trigger] candidate(c, w) implies falls@ == c.falls@.take(k + 1) by {
                assert(record_valid(c) && c.falls@.len() <= u32::MAX && record_counts(c).3 == c.falls@.len() as u32 && counts.3 == fall_count); assert(c.falls@.len() == fall_count);
                assert(fall_reads_as(c.falls@[k as int], w.subrange(falls_at(c) + 4 * k, falls_at(c) + 4 * k + 4)));
                assert(falls@ =~= c.falls@.take(k + 1));
            }
        }
        pos = pos + 4;
        k += 1;
    }
    if pos != words.len() {
        return None;
    }
    let record = HydroRecord { bodies, reaches, notches, falls, stats, ground };
    proof {
        assert(record.bodies@ == bodies@);
        assert(reaches_at(record) == body_end);
        assert(notches_at(record) == reach_end);
        assert(falls_at(record) == notch_end);
        assert(record_counts(record) == counts);
        assert(record_reads_as(record, w));
        assert forall|c: HydroRecord| #[trigger] candidate(c, w) implies same_record(record, c) by {
            assert(record_valid(c) && c.falls@.len() <= u32::MAX && record_counts(c).3 == c.falls@.len() as u32 && counts.3 == fall_count); assert(c.falls@.len() == fall_count);
            assert(c.falls@.take(fall_count as int) =~= c.falls@);
        }
    }
    Some(record)
}

} // verus!
