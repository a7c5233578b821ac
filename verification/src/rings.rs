//! The corner walk round a hollow's cells, from which its outline is drawn.
//!
//! The cells sit in the box that just holds them, `width` cells to a row. Corner `(r, c)` of
//! the box is the low-row, low-column corner of box cell `(r, c)`, so there is one more corner
//! than cell each way and corner `(r, c)` has id `r * (width + 1) + c`.
//!
//! For each cell of the set, in row-major order, a side whose neighbour is outside the set gives
//! one directed edge: the low-row side runs toward higher columns, the high-column side toward
//! higher rows, the high-row side toward lower columns, and the low-column side toward lower
//! rows. The walk starts at the lowest corner with an edge and, at each corner, takes the
//! corner's edges in the order they were given.
use vstd::prelude::*;
use crate::ponds::MAX_STRIP_CELLS;

verus! {

/// Box cell `i` (row-major, `w` to a row) holds one of `cells`, a box whose first row and
/// column are `fr` and `fc`.
pub open spec fn boxed(cells: Seq<(usize, usize)>, fr: int, fc: int, w: int, i: int) -> bool {
    exists|k: int| 0 <= k < cells.len() && (cells[k].0 - fr) * w + (cells[k].1 - fc) == i
}

/// The id of corner `(r, c)` of a box `w` cells wide.
pub open spec fn corner_id(w: int, r: int, c: int) -> int {
    r * (w + 1) + c
}

/// The edges box cell `(r, c)` gives, in the order of its sides.
pub open spec fn cell_edges(inside: Seq<bool>, w: int, h: int, r: int, c: int) -> Seq<(int, int)> {
    let i = r * w + c;
    if !inside[i] {
        Seq::empty()
    } else {
        (if r == 0 || !inside[i - w] {
            seq![(corner_id(w, r, c), corner_id(w, r, c + 1))]
        } else {
            Seq::empty()
        }) + (if c + 1 == w || !inside[i + 1] {
            seq![(corner_id(w, r, c + 1), corner_id(w, r + 1, c + 1))]
        } else {
            Seq::empty()
        }) + (if r + 1 == h || !inside[i + w] {
            seq![(corner_id(w, r + 1, c + 1), corner_id(w, r + 1, c))]
        } else {
            Seq::empty()
        }) + (if c == 0 || !inside[i - 1] {
            seq![(corner_id(w, r + 1, c), corner_id(w, r, c))]
        } else {
            Seq::empty()
        })
    }
}

/// The edges the box cells before `(r, c)` give, in row-major order.
pub open spec fn edges_before(inside: Seq<bool>, w: int, h: int, r: int, c: int) -> Seq<(int, int)>
    decreases r, c,
{
    if r < 0 || c < 0 {
        Seq::empty()
    } else if c > 0 {
        edges_before(inside, w, h, r, c - 1) + cell_edges(inside, w, h, r, c - 1)
    } else if r > 0 {
        edges_before(inside, w, h, r - 1, w)
    } else {
        Seq::empty()
    }
}

/// Where the edges out of corner `v` lead, in the order they were given.
#[verifier::opaque]
pub open spec fn targets(edges: Seq<(int, int)>, v: int) -> Seq<int>
    decreases edges.len(),
{
    if edges.len() == 0 {
        Seq::empty()
    } else {
        targets(edges.drop_last(), v) + if edges.last().0 == v {
            seq![edges.last().1]
        } else {
            Seq::empty()
        }
    }
}

/// How many times `v` occurs in `s`.
pub open spec fn occurrences(s: Seq<usize>, v: int) -> nat
    decreases s.len(),
{
    if s.len() == 0 {
        0
    } else {
        occurrences(s.drop_last(), v) + if s.last() == v {
            1nat
        } else {
            0nat
        }
    }
}

proof fn lemma_targets_push(edges: Seq<(int, int)>, e: (int, int), v: int)
    ensures
        targets(edges.push(e), v) == targets(edges, v) + if e.0 == v {
            seq![e.1]
        } else {
            Seq::empty()
        },
{
    reveal(targets);
    assert(edges.push(e).drop_last() =~= edges);
}

/// The box that just holds `cells`, and which of its cells they are.
struct CellBox {
    first_row: usize,
    first_column: usize,
    width: usize,
    height: usize,
    inside: Vec<bool>,
}

/// `fr`, `fc`, `w` and `h` make the box that just holds `cells`.
pub open spec fn holds(cells: Seq<(usize, usize)>, fr: int, fc: int, w: int, h: int) -> bool {
    &&& w >= 1
    &&& h >= 1
    &&& forall|k: int| 0 <= k < cells.len() ==> fr <= (#[trigger] cells[k]).0 < fr + h && fc <= cells[k].1 < fc + w
    &&& exists|k: int| 0 <= k < cells.len() && (#[trigger] cells[k]).0 == fr
    &&& exists|k: int| 0 <= k < cells.len() && (#[trigger] cells[k]).0 == fr + h - 1
    &&& exists|k: int| 0 <= k < cells.len() && (#[trigger] cells[k]).1 == fc
    &&& exists|k: int| 0 <= k < cells.len() && (#[trigger] cells[k]).1 == fc + w - 1
}

fn box_of(cells: &Vec<(usize, usize)>, steps: usize, cells_across: usize) -> (b: CellBox)
    requires
        cells@.len() > 0,
        cells_across * steps <= MAX_STRIP_CELLS,
        forall|k: int| 0 <= k < cells@.len() ==> (#[trigger] cells@[k]).0 < steps && cells@[k].1 < cells_across,
    ensures
        holds(cells@, b.first_row as int, b.first_column as int, b.width as int, b.height as int),
        b.width <= cells_across,
        b.height <= steps,
        b.width * b.height <= MAX_STRIP_CELLS,
        b.inside@.len() == b.width * b.height,
        forall|i: int|
            0 <= i < b.width * b.height ==> (#[trigger] b.inside@[i] <==> boxed(
                cells@,
                b.first_row as int,
                b.first_column as int,
                b.width as int,
                i,
            )),
{
    let mut fr = cells[0].0;
    let mut lr = cells[0].0;
    let mut fc = cells[0].1;
    let mut lc = cells[0].1;
    let ghost mut kfr: int = 0;
    let ghost mut klr: int = 0;
    let ghost mut kfc: int = 0;
    let ghost mut klc: int = 0;
    let mut k: usize = 1;
    while k < cells.len()
        invariant
            1 <= k <= cells@.len(),
            forall|j: int| 0 <= j < cells@.len() ==> (#[trigger] cells@[j]).0 < steps && cells@[j].1 < cells_across,
            forall|j: int| 0 <= j < k ==> fr <= (#[trigger] cells@[j]).0 <= lr && fc <= cells@[j].1 <= lc,
            0 <= kfr < k && cells@[kfr].0 == fr,
            0 <= klr < k && cells@[klr].0 == lr,
            0 <= kfc < k && cells@[kfc].1 == fc,
            0 <= klc < k && cells@[klc].1 == lc,
        decreases cells@.len() - k,
    {
        let (row, column) = cells[k];
        if row < fr {
            fr = row;
            proof { kfr = k as int; }
        }
        if row > lr {
            lr = row;
            proof { klr = k as int; }
        }
        if column < fc {
            fc = column;
            proof { kfc = k as int; }
        }
        if column > lc {
            lc = column;
            proof { klc = k as int; }
        }
        k += 1;
    }
    let w = lc - fc + 1;
    let h = lr - fr + 1;
    proof {
        assert(w <= cells_across && h <= steps);
        assert(w * h <= cells_across * steps) by (nonlinear_arith)
            requires
                w <= cells_across,
                h <= steps,
        ;
    }
    let count = w * h;
    let mut inside: Vec<bool> = Vec::new();
    let mut i: usize = 0;
    while i < count
        invariant
            i <= count,
            inside@.len() == i,
            forall|x: int| 0 <= x < i ==> !inside@[x],
        decreases count - i,
    {
        inside.push(false);
        i += 1;
    }
    let mut k: usize = 0;
    while k < cells.len()
        invariant
            k <= cells@.len(),
            count == w * h,
            count <= MAX_STRIP_CELLS,
            inside@.len() == count,
            forall|j: int| 0 <= j < cells@.len() ==> fr <= (#[trigger] cells@[j]).0 <= lr && fc <= cells@[j].1 <= lc,
            w == lc - fc + 1,
            h == lr - fr + 1,
            forall|x: int| 0 <= x < count ==> (#[trigger] inside@[x] <==> exists|j: int|
                0 <= j < k && (cells@[j].0 - fr) * w + (cells@[j].1 - fc) == x),
        decreases cells@.len() - k,
    {
        let (row, column) = cells[k];
        let a = row - fr;
        let b = column - fc;
        proof {
            assert(a * w + b < count) by (nonlinear_arith)
                requires
                    a < h,
                    b < w,
                    count == w * h,
            ;
        }
        let x = a * w + b;
        inside.set(x, true);
        proof {
            assert forall|y: int| 0 <= y < count implies (#[trigger] inside@[y] <==> exists|j: int|
                0 <= j < k + 1 && (cells@[j].0 - fr) * w + (cells@[j].1 - fc) == y) by {
                if y == x as int {
                    assert((cells@[k as int].0 - fr) * w + (cells@[k as int].1 - fc) == y);
                } else if exists|j: int| 0 <= j < k + 1 && (cells@[j].0 - fr) * w + (cells@[j].1 - fc) == y {
                    let j = choose|j: int| 0 <= j < k + 1 && (cells@[j].0 - fr) * w + (cells@[j].1 - fc) == y;
                    assert(j < k);
                }
            }
        }
        k += 1;
    }
    proof {
        assert forall|y: int| 0 <= y < count implies (#[trigger] inside@[y] <==> boxed(cells@, fr as int, fc as int, w as int, y)) by {}
        assert(cells@[klr].0 == fr + h - 1);
        assert(cells@[klc].1 == fc + w - 1);
    }
    CellBox { first_row: fr, first_column: fc, width: w, height: h, inside }
}

/// `list` holds, as ids, the corners `t` names.
pub open spec fn lists_as(list: Seq<u32>, t: Seq<int>) -> bool {
    list.len() == t.len() && forall|j: int| 0 <= j < list.len() ==> list[j] == #[trigger] t[j]
}

/// The edge `e`, if `given`.
pub open spec fn edge_if(given: bool, e: (int, int)) -> Seq<(int, int)> {
    if given {
        seq![e]
    } else {
        Seq::empty()
    }
}

/// Gives one more edge, from corner `from` to corner `to`, if `given`.
fn add_edge(
    out_of: &mut Vec<Vec<u32>>,
    count: &mut usize,
    given: bool,
    from: usize,
    to: usize,
    Ghost(es): Ghost<Seq<(int, int)>>,
)
    requires
        from < old(out_of)@.len(),
        to < old(out_of)@.len(),
        old(out_of)@.len() <= u32::MAX,
        forall|v: int, j: int| 0 <= v < old(out_of)@.len() && 0 <= j < old(out_of)@[v]@.len() ==> #[trigger] old(out_of)@[v]@[j] < old(out_of)@.len(),
        *old(count) == es.len(),
        *old(count) < usize::MAX,
        forall|v: int| 0 <= v < old(out_of)@.len() ==> lists_as((#[trigger] old(out_of)@[v])@, targets(es, v)),
    ensures
        final(out_of)@.len() == old(out_of)@.len(),
        forall|v: int, j: int| 0 <= v < final(out_of)@.len() && 0 <= j < final(out_of)@[v]@.len() ==> #[trigger] final(out_of)@[v]@[j] < final(out_of)@.len(),
        *final(count) == (es + edge_if(given, (from as int, to as int))).len(),
        forall|v: int|
            0 <= v < final(out_of)@.len() ==> lists_as(
                (#[trigger] final(out_of)@[v])@,
                targets(es + edge_if(given, (from as int, to as int)), v),
            ),
{
    let ghost before = out_of@;
    if given {
        out_of[from].push(to as u32);
        *count = *count + 1;
        proof {
            assert(es + edge_if(given, (from as int, to as int)) =~= es.push((from as int, to as int)));
            assert forall|v: int, j: int| 0 <= v < out_of@.len() && 0 <= j < out_of@[v]@.len() implies #[trigger] out_of@[v]@[j] < out_of@.len() by {
                if v != from as int {
                    assert(out_of@[v] == before[v]);
                } else if j < before[v]@.len() {
                    assert(out_of@[v]@[j] == before[v]@[j]);
                }
            }
            assert forall|v: int| 0 <= v < out_of@.len() implies lists_as((#[trigger] out_of@[v])@, targets(es.push((from as int, to as int)), v)) by {
                lemma_targets_push(es, (from as int, to as int), v);
                if v != from as int {
                    assert(out_of@[v] == before[v]);
                }
            }
        }
    } else {
        proof {
            assert(es + edge_if(given, (from as int, to as int)) =~= es);
        }
    }
}

/// A cell inside the set gives the edges of its open sides, in side order.
proof fn lemma_cell_edges_are(
    ins: Seq<bool>,
    w: int,
    h: int,
    r: int,
    c: int,
    cr: int,
    b1: bool,
    b2: bool,
    b3: bool,
    b4: bool,
)
    requires
        ins[r * w + c],
        cr == corner_id(w, r, c),
        cr + w + 2 == corner_id(w, r + 1, c + 1),
        b1 == (r == 0 || !ins[r * w + c - w]),
        b2 == (c + 1 == w || !ins[r * w + c + 1]),
        b3 == (r + 1 == h || !ins[r * w + c + w]),
        b4 == (c == 0 || !ins[r * w + c - 1]),
    ensures
        cell_edges(ins, w, h, r, c) == sides(b1, b2, b3, b4, w, cr),
{
    assert(corner_id(w, r, c + 1) == cr + 1);
    assert(corner_id(w, r + 1, c) == cr + w + 1);
}

/// Gives the edges of a cell's open sides, `b1` to `b4` in side order, round the cell whose
/// low corner is `cr`.
#[verifier::spinoff_prover]
fn emit_sides(
    out_of: &mut Vec<Vec<u32>>,
    count: &mut usize,
    b1: bool,
    b2: bool,
    b3: bool,
    b4: bool,
    w: usize,
    cr: usize,
    Ghost(e0): Ghost<Seq<(int, int)>>,
)
    requires
        cr + w + 2 < old(out_of)@.len(),
        old(out_of)@.len() <= u32::MAX,
        forall|v: int, j: int| 0 <= v < old(out_of)@.len() && 0 <= j < old(out_of)@[v]@.len() ==> #[trigger] old(out_of)@[v]@[j] < old(out_of)@.len(),
        *old(count) == e0.len(),
        *old(count) + 4 < usize::MAX,
        forall|v: int| 0 <= v < old(out_of)@.len() ==> lists_as((#[trigger] old(out_of)@[v])@, targets(e0, v)),
    ensures
        final(out_of)@.len() == old(out_of)@.len(),
        forall|v: int, j: int| 0 <= v < final(out_of)@.len() && 0 <= j < final(out_of)@[v]@.len() ==> #[trigger] final(out_of)@[v]@[j] < final(out_of)@.len(),
        *final(count) == (e0 + sides(b1, b2, b3, b4, w as int, cr as int)).len(),
        forall|v: int|
            0 <= v < final(out_of)@.len() ==> lists_as(
                (#[trigger] final(out_of)@[v])@,
                targets(e0 + sides(b1, b2, b3, b4, w as int, cr as int), v),
            ),
{
    let ghost e1 = e0 + edge_if(b1, (cr as int, cr + 1));
    let ghost e2 = e1 + edge_if(b2, (cr + 1, cr + w + 2));
    let ghost e3 = e2 + edge_if(b3, (cr + w + 2, cr + w + 1));
    add_edge(out_of, count, b1, cr, cr + 1, Ghost(e0));
    add_edge(out_of, count, b2, cr + 1, cr + w + 2, Ghost(e1));
    add_edge(out_of, count, b3, cr + w + 2, cr + w + 1, Ghost(e2));
    add_edge(out_of, count, b4, cr + w + 1, cr, Ghost(e3));
    proof {
        assert(e3 + edge_if(b4, (cr + w + 1, cr as int)) =~= e0 + sides(b1, b2, b3, b4, w as int, cr as int));
    }
}

/// The edges of a cell's open sides, `b1` to `b4` in side order, round the cell whose low
/// corner is `cr` in a box `w` cells wide.
pub open spec fn sides(b1: bool, b2: bool, b3: bool, b4: bool, w: int, cr: int) -> Seq<(int, int)> {
    edge_if(b1, (cr, cr + 1)) + edge_if(b2, (cr + 1, cr + w + 2)) + edge_if(b3, (cr + w + 2, cr + w + 1)) + edge_if(
        b4,
        (cr + w + 1, cr),
    )
}

/// Gives the edges of box cell `(row, column)`, cell `i`, whose low corner is `cr`.
#[verifier::spinoff_prover]
#[verifier::rlimit(40)]
fn emit_cell(
    out_of: &mut Vec<Vec<u32>>,
    count: &mut usize,
    inside: &Vec<bool>,
    w: usize,
    h: usize,
    row: usize,
    column: usize,
    i: usize,
    cr: usize,
    Ghost(e0): Ghost<Seq<(int, int)>>,
)
    requires
        inside@.len() == w * h,
        w * h <= MAX_STRIP_CELLS,
        row < h,
        column < w,
        i == row * w + column,
        cr == row * (w + 1) + column,
        old(out_of)@.len() == (w + 1) * (h + 1),
        (w + 1) * (h + 1) <= 3 * MAX_STRIP_CELLS + 1,
        forall|v: int, j: int| 0 <= v < old(out_of)@.len() && 0 <= j < old(out_of)@[v]@.len() ==> #[trigger] old(out_of)@[v]@[j] < old(out_of)@.len(),
        *old(count) == e0.len(),
        *old(count) <= 4 * i,
        forall|v: int| 0 <= v < old(out_of)@.len() ==> lists_as((#[trigger] old(out_of)@[v])@, targets(e0, v)),
    ensures
        final(out_of)@.len() == old(out_of)@.len(),
        forall|v: int, j: int| 0 <= v < final(out_of)@.len() && 0 <= j < final(out_of)@[v]@.len() ==> #[trigger] final(out_of)@[v]@[j] < final(out_of)@.len(),
        *final(count) == (e0 + cell_edges(inside@, w as int, h as int, row as int, column as int)).len(),
        *final(count) <= *old(count) + 4,
        forall|v: int|
            0 <= v < final(out_of)@.len() ==> lists_as(
                (#[trigger] final(out_of)@[v])@,
                targets(e0 + cell_edges(inside@, w as int, h as int, row as int, column as int), v),
            ),
{
    let ghost ins = inside@;
    let ghost c0 = *count;
    proof {
        assert(i < w * h) by (nonlinear_arith)
            requires
                row < h,
                column < w,
                i == row * w + column,
        ;
        assert(row >= 1 ==> i >= w) by (nonlinear_arith)
            requires
                i == row * w + column,
        ;
        assert(row + 1 < h ==> i + w < w * h) by (nonlinear_arith)
            requires
                column < w,
                i == row * w + column,
        ;
        assert(column + 1 < w ==> i + 1 < w * h) by (nonlinear_arith)
            requires
                row < h,
                i == row * w + column,
        ;
        assert(cr + w + 2 < (w + 1) * (h + 1) && cr + w + 2 == (row + 1) * (w + 1) + column + 1) by (nonlinear_arith)
            requires
                row < h,
                column < w,
                cr == row * (w + 1) + column,
        ;
    }
    assert(c0 + 4 < usize::MAX);
    if inside[i] {
        let b1 = row == 0 || !inside[i - w];
        let b2 = column + 1 == w || !inside[i + 1];
        let b3 = row + 1 == h || !inside[i + w];
        let b4 = column == 0 || !inside[i - 1];
        emit_sides(out_of, count, b1, b2, b3, b4, w, cr, Ghost(e0));
        proof {
            lemma_cell_edges_are(ins, w as int, h as int, row as int, column as int, cr as int, b1, b2, b3, b4);
            assert(cell_edges(ins, w as int, h as int, row as int, column as int) == sides(b1, b2, b3, b4, w as int, cr as int));
        }
    } else {
        proof {
            assert(e0 + cell_edges(ins, w as int, h as int, row as int, column as int) =~= e0);
        }
    }
}

/// The edges out of every corner of a `w` by `h` box whose cells `inside` marks, in the order
/// they were given, and how many edges there are.
fn corner_edges(inside: &Vec<bool>, w: usize, h: usize) -> (out: (Vec<Vec<u32>>, usize))
    requires
        w >= 1,
        h >= 1,
        w * h <= MAX_STRIP_CELLS,
        inside@.len() == w * h,
    ensures
        out.0@.len() == (w + 1) * (h + 1),
        out.0@.len() <= 3 * MAX_STRIP_CELLS + 1,
        forall|v: int, j: int| 0 <= v < out.0@.len() && 0 <= j < out.0@[v]@.len() ==> #[trigger] out.0@[v]@[j] < out.0@.len(),
        out.1 == edges_before(inside@, w as int, h as int, h as int, 0).len(),
        forall|v: int|
            0 <= v < out.0@.len() ==> lists_as((#[trigger] out.0@[v])@, targets(edges_before(inside@, w as int, h as int, h as int, 0), v)),
{
    let ghost ins = inside@;
    let ghost wi = w as int;
    let ghost hi = h as int;
    proof {
        assert(w <= w * h && h <= w * h) by (nonlinear_arith)
            requires
                w >= 1,
                h >= 1,
        ;
        assert((w + 1) * (h + 1) <= 3 * MAX_STRIP_CELLS + 1) by (nonlinear_arith)
            requires
                w >= 1,
                h >= 1,
                w * h <= MAX_STRIP_CELLS,
        ;
    }
    let corners = (w + 1) * (h + 1);
    let mut out_of: Vec<Vec<u32>> = Vec::new();
    let mut v: usize = 0;
    while v < corners
        invariant
            v <= corners,
            out_of@.len() == v,
            forall|x: int| 0 <= x < v ==> (#[trigger] out_of@[x])@ == Seq::<u32>::empty(),
        decreases corners - v,
    {
        out_of.push(Vec::new());
        v += 1;
    }
    proof {
        reveal(targets);
        assert(edges_before(ins, wi, hi, 0, 0) == Seq::<(int, int)>::empty());
        assert forall|x: int| 0 <= x < corners implies lists_as((#[trigger] out_of@[x])@, targets(edges_before(ins, wi, hi, 0, 0), x)) by {}
    }
    let mut count: usize = 0;
    let mut row: usize = 0;
    let mut column: usize = 0;
    let mut i: usize = 0;
    let mut cr: usize = 0;
    while row < h
        invariant
            w >= 1,
            h >= 1,
            ins == inside@,
            ins.len() == w * h,
            wi == w,
            hi == h,
            w * h <= MAX_STRIP_CELLS,
            corners == (w + 1) * (h + 1),
            corners <= 3 * MAX_STRIP_CELLS + 1,
            out_of@.len() == corners,
            forall|v: int, j: int| 0 <= v < out_of@.len() && 0 <= j < out_of@[v]@.len() ==> #[trigger] out_of@[v]@[j] < out_of@.len(),
            (row < h && column < w) || (row == h && column == 0),
            i == row * w + column,
            cr == row * (w + 1) + column,
            count == edges_before(ins, wi, hi, row as int, column as int).len(),
            count <= 4 * i,
            forall|x: int|
                0 <= x < corners ==> lists_as((#[trigger] out_of@[x])@, targets(edges_before(ins, wi, hi, row as int, column as int), x)),
        decreases hi - row, wi - column,
    {
        let ghost e0 = edges_before(ins, wi, hi, row as int, column as int);
        proof {
            assert(i < w * h && i + 1 <= w * h) by (nonlinear_arith)
                requires
                    row < h,
                    column < w,
                    i == row * w + column,
            ;
            assert(row >= 1 ==> i >= w) by (nonlinear_arith)
                requires
                    i == row * w + column,
            ;
            assert(row + 1 < h ==> i + w < w * h) by (nonlinear_arith)
                requires
                    column < w,
                    i == row * w + column,
            ;
            assert(column + 1 < w ==> i + 1 < w * h) by (nonlinear_arith)
                requires
                    row < h,
                    i == row * w + column,
            ;
            assert(cr + w + 2 < corners && cr + w + 2 == (row + 1) * (w + 1) + column + 1) by (nonlinear_arith)
                requires
                    row < h,
                    column < w,
                    cr == row * (w + 1) + column,
                    corners == (w + 1) * (h + 1),
            ;
        }
        emit_cell(&mut out_of, &mut count, inside, w, h, row, column, i, cr, Ghost(e0));
        proof {
            assert(edges_before(ins, wi, hi, row as int, column + 1) == e0 + cell_edges(ins, wi, hi, row as int, column as int));
            assert(count <= 4 * (i + 1));
        }
        column += 1;
        i += 1;
        cr += 1;
        if column == w {
            proof {
                assert(edges_before(ins, wi, hi, row + 1, 0) == edges_before(ins, wi, hi, row as int, wi));
                assert(i == (row + 1) * w && cr + 1 == (row + 1) * (w + 1)) by (nonlinear_arith)
                    requires
                        i == row * w + column,
                        cr == row * (w + 1) + column,
                        column == w,
                ;
            }
            column = 0;
            row += 1;
            cr += 1;
        }
    }
    (out_of, count)
}

/// The cells of a `w` by `h` box, first row `fr` and first column `fc`, that hold one of `cells`.
pub open spec fn inside_of(cells: Seq<(usize, usize)>, fr: int, fc: int, w: int, h: int) -> Seq<bool> {
    Seq::new((w * h) as nat, |i: int| boxed(cells, fr, fc, w, i))
}

/// Every edge the cells give, in the order they give them.
pub open spec fn box_edges(cells: Seq<(usize, usize)>, fr: int, fc: int, w: int, h: int) -> Seq<(int, int)> {
    edges_before(inside_of(cells, fr, fc, w, h), w, h, h, 0)
}

/// `s` is the lowest corner with an edge out of it.
pub open spec fn is_start(edges: Seq<(int, int)>, s: int) -> bool {
    &&& targets(edges, s).len() > 0
    &&& forall|v: int| 0 <= v < s ==> #[trigger] targets(edges, v).len() == 0
}

/// Each corner of `ring` after the first is where the corner before it leads by the next of its
/// edges not yet taken, and none of them is the start again.
#[verifier::opaque]
pub open spec fn walk_steps(edges: Seq<(int, int)>, ring: Seq<usize>) -> bool {
    forall|k: int|
        0 <= k < ring.len() - 1 ==> {
            let o = occurrences(ring.take(k), ring[k] as int);
            &&& o < targets(edges, #[trigger] ring[k] as int).len()
            &&& ring[k + 1] == targets(edges, ring[k] as int)[o as int]
            &&& ring[k + 1] != ring[0]
        }
}

/// The walk so far, `ring`, goes on to `next`: the next edge not yet taken out of its last
/// corner leads there, and it is not the start.
pub open spec fn goes_on(edges: Seq<(int, int)>, ring: Seq<usize>, next: int) -> bool {
    let last = ring.last() as int;
    let o = occurrences(ring.drop_last(), last);
    &&& o < targets(edges, last).len()
    &&& next == targets(edges, last)[o as int]
    &&& next != ring[0]
}

/// The walk `ring` stops where it does: it has taken as many steps as there are edges, or its
/// last corner has no edge left, or the next edge leads back to the start.
pub open spec fn walk_ends(edges: Seq<(int, int)>, ring: Seq<usize>) -> bool {
    let last = ring.last() as int;
    let o = occurrences(ring.drop_last(), last);
    ||| ring.len() == edges.len()
    ||| o >= targets(edges, last).len()
    ||| targets(edges, last)[o as int] == ring[0]
}

/// `ring` is the walk over `edges` among `corners` corners: from the lowest corner with an edge,
/// at each corner the next of its edges not yet taken, until the walk comes back to its start,
/// finds no edge left, or has taken as many steps as there are edges. With no edge at all there
/// is no walk.
pub open spec fn is_corner_walk(edges: Seq<(int, int)>, corners: int, ring: Seq<usize>) -> bool {
    &&& ring.len() == 0 <==> forall|v: int| 0 <= v < corners ==> #[trigger] targets(edges, v).len() == 0
    &&& ring.len() > 0 ==> is_start(edges, ring[0] as int) && ring[0] < corners
    &&& ring.len() <= edges.len()
    &&& walk_steps(edges, ring)
    &&& ring.len() > 0 ==> walk_ends(edges, ring)
}

/// One more corner keeps the walk's steps.
proof fn lemma_walk_steps_push(edges: Seq<(int, int)>, ring: Seq<usize>, next: usize)
    requires
        walk_steps(edges, ring),
        ring.len() > 0,
        goes_on(edges, ring, next as int),
    ensures
        walk_steps(edges, ring.push(next)),
{
    reveal(walk_steps);
    let longer = ring.push(next);
    assert forall|k: int| 0 <= k < longer.len() - 1 implies {
        let o = occurrences(longer.take(k), longer[k] as int);
        &&& o < targets(edges, #[trigger] longer[k] as int).len()
        &&& longer[k + 1] == targets(edges, longer[k] as int)[o as int]
        &&& longer[k + 1] != longer[0]
    } by {
        assert(longer.take(k) =~= ring.take(k));
        if k == ring.len() - 1 {
            assert(ring.take(k) =~= ring.drop_last());
        }
    }
}

/// The corner walk round a hollow's cells: the box that just holds them, and the corners the
/// walk visits, as corner ids of that box.
pub struct CornerWalk {
    pub first_row: usize,
    pub first_column: usize,
    pub width: usize,
    pub height: usize,
    pub ring: Vec<usize>,
}

proof fn lemma_targets_len(edges: Seq<(int, int)>, v: int)
    ensures
        targets(edges, v).len() <= edges.len(),
    decreases edges.len(),
{
    reveal(targets);
    if edges.len() > 0 {
        lemma_targets_len(edges.drop_last(), v);
    }
}

proof fn lemma_occurrences_push(s: Seq<usize>, x: usize, v: int)
    ensures
        occurrences(s.push(x), v) == occurrences(s, v) + if x == v {
            1nat
        } else {
            0nat
        },
{
    assert(s.push(x).drop_last() =~= s);
}

/// The corner walk round `cells`, row and column pairs of a strip `steps` long and
/// `cells_across` wide, as `is_corner_walk` says.
pub fn corner_walk(cells: &Vec<(usize, usize)>, steps: usize, cells_across: usize) -> (walk: CornerWalk)
    requires
        cells@.len() > 0,
        cells_across * steps <= MAX_STRIP_CELLS,
        forall|k: int| 0 <= k < cells@.len() ==> (#[trigger] cells@[k]).0 < steps && cells@[k].1 < cells_across,
    ensures
        holds(cells@, walk.first_row as int, walk.first_column as int, walk.width as int, walk.height as int),
        is_corner_walk(
            box_edges(cells@, walk.first_row as int, walk.first_column as int, walk.width as int, walk.height as int),
            (walk.width + 1) * (walk.height + 1),
            walk.ring@,
        ),
{
    let b = box_of(cells, steps, cells_across);
    let w = b.width;
    let h = b.height;
    let ghost ins = b.inside@;
    let ghost es = edges_before(ins, w as int, h as int, h as int, 0);
    proof {
        assert(ins =~= inside_of(cells@, b.first_row as int, b.first_column as int, w as int, h as int));
        assert(es == box_edges(cells@, b.first_row as int, b.first_column as int, w as int, h as int));
    }
    let (out_of, edge_count) = corner_edges(&b.inside, w, h);
    let corners = out_of.len();
    let mut v: usize = 0;
    while v < corners && out_of[v].len() == 0
        invariant
            v <= corners,
            corners == out_of@.len(),
            forall|x: int| 0 <= x < corners ==> lists_as((#[trigger] out_of@[x])@, targets(es, x)),
            forall|x: int| 0 <= x < v ==> #[trigger] targets(es, x).len() == 0,
        decreases corners - v,
    {
        assert(lists_as(out_of@[v as int]@, targets(es, v as int)));
        v += 1;
    }
    if v == corners {
        proof {
            reveal(walk_steps);
        }
        return CornerWalk { first_row: b.first_row, first_column: b.first_column, width: w, height: h, ring: Vec::new() };
    }
    let start = v;
    proof {
        assert(lists_as(out_of@[start as int]@, targets(es, start as int)));
        lemma_targets_len(es, start as int);
    }
    let mut taken: Vec<usize> = Vec::new();
    let mut x: usize = 0;
    while x < corners
        invariant
            x <= corners,
            taken@.len() == x,
            forall|y: int| 0 <= y < x ==> taken@[y] == 0,
        decreases corners - x,
    {
        taken.push(0);
        x += 1;
    }
    let mut ring: Vec<usize> = Vec::new();
    let mut here = start;
    let mut step: usize = 0;
    proof {
        reveal(walk_steps);
    }
    while step < edge_count
        invariant_except_break
            step == ring@.len(),
            step <= edge_count,
            forall|y: int| 0 <= y < corners ==> #[trigger] taken@[y] == occurrences(ring@, y),
            here < corners,
            ring@.len() == 0 ==> here == start,
            ring@.len() > 0 ==> goes_on(es, ring@, here as int),
        invariant
            corners == out_of@.len(),
            corners <= 3 * MAX_STRIP_CELLS + 1,
            edge_count == es.len(),
            edge_count > 0,
            start < corners,
            taken@.len() == corners,
            forall|y: int| 0 <= y < corners ==> lists_as((#[trigger] out_of@[y])@, targets(es, y)),
            forall|y: int, j: int| 0 <= y < out_of@.len() && 0 <= j < out_of@[y]@.len() ==> #[trigger] out_of@[y]@[j] < out_of@.len(),
            ring@.len() > 0 ==> ring@[0] == start,
            walk_steps(es, ring@),
        ensures
            ring@.len() > 0,
            ring@.len() <= edge_count,
            ring@[0] == start,
            walk_steps(es, ring@),
            walk_ends(es, ring@),
        decreases edge_count - step,
    {
        let ghost r0 = ring@;
        ring.push(here);
        proof {
            if r0.len() > 0 {
                lemma_walk_steps_push(es, r0, here);
            } else {
                reveal(walk_steps);
            }
            assert(ring@.drop_last() =~= r0);
            assert(ring@[0] == start);
            assert forall|y: int| 0 <= y < corners implies occurrences(ring@, y) == occurrences(r0, y) + if here == y {
                1nat
            } else {
                0nat
            } by {
                lemma_occurrences_push(r0, here, y);
            }
            assert(lists_as(out_of@[here as int]@, targets(es, here as int)));
        }
        let t = taken[here];
        if t >= out_of[here].len() {
            break;
        }
        let next = out_of[here][t] as usize;
        proof {
            assert(next as int == targets(es, here as int)[t as int]);
        }
        taken.set(here, t + 1);
        if next == start {
            break;
        }
        here = next;
        step += 1;
    }
    proof {
        assert forall|v: int| 0 <= v < corners implies #[trigger] targets(es, v).len() == 0 || ring@.len() > 0 by {}
    }
    CornerWalk { first_row: b.first_row, first_column: b.first_column, width: w, height: h, ring }
}

} // verus!
