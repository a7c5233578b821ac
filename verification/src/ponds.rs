//! The fine pond search's integer parts: its cell budget, what it skipped, and whether a hollow
//! found in a strip ran up against the strip's sides or ends.
use vstd::prelude::*;

verus! {

/// The most cells one strip may hold; a segment whose strip would be larger is skipped and
/// counted.
pub const MAX_STRIP_CELLS: usize = 4_000_000;

/// Segments that produced no strip, counted rather than dropped.
#[derive(Debug, Clone, Copy, Default, PartialEq, Eq, Structural)]
pub struct StripSkips {
    /// Segments skipped because their strip would have exceeded `MAX_STRIP_CELLS`.
    pub over_budget: u32,
    /// Segments with no length to sample: the two ends are the same point.
    pub degenerate: u32,
    /// Segments whose corridor the coarse look refused at the midpoint, before a single cell
    /// was sampled.
    pub gated: u32,
}

/// A cell on the first interior ring of a `steps` by `cells_across` strip, or outside it, on
/// a side (its column) or at an end (its row). An edge cell is a flood seed and never in a
/// hollow, so the ring one cell in is where a hollow that the window cut short shows.
pub open spec fn near_side(column: int, cells_across: int) -> bool {
    column <= 1 || column + 2 >= cells_across
}

pub open spec fn near_end(row: int, steps: int) -> bool {
    row <= 1 || row + 2 >= steps
}

/// Whether any of `cells` (row, column) touches the strip's sides, and whether any touches its
/// ends.
pub fn clipped_at(cells: &Vec<(usize, usize)>, steps: usize, cells_across: usize) -> (clipped: (bool, bool))
    ensures
        clipped.0 <==> exists|k: int| 0 <= k < cells@.len() && near_side((#[trigger] cells@[k]).1 as int,
            cells_across as int),
        clipped.1 <==> exists|k: int| 0 <= k < cells@.len() && near_end((#[trigger] cells@[k]).0 as int,
            steps as int),
{
    let mut side = false;
    let mut end = false;
    let mut k: usize = 0;
    while k < cells.len()
        invariant
            k <= cells@.len(),
            side <==> exists|j: int| 0 <= j < k && near_side((#[trigger] cells@[j]).1 as int, cells_across as int),
            end <==> exists|j: int| 0 <= j < k && near_end((#[trigger] cells@[j]).0 as int, steps as int),
        decreases cells@.len() - k,
    {
        let (row, column) = cells[k];
        if column <= 1 || cells_across <= 2 || column >= cells_across - 2 {
            side = true;
            assert(near_side(cells@[k as int].1 as int, cells_across as int));
        }
        if row <= 1 || steps <= 2 || row >= steps - 2 {
            end = true;
            assert(near_end(cells@[k as int].0 as int, steps as int));
        }
        k += 1;
    }
    (side, end)
}

} // verus!
