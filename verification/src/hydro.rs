//! What a bake records -- its bodies of standing water, its reaches, the notches it cut, its
//! falls and its counts -- and why a bake can fail.
//!
//! A measurement (a height, an area, a latitude) is held as the bit pattern of its `f64`: the
//! record carries it through untouched.
use vstd::prelude::*;
use crate::reaches::{Downstream, ReachClass};

verus! {

/// What a kept hollow became. A salt flat is a basin whose water all evaporates; the kind says
/// where the water stands and the surface it leaves, not the chemistry.
#[derive(Debug, Clone, Copy, PartialEq, Eq, Structural)]
pub enum BodyKind {
    Lake,
    Pond,
    SaltLake,
    SaltFlat,
}

/// One kept hollow: a lake, pond, salt lake or salt flat. `id` is its position among kept
/// hollows.
#[derive(Debug, PartialEq)]
pub struct Body {
    pub id: u32,
    pub kind: BodyKind,
    /// Not closed: the lake has an outlet.
    pub fresh: bool,
    pub enclosed: bool,
    pub forced: bool,
    pub level_m: u64,
    pub area_m2: u64,
    pub depth_m: u64,
    pub outlet_reach: Option<u32>,
    /// Latitude and longitude.
    pub anchor: (u64, u64),
    /// Latitude and longitude pairs: the shore members first, then the collar; for a pond, a
    /// traced ring.
    pub outline: Vec<(u64, u64)>,
    pub downstream: Downstream,
    /// How many of the outline's points are shore members; zero for a traced ring.
    pub shore_member_count: u32,
    pub shore_reach_m: u64,
}

/// One point of a reach: where it is, its bed, its channel and the water it carries.
#[derive(Debug, Clone, Copy, PartialEq, Eq, Structural)]
pub struct ReachPoint {
    pub lat_deg: u64,
    pub lon_deg: u64,
    pub bed_m: u64,
    pub width_m: u64,
    pub depth_m: u64,
    pub flow_m2: u64,
}

/// One reach as the record holds it.
#[derive(Debug, Clone, PartialEq)]
pub struct ReachLine {
    pub id: u32,
    pub class: ReachClass,
    pub order: u32,
    pub downstream: Downstream,
    /// Its chain reaches the ocean.
    pub fresh: bool,
    pub points: Vec<ReachPoint>,
}

/// One notch cut: latitude, longitude, the cut surface and the width at each point.
#[derive(Debug, PartialEq)]
pub struct NotchLine {
    pub points: Vec<(u64, u64, u64, u64)>,
}

/// A fall on a reach.
#[derive(Debug, Clone, Copy, PartialEq, Eq)]
pub struct Fall {
    pub reach: u32,
    pub at: (u64, u64),
    pub height_m: u64,
}

/// The bake's counts, and the parameters it ran with.
#[derive(Debug, Clone, Copy, PartialEq, Eq, Structural)]
pub struct BakeStats {
    pub nodes: u32,
    pub land_nodes: u32,
    pub hollows: u32,
    pub kept: u32,
    pub notched: u32,
    pub closed: u32,
    pub streams: u32,
    pub rivers: u32,
    pub great: u32,
    pub max_order: u32,
    pub bifurcation_min: u64,
    pub bifurcation_max: u64,
    pub stream_flow_m2: u64,
    pub river_flow_m2: u64,
    pub great_flow_m2: u64,
    pub total_nodes: u32,
    pub wetness_nodes: u32,
    pub keep_depth_m: u64,
    pub keep_area_m2: u64,
    pub pond_max_area_m2: u64,
    pub keep_max_area_m2: u64,
    pub min_stream_nodes: u64,
    pub notch_fall_m: u64,
    pub evaporation_factor: u64,
    pub salt_flat_share: u64,
    pub forced_requested: u32,
    pub forced_matched: u32,
    pub capped_basins: u32,
    pub capped_inner: u32,
    pub capped_inner_kept: u32,
    pub refine_step_m: u64,
    pub refine_simplify_m: u64,
    pub refine_vertical_m: u64,
    pub fall_min_drop_m: u64,
    pub fall_max_run_m: u64,
    pub meander_wavelength_widths: u64,
    pub meander_amplitude_widths: u64,
    pub meander_max_slope: u64,
    pub crossings_coarse: u32,
    pub crossings_left: u32,
    pub ponds_found: u32,
    pub ponds_kept: u32,
    pub pond_cell_m: u64,
    pub pond_search_radius_m: u64,
    pub pond_keep_depth_m: u64,
    pub pond_keep_area_m2: u64,
    pub pond_wetness_share: u64,
    pub pond_max_slope: u64,
    pub pond_density_area_m2: u64,
    pub shore_members: u32,
    pub collar_points: u32,
}

/// Everything a bake records, and the fingerprint of the ground it read.
#[derive(Debug, PartialEq)]
pub struct HydroRecord {
    pub bodies: Vec<Body>,
    pub reaches: Vec<ReachLine>,
    pub notches: Vec<NotchLine>,
    pub falls: Vec<Fall>,
    pub stats: BakeStats,
    pub ground: [u8; 16],
}

/// Why a bake could not be produced.
#[derive(Debug, Clone, PartialEq)]
pub enum HydroError {
    /// A parameter out of its range; the text names it.
    Params(&'static str),
    /// The node sampling could not be made.
    Sampling,
    /// The routing broke "everything drains": the node is the lowest-index one whose receiver
    /// chain cycles or stops on dry land. The bake refuses rather than lose that node's water.
    Drainage(u32),
}

} // verus!
