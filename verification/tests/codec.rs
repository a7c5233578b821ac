use worldbuilder_engine::codec::{decode, encode};
use worldbuilder_engine::hydro::{BakeStats, Body, BodyKind, Fall, HydroRecord, NotchLine, ReachLine, ReachPoint};
use worldbuilder_engine::reaches::{Downstream, ReachClass};
use worldbuilder_engine::record::{HEADER_WORDS, SCHEMA_VERSION};
use worldbuilder_engine::words::{u32_word_of, word_to_u32};

const SCHEMA: f64 = 7.0;

fn w(x: f64) -> u64 {
    x.to_bits()
}

fn count(n: u32) -> u64 {
    f64::from(n).to_bits()
}

fn stats() -> BakeStats {
    BakeStats {
        nodes: 100,
        land_nodes: 40,
        hollows: 5,
        kept: 2,
        notched: 3,
        closed: 1,
        streams: 1,
        rivers: 1,
        great: 0,
        max_order: 2,
        bifurcation_min: w(2.5),
        bifurcation_max: w(4.0),
        stream_flow_m2: w(3.0e10),
        river_flow_m2: w(3.0e11),
        great_flow_m2: w(3.0e12),
        total_nodes: 100,
        wetness_nodes: 20,
        keep_depth_m: w(8.0),
        keep_area_m2: w(1.0e6),
        pond_max_area_m2: w(1.0e6),
        keep_max_area_m2: w(4.0e11),
        min_stream_nodes: w(10.0),
        notch_fall_m: w(1.0),
        evaporation_factor: w(1.0),
        salt_flat_share: w(0.1),
        forced_requested: 2,
        forced_matched: 1,
        capped_basins: 1,
        capped_inner: 2,
        capped_inner_kept: 1,
        refine_step_m: w(1_500.0),
        refine_simplify_m: w(500.0),
        refine_vertical_m: w(1.0),
        fall_min_drop_m: w(10.0),
        fall_max_run_m: w(150.0),
        meander_wavelength_widths: w(11.0),
        meander_amplitude_widths: w(1.5),
        meander_max_slope: w(0.002),
        crossings_coarse: 7,
        crossings_left: 2,
        ponds_found: 19,
        ponds_kept: 4,
        pond_cell_m: w(250.0),
        pond_search_radius_m: w(3_000.0),
        pond_keep_depth_m: w(2.0),
        pond_keep_area_m2: w(50_000.0),
        pond_wetness_share: w(0.6),
        pond_max_slope: w(0.03),
        pond_density_area_m2: w(5.0e8),
        shore_members: 0,
        collar_points: 0,
    }
}

fn point(a: f64, b: f64, c: f64, d: f64, e: f64, f: f64) -> ReachPoint {
    ReachPoint { lat_deg: w(a), lon_deg: w(b), bed_m: w(c), width_m: w(d), depth_m: w(e), flow_m2: w(f) }
}

fn lake() -> Body {
    Body {
        id: 0,
        kind: BodyKind::Lake,
        fresh: true,
        enclosed: false,
        forced: false,
        level_m: w(12.0),
        area_m2: w(2.0e6),
        depth_m: w(9.0),
        outlet_reach: Some(1),
        anchor: (w(10.0), w(20.0)),
        outline: Vec::new(),
        downstream: Downstream::Reach(1),
        shore_member_count: 0,
        shore_reach_m: w(0.0),
    }
}

fn salt_flat() -> Body {
    Body {
        id: 1,
        kind: BodyKind::SaltFlat,
        fresh: false,
        enclosed: true,
        forced: true,
        level_m: w(0.0),
        area_m2: w(5.0e5),
        depth_m: w(3.0),
        outlet_reach: None,
        anchor: (w(-5.0), w(40.0)),
        outline: Vec::new(),
        downstream: Downstream::Sink,
        shore_member_count: 0,
        shore_reach_m: w(0.0),
    }
}

const GROUND: [u8; 16] = [0x01, 0x02, 0x03, 0x04, 0x05, 0x06, 0x07, 0x08, 0x09, 0x0a, 0x0b, 0x0c, 0xfd, 0xfe, 0xff, 0x80];

fn sample() -> HydroRecord {
    HydroRecord {
        bodies: vec![lake(), salt_flat()],
        reaches: vec![
            ReachLine {
                id: 0,
                class: ReachClass::River,
                order: 2,
                downstream: Downstream::Body(0),
                fresh: true,
                points: vec![point(1.0, 2.0, 3.0, 4.0, 5.0, 6.0), point(7.0, 8.0, 9.0, 10.0, 11.0, 12.0)],
            },
            ReachLine {
                id: 1,
                class: ReachClass::Stream,
                order: 1,
                downstream: Downstream::Ocean,
                fresh: true,
                points: vec![point(0.0, 0.0, 0.0, 0.0, 0.0, 0.0)],
            },
        ],
        notches: vec![NotchLine { points: vec![(w(1.0), w(2.0), w(3.0), w(0.5)), (w(4.0), w(5.0), w(6.0), w(1.5))] }],
        falls: vec![Fall { reach: 0, at: (w(1.0), w(2.0)), height_m: w(3.0) }],
        stats: stats(),
        ground: GROUND,
    }
}

fn empty() -> HydroRecord {
    HydroRecord { bodies: Vec::new(), reaches: Vec::new(), notches: Vec::new(), falls: Vec::new(), stats: stats(), ground: GROUND }
}

#[test]
fn a_hand_built_record_round_trips_at_schema_7() {
    let record = sample();
    let words = encode(&record);
    assert_eq!(SCHEMA_VERSION, 7);
    assert_eq!(words[0], w(SCHEMA));
    assert_eq!(words[43], count(record.stats.crossings_coarse));
    assert_eq!(words[44], count(record.stats.crossings_left));
    assert_eq!(words[45], count(record.stats.ponds_found));
    assert_eq!(words[46], count(record.stats.ponds_kept));
    assert_eq!(words[47], record.stats.pond_cell_m);
    assert_eq!(words[48], record.stats.pond_search_radius_m);
    assert_eq!(words[49], record.stats.pond_keep_depth_m);
    assert_eq!(words[50], record.stats.pond_keep_area_m2);
    assert_eq!(words[51], record.stats.pond_wetness_share);
    assert_eq!(words[52], record.stats.pond_max_slope);
    assert_eq!(words[53], record.stats.pond_density_area_m2);
    assert_eq!(words[54], count(record.stats.shore_members));
    assert_eq!(words[55], count(record.stats.collar_points));
    assert_eq!(words[56], count(0x0403_0201));
    assert_eq!(words[57], count(0x0807_0605));
    assert_eq!(words[58], count(0x0c0b_0a09));
    assert_eq!(words[59], count(0x80ff_fefd));
    assert_eq!(decode(&words), Some(sample()));
}

#[test]
fn sample_bodies_start_after_the_sixty_word_header() {
    let record = sample();
    let words = encode(&record);
    assert_eq!(words[60], count(record.bodies[0].id));
    assert_eq!(encode(&empty()).len(), HEADER_WORDS);
    assert_eq!(HEADER_WORDS, 60);
}

#[test]
fn a_ponds_traced_outline_round_trips() {
    let mut record = sample();
    record.bodies[0].kind = BodyKind::Pond;
    record.bodies[0].outline = vec![(w(1.0), w(2.0)), (w(1.0), w(2.5)), (w(1.5), w(2.5))];
    let decoded = decode(&encode(&record)).expect("round trip");
    assert_eq!(decoded.bodies[0].outline, record.bodies[0].outline);
    assert_eq!(decoded.bodies[0].kind, BodyKind::Pond);
}

fn with_first_word(schema: f64) -> Vec<u64> {
    let mut words = encode(&sample());
    words[0] = w(schema);
    words
}

#[test]
fn a_schema_4_record_is_refused() {
    assert_eq!(decode(&with_first_word(4.0)), None, "SCHEMA 4 input must be refused outright, not adapted");
}

#[test]
fn a_schema_6_record_is_refused() {
    assert_eq!(decode(&with_first_word(6.0)), None, "SCHEMA 6 input must be refused outright, not adapted");
}

#[test]
fn a_schema_2_record_is_refused() {
    assert_eq!(decode(&with_first_word(2.0)), None, "SCHEMA 2 input must be refused outright, not adapted");
}

#[test]
fn a_wrong_schema_is_refused() {
    assert_eq!(decode(&with_first_word(SCHEMA + 1.0)), None);
}

#[test]
fn a_schema_five_record_is_refused() {
    let mut words = encode(&empty());
    words[0] = w(5.0);
    assert_eq!(decode(&words), None);
}

#[test]
fn decode_refuses_a_ground_word_that_is_not_four_bytes() {
    for at in 56..60 {
        for bogus in [0.5, -1.0, 4_294_967_296.0, f64::NAN] {
            let mut words = encode(&sample());
            words[at] = w(bogus);
            assert_eq!(decode(&words), None, "ground word {at} = {bogus}");
        }
    }
    let mut words = encode(&sample());
    words[56] = count(u32::MAX);
    assert_eq!(decode(&words).expect("u32::MAX is four bytes").ground[..4], [0xff; 4]);
}

#[test]
fn truncation_and_trailing_words_are_refused() {
    let words = encode(&sample());
    assert_eq!(decode(&words[..words.len() - 1].to_vec()), None, "truncated by one word");
    let mut padded = words.clone();
    padded.push(w(0.0));
    assert_eq!(decode(&padded), None, "trailing word");
    assert_eq!(decode(&Vec::new()), None, "empty");
}

#[test]
fn decode_refuses_absurd_counts_without_allocating() {
    let mut words = encode(&sample());
    words[1] = w(3.0e9);
    assert_eq!(decode(&words), None, "absurd body_count must be refused, not allocated");
    let mut words = encode(&sample());
    words[2] = w(4.0e9);
    assert_eq!(decode(&words), None, "absurd reach_count must be refused, not allocated");
}

#[test]
fn the_header_is_sixty_words() {
    assert_eq!(encode(&empty()).len(), 60);
    assert_eq!(encode(&empty())[0], w(7.0));
}

#[test]
fn a_body_carries_its_extent_words() {
    let mut record = empty();
    let mut body = lake();
    body.outline = vec![(w(1.0), w(2.0)), (w(1.0), w(2.5)), (w(1.5), w(2.5)), (w(1.5), w(2.0))];
    body.shore_member_count = 3;
    body.shore_reach_m = w(41_000.5);
    record.bodies.push(body);
    let words = encode(&record);
    let decoded = decode(&words).expect("decode");
    assert_eq!(decoded.bodies[0].shore_member_count, 3);
    assert_eq!(decoded.bodies[0].shore_reach_m, w(41_000.5));
    assert_eq!(words[HEADER_WORDS + 13], count(3));
    assert_eq!(words[HEADER_WORDS + 14], w(41_000.5));
}

/// A one-body record whose outline is `points` long and whose extent words are set by hand.
fn one_body_with_extent(points: usize, shore_member_count: u32, shore_reach_m: f64) -> Vec<u64> {
    let mut body = lake();
    body.outline = (0..points).map(|i| (w(i as f64), w(i as f64))).collect();
    body.shore_member_count = shore_member_count;
    body.shore_reach_m = w(shore_reach_m);
    let mut record = empty();
    record.bodies.push(body);
    encode(&record)
}

#[test]
fn decode_refuses_a_body_claiming_more_shore_members_than_it_has_outline_points() {
    let some_members = one_body_with_extent(4, 3, 1_000.0);
    assert!(decode(&some_members).is_some(), "count < outline_len is a legal extent");
    let outline_len_word = HEADER_WORDS + 15;
    for bogus in [5.0, 4.0e9, f64::from(u32::MAX)] {
        let mut words = one_body_with_extent(4, 3, 1_000.0);
        assert_eq!(words[outline_len_word], count(4), "sanity: this world's body has 4 outline points");
        words[HEADER_WORDS + 13] = w(bogus);
        assert_eq!(decode(&words), None, "shore_member_count {bogus} exceeds the 4-point outline");
    }
}

#[test]
fn decode_refuses_a_shore_point_body_with_no_collar() {
    for points in [1u32, 2, 3, 4, 9] {
        let length = points as usize;
        let all_members = one_body_with_extent(length, points, 1_000.0);
        assert_eq!(decode(&all_members), None, "{points} members of a {points}-point outline leaves no collar");
        if points < 2 {
            continue;
        }
        let with_collar = one_body_with_extent(length, points - 1, 1_000.0);
        assert!(decode(&with_collar).is_some(), "{} members of a {points}-point outline is a legal extent", points - 1);
    }
    for points in [3usize, 4, 12] {
        assert!(decode(&one_body_with_extent(points, 0, 0.0)).is_some(),
                "a {points}-point traced ring is not a collarless extent");
    }
}

#[test]
fn decode_refuses_a_non_finite_or_negative_shore_reach() {
    for bogus in [f64::NAN, f64::INFINITY, f64::NEG_INFINITY, -1.0, -0.5] {
        let mut words = one_body_with_extent(4, 2, 1_000.0);
        words[HEADER_WORDS + 14] = w(bogus);
        assert_eq!(decode(&words), None, "shore_reach_m {bogus} is not a usable distance");
    }
    for fine in [0.0, 1.0e300] {
        let mut words = one_body_with_extent(4, 2, 1_000.0);
        words[HEADER_WORDS + 14] = w(fine);
        assert_eq!(decode(&words).expect("decode").bodies[0].shore_reach_m, w(fine));
    }
}

#[test]
fn word_to_u32_rejects_non_integral_negative_and_out_of_range_values() {
    assert_eq!(word_to_u32(w(3.0)), Some(3));
    assert_eq!(word_to_u32(w(3.5)), None);
    assert_eq!(word_to_u32(w(-1.0)), None);
    assert_eq!(word_to_u32(w(f64::NAN)), None);
    assert_eq!(word_to_u32(w(f64::INFINITY)), None);
    assert_eq!(word_to_u32(w(u32::MAX as f64 + 2.0)), None);
}

#[test]
fn every_small_count_is_its_own_f64() {
    for n in [0u32, 1, 2, 3, 7, 255, 256, 65_535, 1 << 31, u32::MAX - 1, u32::MAX] {
        assert_eq!(u32_word_of(n), f64::from(n).to_bits());
        assert_eq!(word_to_u32(u32_word_of(n)), Some(n));
    }
    assert_eq!(word_to_u32(w(-0.0)), Some(0), "-0.0 is zero");
    assert_eq!(word_to_u32(w(1.0e-300)), None);
    assert_eq!(word_to_u32(w(4_294_967_296.0)), None);
}

#[test]
fn a_negative_zero_count_still_reads() {
    let mut words = encode(&empty());
    words[1] = w(-0.0);
    assert_eq!(decode(&words), Some(empty()));
}

#[test]
fn reading_then_writing_gives_the_words_back_but_a_negative_zero_count() {
    let mut words = encode(&empty());
    // The falls count is zero; written as -0.0 it still reads, and writes back as +0.0.
    assert_eq!(words[4], 0);
    words[4] = 0x8000_0000_0000_0000;
    let again = worldbuilder_engine::rewriting::reencode(&words).expect("the words are a record");
    assert_eq!(again.len(), words.len());
    for (i, (a, b)) in again.iter().zip(words.iter()).enumerate() {
        if i == 4 {
            assert_eq!(*a, 0);
        } else {
            assert_eq!(a, b, "word {i}");
        }
    }
    assert!(worldbuilder_engine::rewriting::reencode(&words[..59].to_vec()).is_none());
}
