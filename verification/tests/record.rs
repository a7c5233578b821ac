use blake2::digest::{Update, VariableOutput};
use worldbuilder_engine::hydro::BodyKind;
use worldbuilder_engine::reaches::{Downstream, ReachClass};
use worldbuilder_engine::record::{
    GROUND_BYTES, PROBE_COUNT, body_kind_code, body_kind_of_code, bool_code, bool_of_code, count_fits,
    downstream_of_words, downstream_words, ground_fingerprint, ground_of_words, ground_words, mix64, probe_point,
    reach_class_code, reach_class_of_code,
};

const TWO_POW_MINUS_53: f64 = 1.0 / 9_007_199_254_740_992.0;

/// The probe as a unit vector: z and longitude from the library's exact integers, then one
/// `sqrt`, one `sin` and one `cos`, all from the pure-Rust `libm`.
fn probe_vector(index: usize) -> [f64; 3] {
    let seed = probe_point(index);
    let z = 2.0 * (seed.z_units as f64 * TWO_POW_MINUS_53) - 1.0;
    let longitude = 2.0 * std::f64::consts::PI * (seed.longitude_units as f64 * TWO_POW_MINUS_53);
    let across = libm::sqrt(1.0 - z * z);
    [across * libm::cos(longitude), across * libm::sin(longitude), z]
}

#[test]
fn a_probe_point_is_the_same_on_every_machine() {
    let pinned: [[u64; 3]; 3] = [
        [0xbfec_dafe_01b0_5edd, 0x3fdb_274f_9185_d339, 0xbfb5_37ee_b479_bda0],
        [0x3fdf_caa3_de04_078e, 0xbfea_5d8b_e8c5_81a8, 0x3fd1_750e_df85_c478],
        [0x3fb5_4dda_a35c_cc10, 0xbfef_b3c0_8446_befd, 0x3fbb_9367_af52_cb00],
    ];
    for (index, want) in pinned.iter().enumerate() {
        let v = probe_vector(index);
        let got = [v[0].to_bits(), v[1].to_bits(), v[2].to_bits()];
        assert_eq!(&got, want, "probe {index} moved");
    }
}

#[test]
fn the_probes_are_distinct_unit_vectors() {
    let points: Vec<[f64; 3]> = (0..PROBE_COUNT).map(probe_vector).collect();
    for (i, p) in points.iter().enumerate() {
        let length = (p[0] * p[0] + p[1] * p[1] + p[2] * p[2]).sqrt();
        assert!(length > 1.0 - 1e-12 && length < 1.0 + 1e-12, "probe {i} length {length}");
        for q in &points[..i] {
            assert!(p != q, "probe {i} repeats an earlier one");
        }
    }
}

#[test]
fn probe_zero_is_not_the_hash_of_zero() {
    let seed = probe_point(0);
    assert_eq!(seed.z_units, mix64(0x6772_6f75_6e64_7631) >> 11);
    assert!(seed.z_units < 1 << 53 && seed.longitude_units < 1 << 53);
}

#[test]
fn mix64_is_splitmix64s_finaliser() {
    // The finaliser applied to SplitMix64's first state increment.
    assert_eq!(mix64(0x9e37_79b9_7f4a_7c15), 0xe220_a839_7b1d_cdaf);
    assert_eq!(mix64(0), 0);
}

#[test]
fn a_count_fits_only_when_its_words_are_left() {
    assert!(count_fits(3, 16, 48));
    assert!(!count_fits(3, 16, 47));
    assert!(count_fits(0, 16, 0));
    assert!(!count_fits(usize::MAX, 2, usize::MAX), "an overflowing product never fits");
    assert!(!count_fits(3_000_000_000, 16, 1000));
}

#[test]
fn enum_codes_round_trip_and_refuse_the_rest() {
    for kind in [BodyKind::Lake, BodyKind::Pond, BodyKind::SaltLake, BodyKind::SaltFlat] {
        assert_eq!(body_kind_of_code(body_kind_code(kind)), Some(kind));
    }
    assert_eq!(body_kind_code(BodyKind::SaltFlat), 3);
    assert_eq!(body_kind_of_code(4), None);
    for class in [ReachClass::Stream, ReachClass::River, ReachClass::Great] {
        assert_eq!(reach_class_of_code(reach_class_code(class)), Some(class));
    }
    assert_eq!(reach_class_code(ReachClass::Great), 2);
    assert_eq!(reach_class_of_code(3), None);
    assert_eq!(bool_of_code(bool_code(true)), Some(true));
    assert_eq!(bool_of_code(bool_code(false)), Some(false));
    assert_eq!(bool_of_code(2), None);
}

#[test]
fn downstream_words_round_trip_and_need_the_right_id() {
    for d in [Downstream::Reach(4), Downstream::Body(0), Downstream::Ocean, Downstream::Sink] {
        let (kind, id) = downstream_words(d);
        assert_eq!(downstream_of_words(kind, id), Some(d));
    }
    assert_eq!(downstream_words(Downstream::Body(9)), (1, Some(9)));
    assert_eq!(downstream_words(Downstream::Sink), (3, None));
    assert_eq!(downstream_of_words(0, None), None, "a reach link needs its id");
    assert_eq!(downstream_of_words(2, Some(0)), None, "the ocean has no id");
    assert_eq!(downstream_of_words(4, None), None);
}

#[test]
fn ground_words_are_four_little_endian_bytes_each() {
    let ground: [u8; GROUND_BYTES] = [1, 2, 3, 4, 5, 6, 7, 8, 9, 10, 11, 12, 0xff, 0xfe, 0xfd, 0xfc];
    let words = ground_words(&ground);
    assert_eq!(words, [0x0403_0201, 0x0807_0605, 0x0c0b_0a09, 0xfcfd_feff]);
    assert_eq!(ground_of_words(&words), ground);
}

fn streamed_fingerprint(millimetre_bits: &[u64]) -> [u8; GROUND_BYTES] {
    let mut hasher = blake2::Blake2bVar::new(GROUND_BYTES).expect("16 is a valid BLAKE2b output length");
    hasher.update(b"worldbuilder hydro ground v1");
    for bits in millimetre_bits {
        hasher.update(&bits.to_le_bytes());
    }
    let mut out = [0u8; GROUND_BYTES];
    hasher.finalize_variable(&mut out).expect("output buffer is exactly 16 bytes");
    out
}

#[test]
fn the_fingerprint_is_blake2b_of_the_tag_and_the_samples() {
    let samples: Vec<u64> = (0..PROBE_COUNT).map(|i| ((i as f64) * 1000.0 - 31_999.0).to_bits()).collect();
    let digest = ground_fingerprint(&samples);
    assert_eq!(digest, streamed_fingerprint(&samples));
    assert_ne!(digest.to_vec(), samples[..2].iter().flat_map(|b| b.to_le_bytes()).collect::<Vec<u8>>());
}

#[test]
fn the_same_ground_fingerprints_the_same_and_other_ground_does_not() {
    let samples: Vec<u64> = (0..PROBE_COUNT).map(|i| (i as f64).to_bits()).collect();
    let once = ground_fingerprint(&samples);
    for _ in 0..4 {
        assert_eq!(once, ground_fingerprint(&samples));
    }
    let mut moved = samples.clone();
    moved[63] = 64.0f64.to_bits();
    assert_ne!(once, ground_fingerprint(&moved));
}
