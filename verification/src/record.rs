//! The integer words of the bake's record: its sizes, the test that refuses a count the
//! record cannot hold, the codes its enums travel as, the ground fingerprint and the fixed
//! scatter of points that fingerprint samples.
use vstd::prelude::*;
use crate::reaches::{Downstream, ReachClass};
use crate::hydro::BodyKind;

verus! {

/// The record's schema version, the value of its first word.
pub const SCHEMA_VERSION: u32 = 7;

/// Words in the header: everything up to and including the ground fingerprint.
pub const HEADER_WORDS: usize = 60;

/// How many points of ground the fingerprint samples.
pub const PROBE_COUNT: usize = 64;

/// Bytes in a ground fingerprint, and on the wire four `u32` words of four bytes each.
pub const GROUND_BYTES: usize = 16;

/// Before a decoded count sizes an allocation or drives a loop it is checked against the words
/// left: `count` items of at least `min_words` words each must fit in `remaining`. A product
/// that overflows `usize` does not fit.
pub fn count_fits(count: usize, min_words: usize, remaining: usize) -> (fits: bool)
    ensures
        fits <==> count * min_words <= remaining,
{
    match count.checked_mul(min_words) {
        Some(need) => need <= remaining,
        None => {
            assert(count * min_words > usize::MAX);
            false
        },
    }
}

/// SplitMix64's finaliser, all of it wrapping 64-bit arithmetic.
pub open spec fn mix64_spec(z: u64) -> u64 {
    let a = (z ^ (z >> 30u64)).wrapping_mul(0xbf58_476d_1ce4_e5b9u64);
    let b = (a ^ (a >> 27u64)).wrapping_mul(0x94d0_49bb_1331_11ebu64);
    b ^ (b >> 31u64)
}

/// SplitMix64's finaliser: a cheap, well-mixed integer hash that gives the same bits on every
/// host and every target.
pub fn mix64(z: u64) -> (h: u64)
    ensures
        h == mix64_spec(z),
{
    let a = (z ^ (z >> 30u64)).wrapping_mul(0xbf58_476d_1ce4_e5b9u64);
    let b = (a ^ (a >> 27u64)).wrapping_mul(0x94d0_49bb_1331_11ebu64);
    b ^ (b >> 31u64)
}

/// The fixed salt of the scatter, so probe 0 is not the hash of zero.
pub const PROBE_SALT: u64 = 0x6772_6f75_6e64_7631;

/// The salt turned left by 17 bits, mixed into the second hash of each probe.
pub open spec fn turned_salt() -> u64 {
    (PROBE_SALT << 17u64) | (PROBE_SALT >> 47u64)
}

/// The first hash of probe `index`, which places it in height along the axis.
pub open spec fn probe_hash_z(index: u64) -> u64 {
    mix64_spec(PROBE_SALT ^ index.wrapping_mul(0x9e37_79b9_7f4a_7c15u64))
}

/// The second hash of probe `index`, which places it in longitude.
pub open spec fn probe_hash_longitude(index: u64) -> u64 {
    mix64_spec(probe_hash_z(index) ^ turned_salt())
}

/// Where a probe of the fingerprint's scatter stands, as the two integers below `2^53` that its
/// coordinates are exact fractions of: `z = 2 * z_units / 2^53 - 1` and
/// `longitude = 2 * pi * longitude_units / 2^53`. Uniform `z` and uniform longitude are
/// uniform by area on the sphere.
#[derive(Debug, Clone, Copy, PartialEq, Eq, Structural)]
pub struct ProbeSeed {
    pub z_units: u64,
    pub longitude_units: u64,
}

/// Probe `index` of the fingerprint's fixed scatter: two integer hashes of the index, each
/// kept to its top 53 bits. Everything a host could round differently comes after this.
pub fn probe_point(index: usize) -> (seed: ProbeSeed)
    ensures
        seed.z_units == probe_hash_z(index as u64) >> 11u64,
        seed.longitude_units == probe_hash_longitude(index as u64) >> 11u64,
        seed.z_units < 0x20_0000_0000_0000u64,
        seed.longitude_units < 0x20_0000_0000_0000u64,
{
    let i = index as u64;
    let turned = (PROBE_SALT << 17u64) | (PROBE_SALT >> 47u64);
    let a = mix64(PROBE_SALT ^ i.wrapping_mul(0x9e37_79b9_7f4a_7c15u64));
    let b = mix64(a ^ turned);
    let z_units = a >> 11u64;
    let longitude_units = b >> 11u64;
    assert(a >> 11u64 < 0x20_0000_0000_0000u64) by (bit_vector);
    assert(b >> 11u64 < 0x20_0000_0000_0000u64) by (bit_vector);
    ProbeSeed { z_units, longitude_units }
}

/// The height units of probe `k` of the fingerprint's 64, read off a table.
pub open spec fn probe_height_table(k: int) -> u64 {
    if k == 0 {
        0xeac8114b86426u64
    } else if k == 1 {
        0x145d43b7e1711eu64
    } else if k == 2 {
        0x11b9367af52cb0u64
    } else if k == 3 {
        0x2ea618a156179u64
    } else if k == 4 {
        0x48bd6a2660064u64
    } else if k == 5 {
        0x187e06c05a3975u64
    } else if k == 6 {
        0x13049079188314u64
    } else if k == 7 {
        0x1af5a67217f040u64
    } else if k == 8 {
        0x1e04689b9ff67au64
    } else if k == 9 {
        0x11111f958fa3d5u64
    } else if k == 10 {
        0xe9814a5b8be79u64
    } else if k == 11 {
        0x1fc4cbf2fb9242u64
    } else if k == 12 {
        0x12ac7d28a0849fu64
    } else if k == 13 {
        0x125aef95d357a4u64
    } else if k == 14 {
        0x10f992594d04adu64
    } else if k == 15 {
        0x81770cd0951d4u64
    } else if k == 16 {
        0x11643143d20f58u64
    } else if k == 17 {
        0x1fe85ae421d467u64
    } else if k == 18 {
        0x2f002667d5f18u64
    } else if k == 19 {
        0x1a70304d8c3bf5u64
    } else if k == 20 {
        0x1cd13208a7ca31u64
    } else if k == 21 {
        0x3d638fe1d71e8u64
    } else if k == 22 {
        0xf3f90ff1a8a0eu64
    } else if k == 23 {
        0xf74acb43673eau64
    } else if k == 24 {
        0xd5cea57e8e0cu64
    } else if k == 25 {
        0xc4c8e92a95a47u64
    } else if k == 26 {
        0xbfb7d1bd8e444u64
    } else if k == 27 {
        0x1ed27b068db2d8u64
    } else if k == 28 {
        0x14df18dedcc0bfu64
    } else if k == 29 {
        0xd6d7b75383f3au64
    } else if k == 30 {
        0x5ecc47482ef49u64
    } else if k == 31 {
        0x1e219fcdbc6613u64
    } else if k == 32 {
        0xab9e6dfb0c1c0u64
    } else if k == 33 {
        0x9b001889fe939u64
    } else if k == 34 {
        0x1c20a18d29203fu64
    } else if k == 35 {
        0xc3e86916d337du64
    } else if k == 36 {
        0x73d20bdbc0aafu64
    } else if k == 37 {
        0x60b95531a2603u64
    } else if k == 38 {
        0xa3f355b4da617u64
    } else if k == 39 {
        0xa66480c1542d4u64
    } else if k == 40 {
        0x10ad48d373e68u64
    } else if k == 41 {
        0x9e9c2dbf1d7deu64
    } else if k == 42 {
        0x12c45e26c0827du64
    } else if k == 43 {
        0x4329faa82fa61u64
    } else if k == 44 {
        0xb940aeac0333fu64
    } else if k == 45 {
        0x1aac132053beaau64
    } else if k == 46 {
        0xd443caba44a5du64
    } else if k == 47 {
        0x120d66c18104d6u64
    } else if k == 48 {
        0x1faff085ec757au64
    } else if k == 49 {
        0x348896847d25fu64
    } else if k == 50 {
        0x2ac9997a47673u64
    } else if k == 51 {
        0x3c9d29d3920a2u64
    } else if k == 52 {
        0x2158aa52b3152u64
    } else if k == 53 {
        0x1cdd2a0013702bu64
    } else if k == 54 {
        0x204dcc93da663u64
    } else if k == 55 {
        0x211ff03f65456u64
    } else if k == 56 {
        0x1cf0b99a6cddb4u64
    } else if k == 57 {
        0x1b87a07cd4bc69u64
    } else if k == 58 {
        0x705d595515fd4u64
    } else if k == 59 {
        0xe4d327e440dffu64
    } else if k == 60 {
        0x12a6335317c0e3u64
    } else if k == 61 {
        0xdc32f55110c35u64
    } else if k == 62 {
        0x11eb894eb95f6fu64
    } else {
        0x131e4f036cb85fu64
    }
}

/// The fingerprint's 64 probes stand at 64 different places: no two share even their height.
#[verifier::spinoff_prover]
#[verifier::rlimit(100)]
pub proof fn lemma_probes_distinct(i: usize, j: usize)
    requires
        i < j < 64,
    ensures
        probe_hash_z(i as u64) >> 11u64 != probe_hash_z(j as u64) >> 11u64,
{
    assert(probe_hash_z(0u64) >> 11u64 == 0xeac8114b86426u64 && probe_hash_z(1u64) >> 11u64 == 0x145d43b7e1711eu64 && probe_hash_z(2u64) >> 11u64 == 0x11b9367af52cb0u64 && probe_hash_z(3u64) >> 11u64 == 0x2ea618a156179u64 && probe_hash_z(4u64) >> 11u64 == 0x48bd6a2660064u64 && probe_hash_z(5u64) >> 11u64 == 0x187e06c05a3975u64 && probe_hash_z(6u64) >> 11u64 == 0x13049079188314u64 && probe_hash_z(7u64) >> 11u64 == 0x1af5a67217f040u64) by (bit_vector);
    assert(probe_hash_z(8u64) >> 11u64 == 0x1e04689b9ff67au64 && probe_hash_z(9u64) >> 11u64 == 0x11111f958fa3d5u64 && probe_hash_z(10u64) >> 11u64 == 0xe9814a5b8be79u64 && probe_hash_z(11u64) >> 11u64 == 0x1fc4cbf2fb9242u64 && probe_hash_z(12u64) >> 11u64 == 0x12ac7d28a0849fu64 && probe_hash_z(13u64) >> 11u64 == 0x125aef95d357a4u64 && probe_hash_z(14u64) >> 11u64 == 0x10f992594d04adu64 && probe_hash_z(15u64) >> 11u64 == 0x81770cd0951d4u64) by (bit_vector);
    assert(probe_hash_z(16u64) >> 11u64 == 0x11643143d20f58u64 && probe_hash_z(17u64) >> 11u64 == 0x1fe85ae421d467u64 && probe_hash_z(18u64) >> 11u64 == 0x2f002667d5f18u64 && probe_hash_z(19u64) >> 11u64 == 0x1a70304d8c3bf5u64 && probe_hash_z(20u64) >> 11u64 == 0x1cd13208a7ca31u64 && probe_hash_z(21u64) >> 11u64 == 0x3d638fe1d71e8u64 && probe_hash_z(22u64) >> 11u64 == 0xf3f90ff1a8a0eu64 && probe_hash_z(23u64) >> 11u64 == 0xf74acb43673eau64) by (bit_vector);
    assert(probe_hash_z(24u64) >> 11u64 == 0xd5cea57e8e0cu64 && probe_hash_z(25u64) >> 11u64 == 0xc4c8e92a95a47u64 && probe_hash_z(26u64) >> 11u64 == 0xbfb7d1bd8e444u64 && probe_hash_z(27u64) >> 11u64 == 0x1ed27b068db2d8u64 && probe_hash_z(28u64) >> 11u64 == 0x14df18dedcc0bfu64 && probe_hash_z(29u64) >> 11u64 == 0xd6d7b75383f3au64 && probe_hash_z(30u64) >> 11u64 == 0x5ecc47482ef49u64 && probe_hash_z(31u64) >> 11u64 == 0x1e219fcdbc6613u64) by (bit_vector);
    assert(probe_hash_z(32u64) >> 11u64 == 0xab9e6dfb0c1c0u64 && probe_hash_z(33u64) >> 11u64 == 0x9b001889fe939u64 && probe_hash_z(34u64) >> 11u64 == 0x1c20a18d29203fu64 && probe_hash_z(35u64) >> 11u64 == 0xc3e86916d337du64 && probe_hash_z(36u64) >> 11u64 == 0x73d20bdbc0aafu64 && probe_hash_z(37u64) >> 11u64 == 0x60b95531a2603u64 && probe_hash_z(38u64) >> 11u64 == 0xa3f355b4da617u64 && probe_hash_z(39u64) >> 11u64 == 0xa66480c1542d4u64) by (bit_vector);
    assert(probe_hash_z(40u64) >> 11u64 == 0x10ad48d373e68u64 && probe_hash_z(41u64) >> 11u64 == 0x9e9c2dbf1d7deu64 && probe_hash_z(42u64) >> 11u64 == 0x12c45e26c0827du64 && probe_hash_z(43u64) >> 11u64 == 0x4329faa82fa61u64 && probe_hash_z(44u64) >> 11u64 == 0xb940aeac0333fu64 && probe_hash_z(45u64) >> 11u64 == 0x1aac132053beaau64 && probe_hash_z(46u64) >> 11u64 == 0xd443caba44a5du64 && probe_hash_z(47u64) >> 11u64 == 0x120d66c18104d6u64) by (bit_vector);
    assert(probe_hash_z(48u64) >> 11u64 == 0x1faff085ec757au64 && probe_hash_z(49u64) >> 11u64 == 0x348896847d25fu64 && probe_hash_z(50u64) >> 11u64 == 0x2ac9997a47673u64 && probe_hash_z(51u64) >> 11u64 == 0x3c9d29d3920a2u64 && probe_hash_z(52u64) >> 11u64 == 0x2158aa52b3152u64 && probe_hash_z(53u64) >> 11u64 == 0x1cdd2a0013702bu64 && probe_hash_z(54u64) >> 11u64 == 0x204dcc93da663u64 && probe_hash_z(55u64) >> 11u64 == 0x211ff03f65456u64) by (bit_vector);
    assert(probe_hash_z(56u64) >> 11u64 == 0x1cf0b99a6cddb4u64 && probe_hash_z(57u64) >> 11u64 == 0x1b87a07cd4bc69u64 && probe_hash_z(58u64) >> 11u64 == 0x705d595515fd4u64 && probe_hash_z(59u64) >> 11u64 == 0xe4d327e440dffu64 && probe_hash_z(60u64) >> 11u64 == 0x12a6335317c0e3u64 && probe_hash_z(61u64) >> 11u64 == 0xdc32f55110c35u64 && probe_hash_z(62u64) >> 11u64 == 0x11eb894eb95f6fu64 && probe_hash_z(63u64) >> 11u64 == 0x131e4f036cb85fu64) by (bit_vector);
    assert(probe_hash_z(i as u64) >> 11u64 == probe_height_table(i as int));
    assert(probe_hash_z(j as u64) >> 11u64 == probe_height_table(j as int));
}

/// The code a body's kind travels as.
pub open spec fn body_kind_code_spec(kind: BodyKind) -> u32 {
    match kind {
        BodyKind::Lake => 0,
        BodyKind::Pond => 1,
        BodyKind::SaltLake => 2,
        BodyKind::SaltFlat => 3,
    }
}

/// The kind a code stands for; no kind for a code past the last.
pub open spec fn body_kind_of_code_spec(code: u32) -> Option<BodyKind> {
    if code == 0 {
        Some(BodyKind::Lake)
    } else if code == 1 {
        Some(BodyKind::Pond)
    } else if code == 2 {
        Some(BodyKind::SaltLake)
    } else if code == 3 {
        Some(BodyKind::SaltFlat)
    } else {
        None
    }
}

pub fn body_kind_code(kind: BodyKind) -> (code: u32)
    ensures
        code == body_kind_code_spec(kind),
{
    match kind {
        BodyKind::Lake => 0,
        BodyKind::Pond => 1,
        BodyKind::SaltLake => 2,
        BodyKind::SaltFlat => 3,
    }
}

pub fn body_kind_of_code(code: u32) -> (kind: Option<BodyKind>)
    ensures
        kind == body_kind_of_code_spec(code),
{
    if code == 0 {
        Some(BodyKind::Lake)
    } else if code == 1 {
        Some(BodyKind::Pond)
    } else if code == 2 {
        Some(BodyKind::SaltLake)
    } else if code == 3 {
        Some(BodyKind::SaltFlat)
    } else {
        None
    }
}

/// A kind read back from its code is the kind written, and a code that reads back as a kind
/// is that kind's code: the codes are exactly `0..4`.
pub proof fn lemma_body_kind_codes_round_trip(kind: BodyKind, code: u32)
    ensures
        body_kind_of_code_spec(body_kind_code_spec(kind)) == Some(kind),
        body_kind_of_code_spec(code) matches Some(k) ==> body_kind_code_spec(k) == code,
        body_kind_of_code_spec(code) is Some <==> code < 4,
{
}

/// The code a reach's class travels as.
pub open spec fn reach_class_code_spec(class: ReachClass) -> u32 {
    match class {
        ReachClass::Stream => 0,
        ReachClass::River => 1,
        ReachClass::Great => 2,
    }
}

/// The class a code stands for; no class for a code past the last.
pub open spec fn reach_class_of_code_spec(code: u32) -> Option<ReachClass> {
    if code == 0 {
        Some(ReachClass::Stream)
    } else if code == 1 {
        Some(ReachClass::River)
    } else if code == 2 {
        Some(ReachClass::Great)
    } else {
        None
    }
}

pub fn reach_class_code(class: ReachClass) -> (code: u32)
    ensures
        code == reach_class_code_spec(class),
{
    match class {
        ReachClass::Stream => 0,
        ReachClass::River => 1,
        ReachClass::Great => 2,
    }
}

pub fn reach_class_of_code(code: u32) -> (class: Option<ReachClass>)
    ensures
        class == reach_class_of_code_spec(code),
{
    if code == 0 {
        Some(ReachClass::Stream)
    } else if code == 1 {
        Some(ReachClass::River)
    } else if code == 2 {
        Some(ReachClass::Great)
    } else {
        None
    }
}

/// A class read back from its code is the class written; the codes are exactly `0..3`.
pub proof fn lemma_reach_class_codes_round_trip(class: ReachClass, code: u32)
    ensures
        reach_class_of_code_spec(reach_class_code_spec(class)) == Some(class),
        reach_class_of_code_spec(code) matches Some(c) ==> reach_class_code_spec(c) == code,
        reach_class_of_code_spec(code) is Some <==> code < 3,
{
}

/// A downstream link as its two words: the kind (0 a reach, 1 a body, 2 the ocean, 3 a sink)
/// and the id, which the ocean and a sink do not have (on the wire, `-1`).
pub open spec fn downstream_words_spec(downstream: Downstream) -> (u32, Option<u32>) {
    match downstream {
        Downstream::Reach(id) => (0, Some(id)),
        Downstream::Body(id) => (1, Some(id)),
        Downstream::Ocean => (2, None),
        Downstream::Sink => (3, None),
    }
}

/// The link two words stand for: a reach or a body must carry an id, the ocean and a sink
/// must not, and no other kind exists.
pub open spec fn downstream_of_words_spec(kind: u32, id: Option<u32>) -> Option<Downstream> {
    if kind == 0 {
        match id {
            Some(n) => Some(Downstream::Reach(n)),
            None => None,
        }
    } else if kind == 1 {
        match id {
            Some(n) => Some(Downstream::Body(n)),
            None => None,
        }
    } else if kind == 2 {
        if id is None { Some(Downstream::Ocean) } else { None }
    } else if kind == 3 {
        if id is None { Some(Downstream::Sink) } else { None }
    } else {
        None
    }
}

pub fn downstream_words(downstream: Downstream) -> (words: (u32, Option<u32>))
    ensures
        words == downstream_words_spec(downstream),
{
    match downstream {
        Downstream::Reach(id) => (0, Some(id)),
        Downstream::Body(id) => (1, Some(id)),
        Downstream::Ocean => (2, None),
        Downstream::Sink => (3, None),
    }
}

pub fn downstream_of_words(kind: u32, id: Option<u32>) -> (downstream: Option<Downstream>)
    ensures
        downstream == downstream_of_words_spec(kind, id),
{
    if kind == 0 {
        match id {
            Some(n) => Some(Downstream::Reach(n)),
            None => None,
        }
    } else if kind == 1 {
        match id {
            Some(n) => Some(Downstream::Body(n)),
            None => None,
        }
    } else if kind == 2 {
        if id.is_none() { Some(Downstream::Ocean) } else { None }
    } else if kind == 3 {
        if id.is_none() { Some(Downstream::Sink) } else { None }
    } else {
        None
    }
}

/// A link read back from its words is the link written, and two words that read back as a
/// link are that link's words.
pub proof fn lemma_downstream_words_round_trip(downstream: Downstream, kind: u32, id: Option<u32>)
    ensures
        downstream_of_words_spec(downstream_words_spec(downstream).0,
            downstream_words_spec(downstream).1) == Some(downstream),
        downstream_of_words_spec(kind, id) matches Some(d) ==> downstream_words_spec(d) == (kind, id),
{
}

/// A flag as a word: 1 for true, 0 for false.
pub open spec fn bool_code_spec(b: bool) -> u32 {
    if b { 1 } else { 0 }
}

pub fn bool_code(b: bool) -> (code: u32)
    ensures
        code == bool_code_spec(b),
{
    if b { 1 } else { 0 }
}

/// A word as a flag: only 0 and 1 are flags.
pub fn bool_of_code(code: u32) -> (b: Option<bool>)
    ensures
        b == (if code == 0 { Some(false) } else if code == 1 { Some(true) } else { None::<bool> }),
{
    if code == 0 {
        Some(false)
    } else if code == 1 {
        Some(true)
    } else {
        None
    }
}

/// Four bytes, little-endian, as one integer.
pub open spec fn le_word(b0: u8, b1: u8, b2: u8, b3: u8) -> int {
    b0 + 256 * b1 + 65536 * b2 + 16777216 * b3
}

/// The ground fingerprint's words: bytes `4k..4k+4` of the digest, little-endian, in word `k`.
pub open spec fn ground_words_spec(ground: Seq<u8>) -> Seq<u32> {
    Seq::new(4, |k: int| le_word(ground[4 * k], ground[4 * k + 1], ground[4 * k + 2],
        ground[4 * k + 3]) as u32)
}

fn le_bytes_of(word: u32) -> (bytes: (u8, u8, u8, u8))
    ensures
        le_word(bytes.0, bytes.1, bytes.2, bytes.3) == word,
{
    let b0 = (word & 0xff) as u8;
    let b1 = ((word >> 8u32) & 0xff) as u8;
    let b2 = ((word >> 16u32) & 0xff) as u8;
    let b3 = (word >> 24u32) as u8;
    assert(word == (word & 0xff) + 256 * ((word >> 8u32) & 0xff) + 65536 * ((word >> 16u32)
        & 0xff) + 16777216 * (word >> 24u32)) by (bit_vector);
    assert((word & 0xff) < 256 && ((word >> 8u32) & 0xff) < 256 && ((word >> 16u32) & 0xff) < 256
        && (word >> 24u32) < 256) by (bit_vector);
    (b0, b1, b2, b3)
}

fn le_word_of(b0: u8, b1: u8, b2: u8, b3: u8) -> (word: u32)
    ensures
        word == le_word(b0, b1, b2, b3),
{
    b0 as u32 + 256 * (b1 as u32) + 65536 * (b2 as u32) + 16777216 * (b3 as u32)
}

/// The digest's sixteen bytes as four words, four bytes each, little-endian.
pub fn ground_words(ground: &[u8; 16]) -> (words: [u32; 4])
    ensures
        words@ == ground_words_spec(ground@),
{
    let mut words = [0u32; 4];
    let mut k: usize = 0;
    while k < 4
        invariant
            k <= 4,
            ground@.len() == 16,
            words@.len() == 4,
            forall|j: int| 0 <= j < k ==> words@[j] == ground_words_spec(ground@)[j],
        decreases 4 - k,
    {
        let word = le_word_of(ground[4 * k], ground[4 * k + 1], ground[4 * k + 2], ground[4 * k + 3]);
        words[k] = word;
        k += 1;
    }
    assert(words@ =~= ground_words_spec(ground@));
    words
}

/// Four words back into the sixteen bytes they carry: the one digest whose words they are.
pub fn ground_of_words(words: &[u32; 4]) -> (ground: [u8; 16])
    ensures
        ground_words_spec(ground@) == words@,
{
    let mut ground = [0u8; 16];
    let mut k: usize = 0;
    while k < 4
        invariant
            k <= 4,
            words@.len() == 4,
            ground@.len() == 16,
            forall|j: int| 0 <= j < k ==> ground_words_spec(ground@)[j] == words@[j],
        decreases 4 - k,
    {
        let (b0, b1, b2, b3) = le_bytes_of(words[k]);
        ground[4 * k] = b0;
        ground[4 * k + 1] = b1;
        ground[4 * k + 2] = b2;
        ground[4 * k + 3] = b3;
        k += 1;
    }
    assert(ground_words_spec(ground@) =~= words@);
    ground
}

proof fn lemma_le_word_injective(a0: u8, a1: u8, a2: u8, a3: u8, c0: u8, c1: u8, c2: u8, c3: u8)
    requires
        le_word(a0, a1, a2, a3) == le_word(c0, c1, c2, c3),
    ensures
        a0 == c0 && a1 == c1 && a2 == c2 && a3 == c3,
{
    assert(a0 + 256 * a1 + 65536 * a2 + 16777216 * a3 == c0 + 256 * c1 + 65536 * c2
        + 16777216 * c3 ==> a0 == c0 && a1 == c1 && a2 == c2 && a3 == c3) by (bit_vector);
}

/// Reading a digest's words back gives the digest: no two digests share their words.
pub proof fn lemma_ground_words_determine_the_digest(a: Seq<u8>, b: Seq<u8>)
    requires
        a.len() == 16,
        b.len() == 16,
        ground_words_spec(a) == ground_words_spec(b),
    ensures
        a == b,
{
    assert forall|i: int| 0 <= i < 16 implies a[i] == b[i] by {
        let k = i / 4;
        assert(0 <= k < 4 && 4 * k <= i < 4 * k + 4);
        let wa = le_word(a[4 * k], a[4 * k + 1], a[4 * k + 2], a[4 * k + 3]);
        let wb = le_word(b[4 * k], b[4 * k + 1], b[4 * k + 2], b[4 * k + 3]);
        assert(0 <= wa < 0x1_0000_0000 && 0 <= wb < 0x1_0000_0000);
        assert(ground_words_spec(a)[k] == wa as u32 && ground_words_spec(b)[k] == wb as u32);
        assert(ground_words_spec(a)[k] == ground_words_spec(b)[k]);
        lemma_le_word_injective(a[4 * k], a[4 * k + 1], a[4 * k + 2], a[4 * k + 3], b[4 * k],
            b[4 * k + 1], b[4 * k + 2], b[4 * k + 3]);
    }
    assert(a =~= b);
}

/// The digest BLAKE2b gives a message at a 16-byte output (the length is mixed into the hash's
/// initial state, so this is its own hash and not a prefix of a longer one).
pub uninterp spec fn blake2b_16(message: Seq<u8>) -> Seq<u8>;

/// BLAKE2b at a 16-byte output, through `blake2::Blake2bVar` and its
/// `VariableOutput::digest_variable`: a hasher made for the output's length, fed the message,
/// finalised into the output. The contract claims that the digest is the named function of the
/// message and nothing more; sixteen bytes is within the hash's 64-byte limit, so the call does
/// not fail.
#[verifier::external_body]
fn blake2b_16_digest(message: &[u8]) -> (digest: [u8; 16])
    ensures
        digest@ == blake2b_16(message@),
{
    let mut out = [0u8; 16];
    <blake2::Blake2bVar as blake2::digest::VariableOutput>::digest_variable(message, &mut out)
        .expect("sixteen bytes is a valid BLAKE2b output length");
    out
}

/// The tag that leads the fingerprint's message.
pub open spec fn ground_tag() -> Seq<u8> {
    seq![119u8, 111u8, 114u8, 108u8, 100u8, 98u8, 117u8, 105u8, 108u8, 100u8, 101u8, 114u8, 32u8, 104u8, 121u8, 100u8, 114u8, 111u8, 32u8, 103u8, 114u8, 111u8, 117u8, 110u8, 100u8, 32u8, 118u8, 49u8]
}

/// The eight little-endian bytes of a 64-bit word.
pub open spec fn le_bytes_u64(x: u64) -> Seq<u8> {
    Seq::new(8, |k: int| (x >> (8 * k) as u64) as u8)
}

/// The samples of the fingerprint's message: each millimetre value's bit pattern, as its eight
/// little-endian bytes, in probe order.
pub open spec fn ground_samples(bits: Seq<u64>) -> Seq<u8>
    decreases bits.len(),
{
    if bits.len() == 0 {
        Seq::empty()
    } else {
        ground_samples(bits.drop_last()) + le_bytes_u64(bits.last())
    }
}

/// The whole message the fingerprint hashes: the tag, then the samples.
pub open spec fn ground_message(bits: Seq<u64>) -> Seq<u8> {
    ground_tag() + ground_samples(bits)
}

fn push_le_bytes(out: &mut Vec<u8>, x: u64)
    ensures
        final(out)@ == old(out)@ + le_bytes_u64(x),
{
    let ghost start = out@;
    let mut k: u64 = 0;
    while k < 8
        invariant
            k <= 8,
            out@.len() == start.len() + k,
            out@.subrange(0, start.len() as int) == start,
            forall|j: int| 0 <= j < k ==> out@[start.len() + j] == le_bytes_u64(x)[j],
        decreases 8 - k,
    {
        out.push((x >> (8 * k)) as u8);
        k += 1;
    }
    assert(out@ =~= start + le_bytes_u64(x));
}

/// The fingerprint of the ground a bake read: the ground sampled at each probe of the scatter,
/// rounded to the millimetre, and handed over as the bit patterns of those integer-valued
/// heights, in probe order. The digest is BLAKE2b at sixteen bytes of the tag and those
/// patterns' little-endian bytes.
pub fn ground_fingerprint(millimetre_bits: &Vec<u64>) -> (digest: [u8; 16])
    ensures
        digest@ == blake2b_16(ground_message(millimetre_bits@)),
{
    let mut message: Vec<u8> = vec![119u8, 111u8, 114u8, 108u8, 100u8, 98u8, 117u8, 105u8, 108u8, 100u8, 101u8, 114u8, 32u8, 104u8, 121u8, 100u8, 114u8, 111u8, 32u8, 103u8, 114u8, 111u8, 117u8, 110u8, 100u8, 32u8, 118u8, 49u8];
    assert(message@ =~= ground_tag() + ground_samples(millimetre_bits@.take(0)));
    let mut i: usize = 0;
    while i < millimetre_bits.len()
        invariant
            i <= millimetre_bits.len(),
            message@ == ground_tag() + ground_samples(millimetre_bits@.take(i as int)),
        decreases millimetre_bits.len() - i,
    {
        push_le_bytes(&mut message, millimetre_bits[i]);
        assert(millimetre_bits@.take(i + 1).drop_last() =~= millimetre_bits@.take(i as int));
        i += 1;
    }
    assert(millimetre_bits@.take(i as int) =~= millimetre_bits@);
    blake2b_16_digest(message.as_slice())
}

} // verus!
