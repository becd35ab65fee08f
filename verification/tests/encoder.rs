use radiance_cascades::binary32::Binary32;
use radiance_cascades::config::{ConfigError, RCConfig, RingingFix};
use radiance_cascades::uniform::{RawUniformData, UNIFORM_BYTES, UNIFORM_WORDS};

fn sample() -> RCConfig {
    RCConfig {
        c0_rays: 11,
        c0_spacing: Binary32::from_bits(0.25f32.to_bits()),
        c0_raylength: Binary32::from_bits(3.5f32.to_bits()),
        angular_scaling: 5,
        spatial_scaling: Binary32::from_bits(1.75f32.to_bits()),
        preaveraging: false,
        ringing_fix: RingingFix::Vanilla,
        num_cascades: 9,
    }
}

#[test]
fn conversion_copies_every_field() {
    let raw = RawUniformData::from(sample());
    assert_eq!(raw.c0_rays, 11);
    assert_eq!(f32::from_bits(raw.c0_spacing.to_bits()), 0.25);
    assert_eq!(f32::from_bits(raw.c0_raylength.to_bits()), 3.5);
    assert_eq!(raw.angular_scaling, 5);
    assert_eq!(f32::from_bits(raw.spatial_scaling.to_bits()), 1.75);
    assert_eq!(raw.preaveraging, 0);
    assert_eq!(raw.ringing_fix, 0);
    assert_eq!(raw.num_cascades, 9);
    assert_eq!(raw.cur_cascade, 0);
}

#[test]
fn conversion_of_the_default_configuration() {
    let raw: RawUniformData = RCConfig::default().into();
    assert_eq!(
        raw.to_words(),
        [4, 0x3f80_0000, 0x3f80_0000, 4, 0x4000_0000, 1, 1, 7, 0]
    );
}

#[test]
fn conversion_leaves_the_placeholder_cascade() {
    for cascades in [1, 7, 100] {
        let raw = RawUniformData::from(RCConfig { num_cascades: cascades, ..sample() });
        assert_eq!(raw.cur_cascade, 0);
    }
}

#[test]
fn encode_sets_the_current_cascade() {
    let c = sample();
    for index in 0..9u32 {
        let raw = RawUniformData::encode(&c, index);
        assert_eq!(raw.cur_cascade, index);
        assert_eq!(RawUniformData { cur_cascade: 0, ..raw }, RawUniformData::from(c));
        assert_eq!(RawUniformData::try_encode(&c, index), Ok(raw));
    }
}

#[test]
fn encoding_a_missing_cascade_is_rejected() {
    let c = sample();
    assert_eq!(
        RawUniformData::try_encode(&c, 9),
        Err(ConfigError::CascadeOutOfRange)
    );
    assert_eq!(
        RawUniformData::try_encode(&c, u32::MAX),
        Err(ConfigError::CascadeOutOfRange)
    );
}

#[test]
fn encoding_an_invalid_configuration_is_rejected() {
    let flat = RCConfig { angular_scaling: 0, ..sample() };
    assert_eq!(
        RawUniformData::try_encode(&flat, 0),
        Err(ConfigError::InvalidConfig)
    );
    let empty = RCConfig { num_cascades: 0, ..sample() };
    assert_eq!(
        RawUniformData::try_encode(&empty, 0),
        Err(ConfigError::InvalidConfig)
    );
    // The plain conversion copies whatever it is given.
    assert_eq!(RawUniformData::from(flat).angular_scaling, 0);
}

#[test]
fn booleans_and_variants_are_encoded_as_integers() {
    let c = RCConfig::default();
    assert_eq!(RawUniformData::from(RCConfig { preaveraging: true, ..c }).preaveraging, 1);
    assert_eq!(RawUniformData::from(RCConfig { preaveraging: false, ..c }).preaveraging, 0);
    assert_eq!(
        RawUniformData::from(RCConfig { ringing_fix: RingingFix::Vanilla, ..c }).ringing_fix,
        0
    );
    assert_eq!(
        RawUniformData::from(RCConfig { ringing_fix: RingingFix::Bilinear, ..c }).ringing_fix,
        1
    );
}

#[test]
fn words_follow_the_layout_order() {
    let raw = RawUniformData::encode(&sample(), 6);
    assert_eq!(
        raw.to_words(),
        [
            11,
            0.25f32.to_bits(),
            3.5f32.to_bits(),
            5,
            1.75f32.to_bits(),
            0,
            0,
            9,
            6
        ]
    );
}

#[test]
fn record_is_thirty_six_bytes_without_padding() {
    assert_eq!(UNIFORM_WORDS, 9);
    assert_eq!(UNIFORM_BYTES, 36);
    let raw = RawUniformData::encode(&sample(), 6);
    let words = raw.to_words();
    let bytes: &[u8] = bytemuck::bytes_of(&words);
    let mut expected = Vec::new();
    expected.extend_from_slice(&11u32.to_ne_bytes());
    expected.extend_from_slice(&0.25f32.to_ne_bytes());
    expected.extend_from_slice(&3.5f32.to_ne_bytes());
    expected.extend_from_slice(&5u32.to_ne_bytes());
    expected.extend_from_slice(&1.75f32.to_ne_bytes());
    expected.extend_from_slice(&0u32.to_ne_bytes());
    expected.extend_from_slice(&0u32.to_ne_bytes());
    expected.extend_from_slice(&9u32.to_ne_bytes());
    expected.extend_from_slice(&6u32.to_ne_bytes());
    assert_eq!(bytes.len(), UNIFORM_BYTES);
    assert_eq!(bytes.to_vec(), expected);
}

#[test]
fn not_a_number_passes_through_bit_for_bit() {
    let pattern = 0x7fc0_1234;
    let c = RCConfig { c0_raylength: Binary32::from_bits(pattern), ..sample() };
    assert_eq!(RawUniformData::from(c).to_words()[2], pattern);
}

#[test]
fn bytes_are_the_words_least_significant_byte_first() {
    let raw = RawUniformData::encode(&sample(), 6);
    let bytes = raw.to_le_bytes();
    assert_eq!(bytes.len(), UNIFORM_BYTES);
    let mut expected = Vec::new();
    for word in raw.to_words() {
        expected.extend_from_slice(&word.to_le_bytes());
    }
    assert_eq!(bytes.to_vec(), expected);
    assert_eq!(&bytes[0..4], &[11, 0, 0, 0]);
    assert_eq!(&bytes[4..8], &[0x00, 0x00, 0x80, 0x3e]);
    assert_eq!(&bytes[32..36], &[6, 0, 0, 0]);
}

#[test]
fn bytes_of_a_record_with_every_byte_distinct() {
    let raw = RawUniformData {
        c0_rays: 0x0403_0201,
        c0_spacing: Binary32::from_bits(0x0807_0605),
        c0_raylength: Binary32::from_bits(0x0c0b_0a09),
        angular_scaling: 0x100f_0e0d,
        spatial_scaling: Binary32::from_bits(0x1413_1211),
        preaveraging: 0x1817_1615,
        ringing_fix: 0x1c1b_1a19,
        num_cascades: 0x201f_1e1d,
        cur_cascade: 0x2423_2221,
    };
    let expected: Vec<u8> = (1..=36).collect();
    assert_eq!(raw.to_le_bytes().to_vec(), expected);
}

#[test]
fn bytes_match_the_memory_of_the_words_on_a_little_endian_machine() {
    let raw = RawUniformData::encode(&sample(), 3);
    let words = raw.to_words();
    if u32::from_ne_bytes([1, 0, 0, 0]) == 1 {
        assert_eq!(raw.to_le_bytes().as_slice(), bytemuck::bytes_of(&words));
    } else {
        assert_ne!(raw.to_le_bytes().as_slice(), bytemuck::bytes_of(&words));
    }
}
