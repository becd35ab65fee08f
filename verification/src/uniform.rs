//! The uniform record that the shader reads: nine 32-bit words in a fixed
//! order, thirty-six bytes with no padding between them.

use crate::binary32::Binary32;
use crate::config::{ConfigError, RCConfig};
use vstd::prelude::*;

verus! {

/// Number of 32-bit words in the uniform record.
pub const UNIFORM_WORDS: usize = 9;

/// Number of bytes in the uniform record.
pub const UNIFORM_BYTES: usize = 4 * UNIFORM_WORDS;

/// The cascade parameters as the shader declares them. Booleans and
/// enumerations are stored as unsigned integers, floating-point numbers as
/// their binary32 encodings.
#[derive(Clone, Copy, Debug, PartialEq, Eq, Structural)]
pub struct RawUniformData {
    pub c0_rays: u32,
    pub c0_spacing: Binary32,
    pub c0_raylength: Binary32,
    pub angular_scaling: u32,
    pub spatial_scaling: Binary32,
    pub preaveraging: u32,
    pub ringing_fix: u32,
    pub num_cascades: u32,
    pub cur_cascade: u32,
}

/// The record of a configuration for the cascade `cur_cascade`: every number
/// as it is, preaveraging as 0 or 1, the ringing fix as its ordinal.
pub open spec fn uniform_record(config: RCConfig, cur_cascade: u32) -> RawUniformData {
    RawUniformData {
        c0_rays: config.c0_rays,
        c0_spacing: config.c0_spacing,
        c0_raylength: config.c0_raylength,
        angular_scaling: config.angular_scaling,
        spatial_scaling: config.spatial_scaling,
        preaveraging: if config.preaveraging {
            1
        } else {
            0
        },
        ringing_fix: config.ringing_fix.ordinal(),
        num_cascades: config.num_cascades,
        cur_cascade,
    }
}

/// The four bytes of a word, least significant first.
pub open spec fn word_le_bytes(word: u32) -> Seq<u8> {
    seq![
        (word % 0x100) as u8,
        (word / 0x100 % 0x100) as u8,
        (word / 0x1_0000 % 0x100) as u8,
        (word / 0x100_0000) as u8,
    ]
}

/// Converting a configuration keeps every one of its numbers, stores
/// preaveraging as 0 or 1 and the ringing fix as its ordinal, and leaves
/// cascade 0 in the place of the current cascade.
pub proof fn lemma_conversion_keeps_every_field(config: RCConfig)
    ensures
        ({
            let raw = <RawUniformData as vstd::std_specs::convert::FromSpec<RCConfig>>::from_spec(
                config,
            );
            &&& raw.c0_rays == config.c0_rays
            &&& raw.c0_spacing.bits == config.c0_spacing.bits
            &&& raw.c0_raylength.bits == config.c0_raylength.bits
            &&& raw.angular_scaling == config.angular_scaling
            &&& raw.spatial_scaling.bits == config.spatial_scaling.bits
            &&& (raw.preaveraging == 1 <==> config.preaveraging)
            &&& (raw.preaveraging == 0 <==> !config.preaveraging)
            &&& raw.ringing_fix == config.ringing_fix.ordinal()
            &&& raw.num_cascades == config.num_cascades
            &&& raw.cur_cascade == 0
        }),
{
}

impl RawUniformData {
    /// The words of the record in the order of the binary layout.
    pub open spec fn words(&self) -> Seq<u32> {
        seq![
            self.c0_rays,
            self.c0_spacing.bits,
            self.c0_raylength.bits,
            self.angular_scaling,
            self.spatial_scaling.bits,
            self.preaveraging,
            self.ringing_fix,
            self.num_cascades,
            self.cur_cascade,
        ]
    }

    /// The bytes of the record on a little-endian machine: the words in the
    /// order of the binary layout, four bytes each, nothing between them.
    pub open spec fn le_bytes(&self) -> Seq<u8> {
        Seq::new(36, |i: int| word_le_bytes(self.words()[i / 4])[i % 4])
    }

    /// The record of a configuration for the cascade `cascade_index`.
    pub fn encode(config: &RCConfig, cascade_index: u32) -> (r: RawUniformData)
        requires
            cascade_index < config.num_cascades,
        ensures
            r == uniform_record(*config, cascade_index),
    {
        RawUniformData { cur_cascade: cascade_index, ..RawUniformData::from(*config) }
    }

    /// The record of a configuration for the cascade `cascade_index`, or the
    /// reason why there is no such record: an invalid configuration, or a
    /// cascade that the configuration does not have.
    pub fn try_encode(config: &RCConfig, cascade_index: u32) -> (r: Result<
        RawUniformData,
        ConfigError,
    >)
        ensures
            !config.valid() ==> r == Err::<RawUniformData, ConfigError>(ConfigError::InvalidConfig),
            config.valid() && cascade_index >= config.num_cascades ==> r == Err::<
                RawUniformData,
                ConfigError,
            >(ConfigError::CascadeOutOfRange),
            config.valid() && cascade_index < config.num_cascades ==> r == Ok::<
                RawUniformData,
                ConfigError,
            >(uniform_record(*config, cascade_index)),
    {
        if !config.is_valid() {
            Err(ConfigError::InvalidConfig)
        } else if cascade_index >= config.num_cascades {
            Err(ConfigError::CascadeOutOfRange)
        } else {
            Ok(RawUniformData::encode(config, cascade_index))
        }
    }

    /// The nine words of the record in the order of the binary layout.
    pub fn to_words(&self) -> (r: [u32; 9])
        ensures
            r@ == self.words(),
            r@.len() == UNIFORM_WORDS,
    {
        let r = [
            self.c0_rays,
            self.c0_spacing.to_bits(),
            self.c0_raylength.to_bits(),
            self.angular_scaling,
            self.spatial_scaling.to_bits(),
            self.preaveraging,
            self.ringing_fix,
            self.num_cascades,
            self.cur_cascade,
        ];
        assert(r@ =~= self.words());
        r
    }

    /// The thirty-six bytes of the record on a little-endian machine.
    pub fn to_le_bytes(&self) -> (r: [u8; 36])
        ensures
            r@ == self.le_bytes(),
            r@.len() == UNIFORM_BYTES,
    {
        let words = self.to_words();
        let mut bytes = [0u8; 36];
        let mut i: usize = 0;
        while i < 9
            invariant
                i <= 9,
                words@ == self.words(),
                forall|k: int| 0 <= k < 4 * i ==> bytes@[k] == self.le_bytes()[k],
            decreases 9 - i,
        {
            let word = words[i];
            assert(word & 0xff == word % 0x100) by (bit_vector);
            assert((word >> 8) & 0xff == word / 0x100 % 0x100) by (bit_vector);
            assert((word >> 16) & 0xff == word / 0x1_0000 % 0x100) by (bit_vector);
            assert(word >> 24 == word / 0x100_0000) by (bit_vector);
            bytes[4 * i] = (word & 0xff) as u8;
            bytes[4 * i + 1] = ((word >> 8) & 0xff) as u8;
            bytes[4 * i + 2] = ((word >> 16) & 0xff) as u8;
            bytes[4 * i + 3] = (word >> 24) as u8;
            i = i + 1;
        }
        assert(bytes@ =~= self.le_bytes());
        bytes
    }
}

impl From<RCConfig> for RawUniformData {
    /// The record of a configuration, with cascade 0 in the place of the
    /// current cascade.
    fn from(config: RCConfig) -> (r: RawUniformData) {
        RawUniformData {
            c0_rays: config.c0_rays,
            c0_spacing: config.c0_spacing,
            c0_raylength: config.c0_raylength,
            angular_scaling: config.angular_scaling,
            spatial_scaling: config.spatial_scaling,
            preaveraging: if config.preaveraging {
                1
            } else {
                0
            },
            ringing_fix: config.ringing_fix.ordinal(),
            num_cascades: config.num_cascades,
            cur_cascade: 0,
        }
    }
}

impl vstd::std_specs::convert::FromSpecImpl<RCConfig> for RawUniformData {
    open spec fn obeys_from_spec() -> bool {
        true
    }

    open spec fn from_spec(config: RCConfig) -> RawUniformData {
        uniform_record(config, 0)
    }
}

} // verus!
