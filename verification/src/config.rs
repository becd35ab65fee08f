//! The cascade configuration and the buffer capacities that follow from it.

use crate::binary32::Binary32;
use crate::probes::{axis_probes, checked_axis_probes, lemma_axis_probes_non_increasing};
use vstd::arithmetic::div_mod::lemma_div_multiples_vanish;
use vstd::arithmetic::power::{
    lemma_pow0,
    lemma_pow1,
    lemma_pow_adds,
    lemma_pow_increases,
    lemma_pow_positive,
    pow,
};
use vstd::prelude::*;

verus! {

/// Interpolation strategy that the sampling code applies against ringing.
#[derive(Debug, PartialEq, Eq, Clone, Copy, Structural)]
pub enum RingingFix {
    Vanilla,
    Bilinear,
}

impl RingingFix {
    /// The number that stands for the variant in the uniform record.
    pub open spec fn spec_ordinal(&self) -> u32 {
        match self {
            RingingFix::Vanilla => 0,
            RingingFix::Bilinear => 1,
        }
    }

    /// The variant's name for diagnostics.
    pub open spec fn spec_name(&self) -> Seq<char> {
        match self {
            RingingFix::Vanilla => "Vanilla"@,
            RingingFix::Bilinear => "Bilinear"@,
        }
    }

    /// The number that stands for the variant in the uniform record.
    #[verifier::when_used_as_spec(spec_ordinal)]
    pub fn ordinal(&self) -> (r: u32)
        ensures
            r == self.spec_ordinal(),
    {
        match self {
            RingingFix::Vanilla => 0,
            RingingFix::Bilinear => 1,
        }
    }

    /// The variant's name for diagnostics.
    pub fn name(&self) -> (r: &'static str)
        ensures
            r@ == self.spec_name(),
    {
        match self {
            RingingFix::Vanilla => "Vanilla",
            RingingFix::Bilinear => "Bilinear",
        }
    }

    /// The variant's name as an owned string.
    pub fn to_string(&self) -> (r: String)
        ensures
            r@ == self.spec_name(),
    {
        self.name().to_owned()
    }
}

/// Why a configuration could not be used.
#[derive(Debug, PartialEq, Eq, Clone, Copy, Structural)]
pub enum ConfigError {
    /// The configuration breaks one of its invariants.
    InvalidConfig,
    /// The cascade index is not below the number of cascades.
    CascadeOutOfRange,
    /// A capacity does not fit in a `u32`.
    Overflow,
}

/// The parameters that shape the cascade hierarchy.
#[derive(Clone, Copy, Debug, PartialEq, Eq, Structural)]
pub struct RCConfig {
    /// Rays cast per probe at cascade 0.
    pub c0_rays: u32,
    /// Distance between adjacent probes at cascade 0.
    pub c0_spacing: Binary32,
    /// Length of a ray at cascade 0.
    pub c0_raylength: Binary32,
    /// Factor by which the ray count grows from one cascade to the next.
    pub angular_scaling: u32,
    /// Factor by which the probe spacing grows from one cascade to the next.
    pub spatial_scaling: Binary32,
    /// Whether adjacent rays are merged before they are stored.
    pub preaveraging: bool,
    /// Interpolation strategy against ringing.
    pub ringing_fix: RingingFix,
    /// Number of cascades.
    pub num_cascades: u32,
}

impl Default for RCConfig {
    /// Four rays, spacing and ray length one, angular scaling four, spatial
    /// scaling two, preaveraging on, bilinear ringing fix, seven cascades.
    fn default() -> (r: RCConfig)
        ensures
            r.c0_rays == 4,
            r.c0_spacing.bits == crate::binary32::ONE_BITS,
            r.c0_raylength.bits == crate::binary32::ONE_BITS,
            r.angular_scaling == 4,
            r.spatial_scaling.bits == crate::binary32::TWO_BITS,
            r.preaveraging,
            r.ringing_fix == RingingFix::Bilinear,
            r.num_cascades == 7,
            r.valid(),
    {
        RCConfig {
            c0_rays: 4,
            c0_spacing: Binary32::one(),
            c0_raylength: Binary32::one(),
            angular_scaling: 4,
            spatial_scaling: Binary32::two(),
            preaveraging: true,
            ringing_fix: RingingFix::Bilinear,
            num_cascades: 7,
        }
    }
}

impl RCConfig {
    /// The invariants of a configuration: positive spacing, a spatial scaling
    /// of at least one, an angular scaling of at least one, at least one
    /// cascade.
    pub open spec fn valid(&self) -> bool {
        &&& self.c0_spacing.is_positive()
        &&& self.spatial_scaling.is_at_least_one()
        &&& self.angular_scaling >= 1
        &&& self.num_cascades >= 1
    }

    /// Probes along the two axes of a render target at one cascade.
    pub open spec fn probe_grid(&self, window_size: (u32, u32), cascade_index: nat) -> (nat, nat) {
        (
            axis_probes(window_size.0 as nat, self.c0_spacing, self.spatial_scaling, cascade_index),
            axis_probes(window_size.1 as nat, self.c0_spacing, self.spatial_scaling, cascade_index),
        )
    }

    /// Probes of a render target at one cascade, both axes together.
    pub open spec fn probe_count(&self, window_size: (u32, u32), cascade_index: nat) -> nat {
        self.probe_grid(window_size, cascade_index).0 * self.probe_grid(
            window_size,
            cascade_index,
        ).1
    }

    /// Rays stored per probe at one cascade. Without preaveraging that is
    /// `c0_rays * angular_scaling^cascade_index`; with it, cascade 0 stores one
    /// ray and every later cascade that product divided by `angular_scaling`.
    pub open spec fn rays_per_probe(&self, cascade_index: nat) -> nat {
        let base = self.c0_rays * pow(self.angular_scaling as int, cascade_index);
        if !self.preaveraging {
            base as nat
        } else if cascade_index == 0 {
            1
        } else {
            (base / (self.angular_scaling as int)) as nat
        }
    }

    /// Rays stored at one cascade, over all its probes.
    pub open spec fn cascade_size(&self, window_size: (u32, u32), cascade_index: nat) -> nat {
        self.rays_per_probe(cascade_index) * self.probe_count(window_size, cascade_index)
    }

    /// Whether `size` is the largest `cascade_size` among the cascades below
    /// `bound`.
    pub open spec fn is_max_size_below(
        &self,
        window_size: (u32, u32),
        bound: nat,
        size: nat,
    ) -> bool {
        &&& forall|i: nat| i < bound ==> #[trigger] self.cascade_size(window_size, i) <= size
        &&& exists|i: nat| i < bound && #[trigger] self.cascade_size(window_size, i) == size
    }

    /// The largest `cascade_size` among the cascades below `bound`, zero where
    /// there is none.
    pub open spec fn max_size_below(&self, window_size: (u32, u32), bound: nat) -> nat
        decreases bound,
    {
        if bound == 0 {
            0
        } else {
            let rest = self.max_size_below(window_size, (bound - 1) as nat);
            let last = self.cascade_size(window_size, (bound - 1) as nat);
            if last > rest {
                last
            } else {
                rest
            }
        }
    }

    /// The largest `cascade_size` over all cascades of the configuration.
    pub open spec fn max_cascade_size(&self, window_size: (u32, u32)) -> nat {
        self.max_size_below(window_size, self.num_cascades as nat)
    }

    /// Whether every cascade's size fits in a `u32`.
    pub open spec fn sizes_fit(&self, window_size: (u32, u32)) -> bool {
        forall|i: nat|
            i < self.num_cascades ==> #[trigger] self.cascade_size(window_size, i) <= u32::MAX
    }

    /// `max_size_below` is the maximum: no cascade below the bound is larger,
    /// and one of them attains it.
    pub proof fn lemma_max_size_is_maximum(&self, window_size: (u32, u32), bound: nat)
        requires
            bound > 0,
        ensures
            self.is_max_size_below(window_size, bound, self.max_size_below(window_size, bound)),
        decreases bound,
    {
        let last = (bound - 1) as nat;
        let top = self.max_size_below(window_size, bound);
        if last == 0 {
            assert(self.max_size_below(window_size, 0) == 0);
            assert(self.cascade_size(window_size, 0) == top);
        } else {
            self.lemma_max_size_is_maximum(window_size, last);
            let rest = self.max_size_below(window_size, last);
            let witness = choose|i: nat|
                i < last && #[trigger] self.cascade_size(window_size, i) == rest;
            if self.cascade_size(window_size, last) > rest {
                assert(self.cascade_size(window_size, last) == top);
            } else {
                assert(self.cascade_size(window_size, witness) == top);
            }
        }
    }

    /// With an angular scaling of at least one the division in
    /// `rays_per_probe` is exact: a preaveraged cascade past the first stores
    /// `c0_rays * angular_scaling^(cascade_index - 1)` rays per probe.
    pub proof fn lemma_rays_per_probe_exact(&self, cascade_index: nat)
        requires
            self.angular_scaling >= 1,
        ensures
            self.rays_per_probe(cascade_index) == if !self.preaveraging {
                self.c0_rays * pow(self.angular_scaling as int, cascade_index)
            } else if cascade_index == 0 {
                1
            } else {
                self.c0_rays * pow(self.angular_scaling as int, (cascade_index - 1) as nat)
            },
            self.c0_rays * pow(self.angular_scaling as int, cascade_index) >= 0,
    {
        let a = self.angular_scaling as int;
        let c = self.c0_rays as int;
        lemma_pow_positive(a, cascade_index);
        assert(c * pow(a, cascade_index) >= 0) by (nonlinear_arith)
            requires
                c >= 0,
                pow(a, cascade_index) > 0,
        ;
        if self.preaveraging && cascade_index > 0 {
            let before = (cascade_index - 1) as nat;
            lemma_pow_adds(a, before, 1);
            lemma_pow1(a);
            lemma_pow_positive(a, before);
            let x = c * pow(a, before);
            assert(c * pow(a, cascade_index) == a * x) by (nonlinear_arith)
                requires
                    pow(a, cascade_index) == pow(a, before) * a,
                    x == c * pow(a, before),
            ;
            lemma_div_multiples_vanish(x, a);
            assert(x >= 0) by (nonlinear_arith)
                requires
                    x == c * pow(a, before),
                    c >= 0,
                    pow(a, before) > 0,
            ;
        }
    }

    /// Every cascade has at least one probe on either axis, whatever the
    /// configuration and the render target.
    pub proof fn lemma_probe_grid_at_least_one(&self, window_size: (u32, u32), cascade_index: nat)
        ensures
            self.probe_grid(window_size, cascade_index).0 >= 1,
            self.probe_grid(window_size, cascade_index).1 >= 1,
    {
    }

    /// The probe grid never grows with the cascade index, on either axis.
    pub proof fn lemma_probe_grid_non_increasing(
        &self,
        window_size: (u32, u32),
        lower: nat,
        upper: nat,
    )
        requires
            self.valid(),
            lower <= upper,
        ensures
            self.probe_grid(window_size, upper).0 <= self.probe_grid(window_size, lower).0,
            self.probe_grid(window_size, upper).1 <= self.probe_grid(window_size, lower).1,
    {
        self.spatial_scaling.lemma_at_least_one_by_encoding();
        lemma_axis_probes_non_increasing(
            window_size.0 as nat,
            self.c0_spacing,
            self.spatial_scaling,
            lower,
            upper,
        );
        lemma_axis_probes_non_increasing(
            window_size.1 as nat,
            self.c0_spacing,
            self.spatial_scaling,
            lower,
            upper,
        );
    }

    /// The probe grid does not depend on the ray parameters: two
    /// configurations with the same spacing and spatial scaling have the same
    /// grid at every cascade.
    pub proof fn lemma_probe_grid_ignores_rays(
        &self,
        other: &RCConfig,
        window_size: (u32, u32),
        cascade_index: nat,
    )
        requires
            self.c0_spacing == other.c0_spacing,
            self.spatial_scaling == other.spatial_scaling,
        ensures
            self.probe_grid(window_size, cascade_index) == other.probe_grid(
                window_size,
                cascade_index,
            ),
    {
    }

    /// Whether the configuration keeps its invariants.
    pub fn is_valid(&self) -> (r: bool)
        ensures
            r == self.valid(),
    {
        self.c0_spacing.is_positive() && self.spatial_scaling.is_at_least_one()
            && self.angular_scaling >= 1 && self.num_cascades >= 1
    }

    /// The probe grid of a valid configuration, or `None` where a count does
    /// not fit in a `u32`.
    fn grid_of_valid(&self, window_size: (u32, u32), cascade_index: u32) -> (r: Option<(u32, u32)>)
        requires
            self.valid(),
        ensures
            r == if self.probe_grid(window_size, cascade_index as nat).0 <= u32::MAX
                && self.probe_grid(window_size, cascade_index as nat).1 <= u32::MAX {
                Some(
                    (
                        self.probe_grid(window_size, cascade_index as nat).0 as u32,
                        self.probe_grid(window_size, cascade_index as nat).1 as u32,
                    ),
                )
            } else {
                None
            },
    {
        let x = checked_axis_probes(
            window_size.0,
            self.c0_spacing,
            self.spatial_scaling,
            cascade_index,
        );
        let y = checked_axis_probes(
            window_size.1,
            self.c0_spacing,
            self.spatial_scaling,
            cascade_index,
        );
        match (x, y) {
            (Some(x), Some(y)) => Some((x, y)),
            _ => None,
        }
    }

    /// The probe count of a valid configuration, or `None` where it does not
    /// fit in a `u32`.
    fn count_of_valid(&self, window_size: (u32, u32), cascade_index: u32) -> (r: Option<u32>)
        requires
            self.valid(),
        ensures
            r == if self.probe_count(window_size, cascade_index as nat) <= u32::MAX {
                Some(self.probe_count(window_size, cascade_index as nat) as u32)
            } else {
                None
            },
            self.probe_count(window_size, cascade_index as nat) >= 1,
    {
        let ghost gx = self.probe_grid(window_size, cascade_index as nat).0;
        let ghost gy = self.probe_grid(window_size, cascade_index as nat).1;
        proof {
            assert(gx * gy >= gx && gx * gy >= gy && gx * gy >= 1) by (nonlinear_arith)
                requires
                    gx >= 1,
                    gy >= 1,
            ;
        }
        match self.grid_of_valid(window_size, cascade_index) {
            Some((x, y)) => x.checked_mul(y),
            None => None,
        }
    }

    /// `base * factor^times`, or `None` where that does not fit in a `u32`.
    fn checked_scale(base: u32, factor: u32, times: u32) -> (r: Option<u32>)
        requires
            factor >= 1,
        ensures
            r == if base * pow(factor as int, times as nat) <= u32::MAX {
                Some((base * pow(factor as int, times as nat)) as u32)
            } else {
                None
            },
    {
        if base == 0 || factor == 1 {
            proof {
                lemma_pow_positive(factor as int, times as nat);
                vstd::arithmetic::power::lemma1_pow(times as nat);
                let p = pow(factor as int, times as nat);
                assert(base == 0 || p == 1 ==> base * p == base) by (nonlinear_arith);
            }
            return Some(base);
        }
        let mut cur: u32 = base;
        let mut j: u32 = 0;
        proof {
            lemma_pow0(factor as int);
            assert(base * 1 == base) by (nonlinear_arith);
        }
        while j < times
            invariant
                j <= times,
                base >= 1,
                factor >= 2,
                cur == base * pow(factor as int, j as nat),
            decreases times - j,
        {
            proof {
                lemma_pow_adds(factor as int, j as nat, 1);
                lemma_pow1(factor as int);
                let p = pow(factor as int, j as nat);
                let next = pow(factor as int, (j + 1) as nat);
                assert(cur * factor == base * next) by (nonlinear_arith)
                    requires
                        cur == base * p,
                        next == p * factor,
                ;
                lemma_pow_increases(factor as nat, (j + 1) as nat, times as nat);
                let last = pow(factor as int, times as nat);
                assert(base * next <= base * last) by (nonlinear_arith)
                    requires
                        next <= last,
                        base >= 1,
                ;
            }
            match cur.checked_mul(factor) {
                Some(next) => {
                    cur = next;
                },
                None => {
                    return None;
                },
            }
            j = j + 1;
        }
        Some(cur)
    }

    /// The rays per probe of a valid configuration, or `None` where they do
    /// not fit in a `u32`.
    fn rays_of_valid(&self, cascade_index: u32) -> (r: Option<u32>)
        requires
            self.valid(),
        ensures
            r == if self.rays_per_probe(cascade_index as nat) <= u32::MAX {
                Some(self.rays_per_probe(cascade_index as nat) as u32)
            } else {
                None
            },
    {
        proof {
            self.lemma_rays_per_probe_exact(cascade_index as nat);
        }
        if !self.preaveraging {
            Self::checked_scale(self.c0_rays, self.angular_scaling, cascade_index)
        } else if cascade_index == 0 {
            Some(1)
        } else {
            Self::checked_scale(self.c0_rays, self.angular_scaling, cascade_index - 1)
        }
    }

    /// The size of one cascade of a valid configuration, or `None` where it
    /// does not fit in a `u32`.
    fn size_of_valid(&self, window_size: (u32, u32), cascade_index: u32) -> (r: Option<u32>)
        requires
            self.valid(),
        ensures
            r == if self.cascade_size(window_size, cascade_index as nat) <= u32::MAX {
                Some(self.cascade_size(window_size, cascade_index as nat) as u32)
            } else {
                None
            },
    {
        let ghost rays = self.rays_per_probe(cascade_index as nat);
        let ghost count = self.probe_count(window_size, cascade_index as nat);
        match self.rays_of_valid(cascade_index) {
            Some(0) => {
                assert(rays * count == 0) by (nonlinear_arith)
                    requires
                        rays == 0,
                ;
                Some(0)
            },
            Some(stored) => {
                let probes = self.count_of_valid(window_size, cascade_index);
                proof {
                    assert(rays * count >= count) by (nonlinear_arith)
                        requires
                            rays >= 1,
                            count >= 0,
                    ;
                }
                match probes {
                    Some(probes) => stored.checked_mul(probes),
                    None => None,
                }
            },
            None => {
                proof {
                    self.spatial_scaling.lemma_at_least_one_by_encoding();
                    let gx = self.probe_grid(window_size, cascade_index as nat).0;
                    let gy = self.probe_grid(window_size, cascade_index as nat).1;
                    assert(rays * (gx * gy) >= rays) by (nonlinear_arith)
                        requires
                            rays >= 0,
                            gx >= 1,
                            gy >= 1,
                    ;
                }
                None
            },
        }
    }

    /// Probes along the two axes of the render target at one cascade, or the
    /// reason why there is no such pair of `u32` counts.
    pub fn try_num_probes_2d(&self, window_size: (u32, u32), cascade_index: u32) -> (r: Result<
        (u32, u32),
        ConfigError,
    >)
        ensures
            !self.valid() ==> r == Err::<(u32, u32), ConfigError>(ConfigError::InvalidConfig),
            self.valid() && cascade_index >= self.num_cascades ==> r == Err::<
                (u32, u32),
                ConfigError,
            >(ConfigError::CascadeOutOfRange),
            self.valid() && cascade_index < self.num_cascades ==> r == if self.probe_grid(
                window_size,
                cascade_index as nat,
            ).0 <= u32::MAX && self.probe_grid(window_size, cascade_index as nat).1 <= u32::MAX {
                Ok::<(u32, u32), ConfigError>(
                    (
                        self.probe_grid(window_size, cascade_index as nat).0 as u32,
                        self.probe_grid(window_size, cascade_index as nat).1 as u32,
                    ),
                )
            } else {
                Err::<(u32, u32), ConfigError>(ConfigError::Overflow)
            },
    {
        if !self.is_valid() {
            return Err(ConfigError::InvalidConfig);
        }
        if cascade_index >= self.num_cascades {
            return Err(ConfigError::CascadeOutOfRange);
        }
        match self.grid_of_valid(window_size, cascade_index) {
            Some(grid) => Ok(grid),
            None => Err(ConfigError::Overflow),
        }
    }

    /// Probes of the render target at one cascade, both axes together, or the
    /// reason why there is no such `u32` count.
    pub fn try_num_probes_1d(&self, window_size: (u32, u32), cascade_index: u32) -> (r: Result<
        u32,
        ConfigError,
    >)
        ensures
            !self.valid() ==> r == Err::<u32, ConfigError>(ConfigError::InvalidConfig),
            self.valid() && cascade_index >= self.num_cascades ==> r == Err::<u32, ConfigError>(
                ConfigError::CascadeOutOfRange,
            ),
            self.valid() && cascade_index < self.num_cascades ==> r == if self.probe_count(
                window_size,
                cascade_index as nat,
            ) <= u32::MAX {
                Ok::<u32, ConfigError>(
                    self.probe_count(window_size, cascade_index as nat) as u32,
                )
            } else {
                Err::<u32, ConfigError>(ConfigError::Overflow)
            },
    {
        if !self.is_valid() {
            return Err(ConfigError::InvalidConfig);
        }
        if cascade_index >= self.num_cascades {
            return Err(ConfigError::CascadeOutOfRange);
        }
        match self.count_of_valid(window_size, cascade_index) {
            Some(count) => Ok(count),
            None => Err(ConfigError::Overflow),
        }
    }

    /// Rays stored per probe at one cascade, or the reason why there is no
    /// such `u32` count.
    pub fn try_num_rays(&self, cascade_index: u32) -> (r: Result<u32, ConfigError>)
        ensures
            !self.valid() ==> r == Err::<u32, ConfigError>(ConfigError::InvalidConfig),
            self.valid() && cascade_index >= self.num_cascades ==> r == Err::<u32, ConfigError>(
                ConfigError::CascadeOutOfRange,
            ),
            self.valid() && cascade_index < self.num_cascades ==> r == if self.rays_per_probe(
                cascade_index as nat,
            ) <= u32::MAX {
                Ok::<u32, ConfigError>(self.rays_per_probe(cascade_index as nat) as u32)
            } else {
                Err::<u32, ConfigError>(ConfigError::Overflow)
            },
    {
        if !self.is_valid() {
            return Err(ConfigError::InvalidConfig);
        }
        if cascade_index >= self.num_cascades {
            return Err(ConfigError::CascadeOutOfRange);
        }
        match self.rays_of_valid(cascade_index) {
            Some(rays) => Ok(rays),
            None => Err(ConfigError::Overflow),
        }
    }

    /// The size of the largest cascade: the capacity of a buffer that holds
    /// any one cascade. Fails where the configuration is invalid or the size
    /// of some cascade does not fit in a `u32`.
    pub fn try_max_cascade_size(&self, window_size: (u32, u32)) -> (r: Result<u32, ConfigError>)
        ensures
            !self.valid() ==> r == Err::<u32, ConfigError>(ConfigError::InvalidConfig),
            self.valid() ==> r == if self.sizes_fit(window_size) {
                Ok::<u32, ConfigError>(self.max_cascade_size(window_size) as u32)
            } else {
                Err::<u32, ConfigError>(ConfigError::Overflow)
            },
            r is Ok ==> r->Ok_0 == self.max_cascade_size(window_size) && self.is_max_size_below(
                window_size,
                self.num_cascades as nat,
                r->Ok_0 as nat,
            ),
    {
        if !self.is_valid() {
            return Err(ConfigError::InvalidConfig);
        }
        let mut largest: u32 = 0;
        let mut index: u32 = 0;
        while index < self.num_cascades
            invariant
                self.valid(),
                index <= self.num_cascades,
                largest == self.max_size_below(window_size, index as nat),
                forall|i: nat| i < index ==> #[trigger] self.cascade_size(window_size, i) <= u32::MAX,
            decreases self.num_cascades - index,
        {
            match self.size_of_valid(window_size, index) {
                Some(size) => {
                    if size > largest {
                        largest = size;
                    }
                },
                None => {
                    assert(self.cascade_size(window_size, index as nat) > u32::MAX);
                    return Err(ConfigError::Overflow);
                },
            }
            index = index + 1;
        }
        proof {
            self.lemma_max_size_is_maximum(window_size, self.num_cascades as nat);
        }
        Ok(largest)
    }

    /// Probes along the two axes of the render target at one cascade: per
    /// axis, the cells that cover it and one more.
    pub fn get_num_probes_2d(&self, window_size: (u32, u32), cascade_index: u32) -> (r: (u32, u32))
        requires
            self.valid(),
            cascade_index < self.num_cascades,
            self.probe_grid(window_size, cascade_index as nat).0 <= u32::MAX,
            self.probe_grid(window_size, cascade_index as nat).1 <= u32::MAX,
        ensures
            r.0 == self.probe_grid(window_size, cascade_index as nat).0,
            r.1 == self.probe_grid(window_size, cascade_index as nat).1,
            r.0 >= 1,
            r.1 >= 1,
    {
        self.grid_of_valid(window_size, cascade_index).unwrap()
    }

    /// Probes of the render target at one cascade, both axes together.
    pub fn get_num_probes_1d(&self, window_size: (u32, u32), cascade_num: u32) -> (r: u32)
        requires
            self.valid(),
            cascade_num < self.num_cascades,
            self.probe_count(window_size, cascade_num as nat) <= u32::MAX,
        ensures
            r == self.probe_count(window_size, cascade_num as nat),
            r >= 1,
    {
        self.count_of_valid(window_size, cascade_num).unwrap()
    }

    /// Rays stored per probe at one cascade.
    pub fn get_num_rays(&self, cascade_index: u32) -> (r: u32)
        requires
            self.valid(),
            cascade_index < self.num_cascades,
            self.rays_per_probe(cascade_index as nat) <= u32::MAX,
        ensures
            r == self.rays_per_probe(cascade_index as nat),
    {
        self.rays_of_valid(cascade_index).unwrap()
    }

    /// The size of the largest cascade: the capacity of a buffer that holds
    /// any one cascade.
    pub fn get_max_cascade_size(&self, window_size: (u32, u32)) -> (r: u32)
        requires
            self.valid(),
            self.sizes_fit(window_size),
        ensures
            r == self.max_cascade_size(window_size),
            self.is_max_size_below(window_size, self.num_cascades as nat, r as nat),
    {
        self.try_max_cascade_size(window_size).unwrap()
    }
}

} // verus!
