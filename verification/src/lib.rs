//! Parameter model and capacity planning for a radiance-cascades hierarchy.
//!
//! A hierarchy of cascades samples radiance with probes whose spacing grows,
//! and whose rays per probe grow, by a fixed factor from each cascade to the
//! next. This crate holds the parameters of such a hierarchy ([`RCConfig`]),
//! computes from them and a render-target size how many probes and rays each
//! cascade has and how large a buffer the largest cascade needs, and packs the
//! parameters into the record that the shader reads ([`RawUniformData`]).
//!
//! Floating-point parameters are held as binary32 encodings ([`Binary32`])
//! and all quotients are taken over their exact values.

pub mod binary32;
pub mod ceiling;
pub mod config;
pub mod growth;
pub mod natural;
pub mod probes;
pub mod uniform;

pub use binary32::Binary32;
pub use config::{ConfigError, RCConfig, RingingFix};
pub use uniform::RawUniformData;
