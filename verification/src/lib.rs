//! System monitoring: the parsing, sampling and rendering logic behind the `syspulse` program.

pub mod bytes;
pub mod cli;
pub mod collector;
pub mod double;
pub mod endian;
pub mod engine;
pub mod frequency;
pub mod metrics;
pub mod naming;
pub mod output;
pub mod platform;
pub mod points;
pub mod ranking;
pub mod registry;
pub mod rounding;
pub mod share;
pub mod soundness;
pub mod tags;
pub mod text;

