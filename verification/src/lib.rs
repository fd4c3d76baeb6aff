//! Verified core of the consciousness simulation.
//!
//! - [`rng`]: the deterministic Xoshiro256+ generator with SplitMix64
//!   seeding, whose state is never all-zero.
//! - [`config`]: resolution of aspect names to indices, category member
//!   lists, category colours and flow-cluster membership.
//! - [`analyzer`]: the phase transitions of the system analyzer and the
//!   aspects a cascade reaches through the interrelation graph.
//! - [`energy`]: the flow-state timer of the energy system.
//! - [`environment`]: the stimulus names of the environment's status line.
//! - [`history`]: bounded history windows.
//! - [`labels`]: the names of phase and entropy codes.
//! - [`personality`]: the named personality profiles.
//! - [`status_line`]: reading the environment's status line back.
pub mod analyzer;
pub mod config;
pub mod energy;
pub mod environment;
pub mod history;
pub mod labels;
pub mod personality;
pub mod rng;
pub mod status_line;
