//! Coverage-track library: turns aligned-read descriptors into two
//! genome-wide tracks, per-position average mapping quality and
//! per-position read depth, each as a list of constant-value runs.

pub mod aggregate;
pub mod encode;
pub mod laws;
pub mod location;
pub mod record;

pub use location::Location;
