//! Turns wildcard imports into explicit imports, from analysis records that
//! say which names each wildcard brings in and where it stands.
pub mod names;
pub mod patch;
pub mod extent;
pub mod number;
pub mod record;
pub mod plan;
