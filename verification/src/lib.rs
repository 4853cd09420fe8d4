//! Commitment parameter validation and the inner/outer commitment stages
//! of a lattice polynomial commitment.
pub mod error;

pub use error::AkitaError;
pub mod arith;
pub mod slice;
pub mod profile;
pub mod compression;
pub mod params;
pub mod commitment;
pub mod digits;
pub mod inner_outer;
pub mod backend;
pub mod decompose;
pub mod group_commit;
