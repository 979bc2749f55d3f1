//! Building packs.
pub mod building;
pub mod coverage;
pub mod ending;
pub mod once;
pub mod run;
