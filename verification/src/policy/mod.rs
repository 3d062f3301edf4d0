//! The two families of retention policies.

pub mod profile;
pub mod temporary;
