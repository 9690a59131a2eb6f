//! Rules that look at whole files, and what they have in common.

pub mod common;
pub mod pq;
pub mod pq_laws;
pub mod readiness_laws;
pub mod manifest;
pub mod manifest_laws;
pub mod place_laws;
pub mod semgrep_readiness;
