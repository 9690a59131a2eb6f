//! Reports for people.

pub mod semgrep_migration;
