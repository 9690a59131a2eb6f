//! Static security scanning: the rules, stores and decisions behind the scanner.

#![allow(unused_imports)]

pub mod adapter;
pub mod baseline;
pub mod baseline_laws;
pub mod bytes;
pub mod cli;
pub mod compliance;
pub mod document;
pub mod engine;
pub mod finding;
pub mod fix;
pub mod fix_laws;
pub mod github_app;
pub mod paths;
pub mod policy_laws;
pub mod pr_policy;
pub mod report;
pub mod rules;
pub mod secrets;
pub mod secrets_laws;
pub mod sort;
pub mod text;
pub mod text_laws;
pub mod url;
