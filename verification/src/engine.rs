//! Other analysers: their rules, their results, and the parsers behind them.

pub mod artifact;
pub mod codeql;
pub mod sarif;
pub mod codeql_diff;
pub mod codeql_scan;
pub mod parser;
pub mod path_laws;
pub mod result_laws;
pub mod rule_laws;
pub mod scan_laws;
