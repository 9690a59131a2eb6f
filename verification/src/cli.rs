//! What the scanner's commands are asked to do.

use crate::pr_policy::{PrBlockingThreshold, PrSecurityPolicyScope, PrSecurityPolicyVersion};
use crate::text::{opt_text, texts};
use vstd::prelude::*;

verus! {

/// The form of the output.
#[derive(Debug, Clone, Copy, PartialEq, Eq, Structural)]
pub enum OutputFormat {
    Json,
}

/// The least severity that is reported.
#[derive(Debug, Clone, Copy, PartialEq, Eq, Structural)]
pub enum SeverityFilter {
    Low,
    Medium,
    High,
    Critical,
}

/// Which changed files are looked at; all files where none is set.
#[derive(Debug, Clone, Copy, PartialEq, Eq, Structural)]
pub struct ChangeModeArgs {
    pub changed: bool,
    pub staged: bool,
    pub unstaged: bool,
    pub all_changes: bool,
}

/// Policy settings that win over the configuration.
#[derive(Debug, PartialEq, Eq)]
pub struct PrSecurityPolicyArgs {
    pub pr_policy: bool,
    pub policy_version: Option<PrSecurityPolicyVersion>,
    pub scope: Option<PrSecurityPolicyScope>,
    pub reporting_threshold: Option<SeverityFilter>,
    pub blocking_threshold: Option<PrBlockingThreshold>,
    pub policy_output: Option<String>,
}

#[verifier::ext_equal]
pub struct PolicyArgsView {
    pub pr_policy: bool,
    pub policy_version: Option<PrSecurityPolicyVersion>,
    pub scope: Option<PrSecurityPolicyScope>,
    pub reporting_threshold: Option<SeverityFilter>,
    pub blocking_threshold: Option<PrBlockingThreshold>,
    pub policy_output: Option<Seq<char>>,
}

impl View for PrSecurityPolicyArgs {
    type V = PolicyArgsView;

    open spec fn view(&self) -> PolicyArgsView {
        PolicyArgsView {
            pr_policy: self.pr_policy,
            policy_version: self.policy_version,
            scope: self.scope,
            reporting_threshold: self.reporting_threshold,
            blocking_threshold: self.blocking_threshold,
            policy_output: opt_text(self.policy_output),
        }
    }
}

impl Default for PrSecurityPolicyArgs {
    fn default() -> (r: Self)
        ensures
            r@ == (PolicyArgsView {
                pr_policy: false,
                policy_version: None,
                scope: None,
                reporting_threshold: None,
                blocking_threshold: None,
                policy_output: None,
            }),
    {
        PrSecurityPolicyArgs {
            pr_policy: false,
            policy_version: None,
            scope: None,
            reporting_threshold: None,
            blocking_threshold: None,
            policy_output: None,
        }
    }
}

/// A scan. `min_confidence` is the bit pattern of a single-precision number.
#[derive(Debug)]
pub struct ScanArgs {
    pub path: String,
    pub config: Option<String>,
    pub format: OutputFormat,
    pub severity: Option<SeverityFilter>,
    pub rules: Option<String>,
    pub codeql_db: Option<String>,
    pub no_builtins: bool,
    pub changes: ChangeModeArgs,
    pub changed_files_from: Option<String>,
    pub exclude: Vec<String>,
    pub baseline: Option<String>,
    pub write_baseline: Option<String>,
    pub explain: bool,
    pub fix: bool,
    pub github_pr: Option<u64>,
    pub pr_security_policy: PrSecurityPolicyArgs,
    pub quiet: bool,
    pub output: Option<String>,
    pub max_file_size: u64,
    pub show_confidence: bool,
    pub min_confidence: Option<u32>,
    pub pq_mode: bool,
    pub cnsa2: bool,
    pub sca: bool,
    pub sca_offline: bool,
    pub sca_db: Option<String>,
    pub sca_cache: Option<String>,
}

#[verifier::ext_equal]
pub struct ScanArgsView {
    pub path: Seq<char>,
    pub config: Option<Seq<char>>,
    pub format: OutputFormat,
    pub severity: Option<SeverityFilter>,
    pub rules: Option<Seq<char>>,
    pub codeql_db: Option<Seq<char>>,
    pub no_builtins: bool,
    pub changes: ChangeModeArgs,
    pub changed_files_from: Option<Seq<char>>,
    pub exclude: Seq<Seq<char>>,
    pub baseline: Option<Seq<char>>,
    pub write_baseline: Option<Seq<char>>,
    pub explain: bool,
    pub fix: bool,
    pub github_pr: Option<u64>,
    pub pr_security_policy: PolicyArgsView,
    pub quiet: bool,
    pub output: Option<Seq<char>>,
    pub max_file_size: u64,
    pub show_confidence: bool,
    pub min_confidence: Option<u32>,
    pub pq_mode: bool,
    pub cnsa2: bool,
    pub sca: bool,
    pub sca_offline: bool,
    pub sca_db: Option<Seq<char>>,
    pub sca_cache: Option<Seq<char>>,
}

impl View for ScanArgs {
    type V = ScanArgsView;

    open spec fn view(&self) -> ScanArgsView {
        ScanArgsView {
            path: self.path@,
            config: opt_text(self.config),
            format: self.format,
            severity: self.severity,
            rules: opt_text(self.rules),
            codeql_db: opt_text(self.codeql_db),
            no_builtins: self.no_builtins,
            changes: self.changes,
            changed_files_from: opt_text(self.changed_files_from),
            exclude: texts(self.exclude@),
            baseline: opt_text(self.baseline),
            write_baseline: opt_text(self.write_baseline),
            explain: self.explain,
            fix: self.fix,
            github_pr: self.github_pr,
            pr_security_policy: self.pr_security_policy@,
            quiet: self.quiet,
            output: opt_text(self.output),
            max_file_size: self.max_file_size,
            show_confidence: self.show_confidence,
            min_confidence: self.min_confidence,
            pq_mode: self.pq_mode,
            cnsa2: self.cnsa2,
            sca: self.sca,
            sca_offline: self.sca_offline,
            sca_db: opt_text(self.sca_db),
            sca_cache: opt_text(self.sca_cache),
        }
    }
}

/// A scan for what a branch adds to another.
#[derive(Debug)]
pub struct DiffArgs {
    pub target: String,
    pub path: String,
    pub config: Option<String>,
    pub format: OutputFormat,
    pub severity: Option<SeverityFilter>,
    pub rules: Option<String>,
    pub codeql_base_db: Option<String>,
    pub codeql_head_db: Option<String>,
    pub no_builtins: bool,
    pub output: Option<String>,
    pub github_pr: Option<u64>,
    pub pr_security_policy: PrSecurityPolicyArgs,
    pub max_file_size: u64,
}

#[verifier::ext_equal]
pub struct DiffArgsView {
    pub target: Seq<char>,
    pub path: Seq<char>,
    pub config: Option<Seq<char>>,
    pub format: OutputFormat,
    pub severity: Option<SeverityFilter>,
    pub rules: Option<Seq<char>>,
    pub codeql_base_db: Option<Seq<char>>,
    pub codeql_head_db: Option<Seq<char>>,
    pub no_builtins: bool,
    pub output: Option<Seq<char>>,
    pub github_pr: Option<u64>,
    pub pr_security_policy: PolicyArgsView,
    pub max_file_size: u64,
}

impl View for DiffArgs {
    type V = DiffArgsView;

    open spec fn view(&self) -> DiffArgsView {
        DiffArgsView {
            target: self.target@,
            path: self.path@,
            config: opt_text(self.config),
            format: self.format,
            severity: self.severity,
            rules: opt_text(self.rules),
            codeql_base_db: opt_text(self.codeql_base_db),
            codeql_head_db: opt_text(self.codeql_head_db),
            no_builtins: self.no_builtins,
            output: opt_text(self.output),
            github_pr: self.github_pr,
            pr_security_policy: self.pr_security_policy@,
            max_file_size: self.max_file_size,
        }
    }
}

/// A scan for secrets.
#[derive(Debug)]
pub struct SecretsArgs {
    pub path: String,
    pub config: Option<String>,
    pub format: OutputFormat,
    pub changes: ChangeModeArgs,
    pub baseline: Option<String>,
    pub write_baseline: Option<String>,
    pub output: Option<String>,
    pub exclude_paths: Vec<String>,
    pub exclude_path_file: Option<String>,
    pub ignored_rules: Vec<String>,
    pub max_file_size: u64,
}

#[verifier::ext_equal]
pub struct SecretsArgsView {
    pub path: Seq<char>,
    pub config: Option<Seq<char>>,
    pub format: OutputFormat,
    pub changes: ChangeModeArgs,
    pub baseline: Option<Seq<char>>,
    pub write_baseline: Option<Seq<char>>,
    pub output: Option<Seq<char>>,
    pub exclude_paths: Seq<Seq<char>>,
    pub exclude_path_file: Option<Seq<char>>,
    pub ignored_rules: Seq<Seq<char>>,
    pub max_file_size: u64,
}

impl View for SecretsArgs {
    type V = SecretsArgsView;

    open spec fn view(&self) -> SecretsArgsView {
        SecretsArgsView {
            path: self.path@,
            config: opt_text(self.config),
            format: self.format,
            changes: self.changes,
            baseline: opt_text(self.baseline),
            write_baseline: opt_text(self.write_baseline),
            output: opt_text(self.output),
            exclude_paths: texts(self.exclude_paths@),
            exclude_path_file: opt_text(self.exclude_path_file),
            ignored_rules: texts(self.ignored_rules@),
            max_file_size: self.max_file_size,
        }
    }
}

} // verus!
