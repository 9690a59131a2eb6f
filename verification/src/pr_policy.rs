//! The pull-request security policy: how thresholds are resolved and findings judged.

use crate::finding::{Finding, Severity};
use crate::text::owned;
use vstd::prelude::*;

verus! {

/// Stable identifier of the first policy contract.
pub const PR_SECURITY_POLICY_V1: &'static str = "v1";

#[derive(Debug, Clone, Copy, PartialEq, Eq, Structural)]
pub enum PrSecurityPolicyVersion {
    V1,
}

impl Default for PrSecurityPolicyVersion {
    fn default() -> (r: Self)
        ensures
            r == PrSecurityPolicyVersion::V1,
    {
        PrSecurityPolicyVersion::V1
    }
}

impl PrSecurityPolicyVersion {
    pub open spec fn word(self) -> Seq<char> {
        PR_SECURITY_POLICY_V1@
    }

    /// The identifier under which the version is written.
    pub fn as_str(self) -> (r: &'static str)
        ensures
            r@ == self.word(),
    {
        PR_SECURITY_POLICY_V1
    }
}

/// The set of findings that a policy evaluates.
///
/// The first version evaluates the complete result of a scan.
#[derive(Debug, Clone, Copy, PartialEq, Eq, Structural)]
pub enum PrSecurityPolicyScope {
    Repository,
}

impl Default for PrSecurityPolicyScope {
    fn default() -> (r: Self)
        ensures
            r == PrSecurityPolicyScope::Repository,
    {
        PrSecurityPolicyScope::Repository
    }
}

impl PrSecurityPolicyScope {
    pub open spec fn word(self) -> Seq<char> {
        "repository"@
    }

    /// The word under which the scope is written.
    pub fn as_str(self) -> (r: &'static str)
        ensures
            r@ == self.word(),
    {
        "repository"
    }
}

/// The severity from which a finding blocks, or `Never` where none does.
#[derive(Debug, Clone, Copy, PartialEq, Eq, Structural)]
pub enum PrBlockingThreshold {
    Never,
    Low,
    Medium,
    High,
    Critical,
}

impl PrBlockingThreshold {
    /// The least severity that blocks.
    pub open spec fn blocks_from(self) -> Option<Severity> {
        match self {
            PrBlockingThreshold::Never => None,
            PrBlockingThreshold::Low => Some(Severity::Low),
            PrBlockingThreshold::Medium => Some(Severity::Medium),
            PrBlockingThreshold::High => Some(Severity::High),
            PrBlockingThreshold::Critical => Some(Severity::Critical),
        }
    }

    pub open spec fn word(self) -> Seq<char> {
        match self {
            PrBlockingThreshold::Never => "none"@,
            PrBlockingThreshold::Low => "low"@,
            PrBlockingThreshold::Medium => "medium"@,
            PrBlockingThreshold::High => "high"@,
            PrBlockingThreshold::Critical => "critical"@,
        }
    }

    /// The least severity that blocks.
    pub fn severity(self) -> (r: Option<Severity>)
        ensures
            r == self.blocks_from(),
    {
        match self {
            PrBlockingThreshold::Never => None,
            PrBlockingThreshold::Low => Some(Severity::Low),
            PrBlockingThreshold::Medium => Some(Severity::Medium),
            PrBlockingThreshold::High => Some(Severity::High),
            PrBlockingThreshold::Critical => Some(Severity::Critical),
        }
    }

    /// The word under which the threshold is written.
    pub fn as_str(self) -> (r: &'static str)
        ensures
            r@ == self.word(),
    {
        match self {
            PrBlockingThreshold::Never => "none",
            PrBlockingThreshold::Low => "low",
            PrBlockingThreshold::Medium => "medium",
            PrBlockingThreshold::High => "high",
            PrBlockingThreshold::Critical => "critical",
        }
    }
}

impl Default for PrBlockingThreshold {
    fn default() -> (r: Self)
        ensures
            r == PrBlockingThreshold::High,
    {
        PrBlockingThreshold::High
    }
}

/// Optional policy values from a configuration file or a surface.
#[derive(Debug, Clone, Copy, PartialEq, Eq, Structural)]
pub struct PrSecurityPolicyInput {
    pub version: Option<PrSecurityPolicyVersion>,
    pub scope: Option<PrSecurityPolicyScope>,
    pub reporting_threshold: Option<Severity>,
    pub blocking_threshold: Option<PrBlockingThreshold>,
}

impl Default for PrSecurityPolicyInput {
    fn default() -> (r: Self)
        ensures
            r == (PrSecurityPolicyInput {
                version: None,
                scope: None,
                reporting_threshold: None,
                blocking_threshold: None,
            }),
    {
        PrSecurityPolicyInput {
            version: None,
            scope: None,
            reporting_threshold: None,
            blocking_threshold: None,
        }
    }
}

#[derive(Debug, Clone, Copy, PartialEq, Eq, Structural)]
pub struct PrSecurityPolicy {
    pub version: PrSecurityPolicyVersion,
    pub scope: PrSecurityPolicyScope,
    pub reporting_threshold: Severity,
    pub blocking_threshold: PrBlockingThreshold,
}

/// The policy where nothing is configured.
pub open spec fn default_policy() -> PrSecurityPolicy {
    PrSecurityPolicy {
        version: PrSecurityPolicyVersion::V1,
        scope: PrSecurityPolicyScope::Repository,
        reporting_threshold: Severity::Medium,
        blocking_threshold: PrBlockingThreshold::High,
    }
}

impl Default for PrSecurityPolicy {
    fn default() -> (r: Self)
        ensures
            r == default_policy(),
    {
        PrSecurityPolicy {
            version: PrSecurityPolicyVersion::V1,
            scope: PrSecurityPolicyScope::Repository,
            reporting_threshold: Severity::Medium,
            blocking_threshold: PrBlockingThreshold::High,
        }
    }
}

impl PrSecurityPolicy {
    /// The blocking threshold is not below the reporting threshold.
    pub open spec fn ordered(self) -> bool {
        match self.blocking_threshold.blocks_from() {
            Some(blocking) => blocking.rank() >= self.reporting_threshold.rank(),
            None => true,
        }
    }
}

/// The first value that is given: the override, the configured one, the default.
pub open spec fn layered<T>(over: Option<T>, configured: Option<T>, default: T) -> T {
    match over {
        Some(v) => v,
        None => match configured {
            Some(v) => v,
            None => default,
        },
    }
}

/// The policy values before they are checked against each other.
pub open spec fn merged(
    configured: Option<PrSecurityPolicyInput>,
    overrides: PrSecurityPolicyInput,
) -> PrSecurityPolicy {
    let base = match configured {
        Some(c) => c,
        None => PrSecurityPolicyInput {
            version: None,
            scope: None,
            reporting_threshold: None,
            blocking_threshold: None,
        },
    };
    let d = default_policy();
    PrSecurityPolicy {
        version: layered(overrides.version, base.version, d.version),
        scope: layered(overrides.scope, base.scope, d.scope),
        reporting_threshold: layered(
            overrides.reporting_threshold,
            base.reporting_threshold,
            d.reporting_threshold,
        ),
        blocking_threshold: layered(
            overrides.blocking_threshold,
            base.blocking_threshold,
            d.blocking_threshold,
        ),
    }
}

/// Why thresholds in the wrong order are refused.
pub open spec fn threshold_order_error(blocking: Severity, reporting: Severity) -> Seq<char> {
    "pr_security_policy.blocking_threshold ("@ + blocking.word()
        + ") must be at least pr_security_policy.reporting_threshold ("@ + reporting.word() + ")"@
}

fn first_given<T: Copy>(over: Option<T>, configured: Option<T>, default: T) -> (r: T)
    ensures
        r == layered(over, configured, default),
{
    match over {
        Some(v) => v,
        None => match configured {
            Some(v) => v,
            None => default,
        },
    }
}

/// Resolves configuration and surface overrides into the one policy that every surface
/// evaluates. Surface values win over the configuration.
pub fn resolve(
    configured: Option<&PrSecurityPolicyInput>,
    overrides: &PrSecurityPolicyInput,
) -> (r: Result<PrSecurityPolicy, String>)
    ensures
        ({
            let c = match configured {
                Some(p) => Some(*p),
                None => None,
            };
            let policy = merged(c, *overrides);
            match r {
                Ok(p) => p == policy && policy.ordered(),
                Err(e) => !policy.ordered() && e@ == threshold_order_error(
                    policy.blocking_threshold.blocks_from().unwrap(),
                    policy.reporting_threshold,
                ),
            }
        }),
{
    let base: PrSecurityPolicyInput = match configured {
        Some(p) => *p,
        None => PrSecurityPolicyInput::default(),
    };
    let defaults = PrSecurityPolicy::default();
    let version = first_given(overrides.version, base.version, defaults.version);
    let scope = first_given(overrides.scope, base.scope, defaults.scope);
    let reporting_threshold = first_given(
        overrides.reporting_threshold,
        base.reporting_threshold,
        defaults.reporting_threshold,
    );
    let blocking_threshold = first_given(
        overrides.blocking_threshold,
        base.blocking_threshold,
        defaults.blocking_threshold,
    );
    if let Some(blocking) = blocking_threshold.severity() {
        if !blocking.at_least(reporting_threshold) {
            let mut e: String = owned("pr_security_policy.blocking_threshold (");
            e.append(blocking.as_str());
            e.append(") must be at least pr_security_policy.reporting_threshold (");
            e.append(reporting_threshold.as_str());
            e.append(")");
            return Err(e);
        }
    }
    Ok(PrSecurityPolicy { version, scope, reporting_threshold, blocking_threshold })
}

#[derive(Debug, Clone, Copy, PartialEq, Eq, Structural)]
pub enum PrPolicyDecision {
    Pass,
    Neutral,
    Fail,
}

impl PrPolicyDecision {
    pub open spec fn code(self) -> i32 {
        match self {
            PrPolicyDecision::Fail => 1,
            _ => 0,
        }
    }

    pub open spec fn conclusion(self) -> Seq<char> {
        match self {
            PrPolicyDecision::Pass => "success"@,
            PrPolicyDecision::Neutral => "neutral"@,
            PrPolicyDecision::Fail => "failure"@,
        }
    }

    pub open spec fn word(self) -> Seq<char> {
        match self {
            PrPolicyDecision::Pass => "pass"@,
            PrPolicyDecision::Neutral => "neutral"@,
            PrPolicyDecision::Fail => "fail"@,
        }
    }

    /// The process exit code: one exactly when the policy fails.
    pub fn exit_code(self) -> (r: i32)
        ensures
            r == self.code(),
    {
        match self {
            PrPolicyDecision::Pass | PrPolicyDecision::Neutral => 0,
            PrPolicyDecision::Fail => 1,
        }
    }

    /// The conclusion that a check run shows for the decision.
    pub fn github_check_conclusion(self) -> (r: &'static str)
        ensures
            r@ == self.conclusion(),
    {
        match self {
            PrPolicyDecision::Pass => "success",
            PrPolicyDecision::Neutral => "neutral",
            PrPolicyDecision::Fail => "failure",
        }
    }

    /// The word under which the decision is written.
    pub fn as_str(self) -> (r: &'static str)
        ensures
            r@ == self.word(),
    {
        match self {
            PrPolicyDecision::Pass => "pass",
            PrPolicyDecision::Neutral => "neutral",
            PrPolicyDecision::Fail => "fail",
        }
    }
}

/// Machine-readable result of an evaluation.
#[derive(Debug, Clone, Copy, PartialEq, Eq, Structural)]
pub struct PrPolicyReport {
    pub version: PrSecurityPolicyVersion,
    pub scope: PrSecurityPolicyScope,
    pub reporting_threshold: Severity,
    pub blocking_threshold: PrBlockingThreshold,
    pub decision: PrPolicyDecision,
    pub scoped_findings: usize,
    pub included_findings: usize,
    pub blocking_findings: usize,
}

/// Why a policy request did not produce a repository decision.
#[derive(Debug, Clone, Copy, PartialEq, Eq, Structural)]
pub enum PrPolicyNotEvaluatedReason {
    ChangedOnlyScan,
    PartialScan,
    DiffScan,
    ChangedFilesFallback,
}

impl PrPolicyNotEvaluatedReason {
    pub open spec fn text(self) -> Seq<char> {
        match self {
            PrPolicyNotEvaluatedReason::ChangedOnlyScan =>
                "the scan was limited to changed files"@,
            PrPolicyNotEvaluatedReason::PartialScan =>
                "the scan did not cover a repository root"@,
            PrPolicyNotEvaluatedReason::DiffScan => "the scan produced only diff findings"@,
            PrPolicyNotEvaluatedReason::ChangedFilesFallback =>
                "the full-repository scan timed out and used a changed-files fallback"@,
        }
    }

    /// The reason in words.
    pub fn as_str(self) -> (r: &'static str)
        ensures
            r@ == self.text(),
    {
        match self {
            PrPolicyNotEvaluatedReason::ChangedOnlyScan => "the scan was limited to changed files",
            PrPolicyNotEvaluatedReason::PartialScan => "the scan did not cover a repository root",
            PrPolicyNotEvaluatedReason::DiffScan => "the scan produced only diff findings",
            PrPolicyNotEvaluatedReason::ChangedFilesFallback =>
                "the full-repository scan timed out and used a changed-files fallback",
        }
    }
}

/// Explicit status of a requested policy that cannot evaluate a complete repository finding
/// set. It holds no decision.
#[derive(Debug, Clone, Copy, PartialEq, Eq, Structural)]
pub struct PrPolicyNotEvaluated {
    pub version: PrSecurityPolicyVersion,
    pub requested_scope: PrSecurityPolicyScope,
    pub reporting_threshold: Severity,
    pub blocking_threshold: PrBlockingThreshold,
    pub reason: PrPolicyNotEvaluatedReason,
}

impl PrPolicyNotEvaluated {
    pub fn new(policy: PrSecurityPolicy, reason: PrPolicyNotEvaluatedReason) -> (r: Self)
        ensures
            r.version == policy.version,
            r.requested_scope == policy.scope,
            r.reporting_threshold == policy.reporting_threshold,
            r.blocking_threshold == policy.blocking_threshold,
            r.reason == reason,
    {
        PrPolicyNotEvaluated {
            version: policy.version,
            requested_scope: policy.scope,
            reporting_threshold: policy.reporting_threshold,
            blocking_threshold: policy.blocking_threshold,
            reason,
        }
    }

    pub open spec fn text(self) -> Seq<char> {
        "PR security policy "@ + self.version.word() + " was not evaluated: "@ + self.reason.text()
            + ". No repository-scope policy decision was made."@
    }

    /// The status in words.
    pub fn message(&self) -> (r: String)
        ensures
            r@ == self.text(),
    {
        let mut s: String = owned("PR security policy ");
        s.append(self.version.as_str());
        s.append(" was not evaluated: ");
        s.append(self.reason.as_str());
        s.append(". No repository-scope policy decision was made.");
        s
    }
}

/// Result of evaluating a complete repository finding set. `findings` is the exact reporting
/// set that every surface must use.
#[derive(Debug)]
pub struct PrPolicyEvaluation {
    pub findings: Vec<Finding>,
    pub report: PrPolicyReport,
}

impl PrPolicyEvaluation {
    pub fn report(&self) -> (r: &PrPolicyReport)
        ensures
            *r == self.report,
    {
        &self.report
    }
}

/// The findings of at least the given severity, in order.
pub open spec fn at_or_above(findings: Seq<Finding>, severity: Severity) -> Seq<Finding> {
    findings.filter(|f: Finding| f.severity.rank() >= severity.rank())
}

/// How many reported findings block.
pub open spec fn blocking_count(policy: PrSecurityPolicy, reported: Seq<Finding>) -> nat {
    match policy.blocking_threshold.blocks_from() {
        Some(severity) => at_or_above(reported, severity).len(),
        None => 0,
    }
}

/// A clean reporting set passes, one with a blocking finding fails, any other is neutral.
pub open spec fn decide(policy: PrSecurityPolicy, reported: Seq<Finding>) -> PrPolicyDecision {
    if reported.len() == 0 {
        PrPolicyDecision::Pass
    } else if blocking_count(policy, reported) > 0 {
        PrPolicyDecision::Fail
    } else {
        PrPolicyDecision::Neutral
    }
}

fn count_at_or_above(findings: &Vec<Finding>, severity: Severity) -> (n: usize)
    ensures
        n == at_or_above(findings@, severity).len(),
{
    let ghost pred = |f: Finding| f.severity.rank() >= severity.rank();
    let mut n: usize = 0;
    let mut i: usize = 0;
    while i < findings.len()
        invariant
            i <= findings@.len(),
            pred == (|f: Finding| f.severity.rank() >= severity.rank()),
            n == findings@.take(i as int).filter(pred).len(),
            n <= i,
        decreases findings@.len() - i,
    {
        proof {
            assert(findings@.take(i + 1) =~= findings@.take(i as int).push(findings@[i as int]));
            findings@.take(i as int).lemma_filter_push(findings@[i as int], pred);
        }
        if findings[i].severity.at_least(severity) {
            n = n + 1;
        }
        i = i + 1;
    }
    assert(findings@.take(i as int) =~= findings@);
    n
}

/// Evaluates one already-resolved complete repository scan result.
///
/// All input findings are in scope; those below the reporting threshold are omitted.
pub fn evaluate(policy: PrSecurityPolicy, findings: Vec<Finding>) -> (r: PrPolicyEvaluation)
    ensures
        r.findings@ == at_or_above(findings@, policy.reporting_threshold),
        r.report.version == policy.version,
        r.report.scope == policy.scope,
        r.report.reporting_threshold == policy.reporting_threshold,
        r.report.blocking_threshold == policy.blocking_threshold,
        r.report.decision == decide(policy, r.findings@),
        r.report.scoped_findings == findings@.len(),
        r.report.included_findings == r.findings@.len(),
        r.report.blocking_findings == blocking_count(policy, r.findings@),
{
    let scoped_findings: usize = findings.len();
    let ghost pred = |f: Finding| f.severity.rank() >= policy.reporting_threshold.rank();
    let ghost all = findings@;
    let mut reported: Vec<Finding> = Vec::new();
    for finding in it: findings
        invariant
            it.seq() == all,
            pred == (|f: Finding| f.severity.rank() >= policy.reporting_threshold.rank()),
            reported@ == all.take(it.index() as int).filter(pred),
    {
        proof {
            let i = it.index() as int;
            assert(all.take(i + 1) =~= all.take(i).push(all[i]));
            all.take(i).lemma_filter_push(all[i], pred);
        }
        if finding.severity.at_least(policy.reporting_threshold) {
            reported.push(finding);
        }
    }
    assert(all.take(all.len() as int) =~= all);
    let blocking_findings: usize = match policy.blocking_threshold.severity() {
        Some(threshold) => count_at_or_above(&reported, threshold),
        None => 0,
    };
    let decision = if reported.len() == 0 {
        PrPolicyDecision::Pass
    } else if blocking_findings > 0 {
        PrPolicyDecision::Fail
    } else {
        PrPolicyDecision::Neutral
    };
    let report = PrPolicyReport {
        version: policy.version,
        scope: policy.scope,
        reporting_threshold: policy.reporting_threshold,
        blocking_threshold: policy.blocking_threshold,
        decision,
        scoped_findings,
        included_findings: reported.len(),
        blocking_findings,
    };
    PrPolicyEvaluation { findings: reported, report }
}

/// What is reported again under the same policy is reported whole, with the same decision.
pub proof fn reporting_twice_changes_nothing(policy: PrSecurityPolicy, findings: Seq<Finding>)
    ensures
        ({
            let reported = at_or_above(findings, policy.reporting_threshold);
            &&& at_or_above(reported, policy.reporting_threshold) == reported
            &&& decide(policy, at_or_above(reported, policy.reporting_threshold)) == decide(
                policy,
                reported,
            )
        }),
{
    let pred = |f: Finding| f.severity.rank() >= policy.reporting_threshold.rank();
    let reported = findings.filter(pred);
    assert forall|i: int| 0 <= i < reported.len() implies pred(#[trigger] reported[i]) by {
        findings.lemma_filter_pred(pred, i);
    }
    lemma_filter_all(reported, pred);
}

proof fn lemma_filter_all<T>(s: Seq<T>, pred: spec_fn(T) -> bool)
    requires
        forall|i: int| 0 <= i < s.len() ==> pred(#[trigger] s[i]),
    ensures
        s.filter(pred) == s,
    decreases s.len(),
{
    reveal(Seq::filter);
    if s.len() > 0 {
        lemma_filter_all(s.drop_last(), pred);
        assert(pred(s[s.len() - 1]));
        assert(s =~= s.drop_last().push(s.last()));
    }
}

/// Without a blocking threshold a policy never fails, whatever is found.
pub proof fn no_blocking_threshold_never_fails(policy: PrSecurityPolicy, findings: Seq<Finding>)
    requires
        policy.blocking_threshold == PrBlockingThreshold::Never,
    ensures
        decide(policy, at_or_above(findings, policy.reporting_threshold))
            != PrPolicyDecision::Fail,
        decide(policy, at_or_above(findings, policy.reporting_threshold)).code() == 0,
{
}

/// Under a resolved policy, a finding that blocks is always among those reported: the policy
/// fails exactly when some finding of the scan reaches the blocking threshold.
pub proof fn policy_fails_exactly_on_a_blocking_finding(
    policy: PrSecurityPolicy,
    findings: Seq<Finding>,
)
    requires
        policy.ordered(),
    ensures
        (decide(policy, at_or_above(findings, policy.reporting_threshold))
            == PrPolicyDecision::Fail) <==> (policy.blocking_threshold.blocks_from() is Some
            && exists|i: int|
            0 <= i < findings.len() && (#[trigger] findings[i]).severity.rank()
                >= policy.blocking_threshold.blocks_from().unwrap().rank()),
{
    let reported = at_or_above(findings, policy.reporting_threshold);
    let report_pred = |f: Finding| f.severity.rank() >= policy.reporting_threshold.rank();
    if let Some(severity) = policy.blocking_threshold.blocks_from() {
        let block_pred = |f: Finding| f.severity.rank() >= severity.rank();
        let blocking = reported.filter(block_pred);
        if exists|i: int|
            0 <= i < findings.len() && (#[trigger] findings[i]).severity.rank() >= severity.rank() {
            let i = choose|i: int|
                0 <= i < findings.len() && (#[trigger] findings[i]).severity.rank()
                    >= severity.rank();
            findings.lemma_filter_contains(report_pred, i);
            let k = choose|k: int| 0 <= k < reported.len() && reported[k] == findings[i];
            reported.lemma_filter_contains(block_pred, k);
            assert(blocking.len() > 0);
        }
        if blocking.len() > 0 {
            reported.lemma_filter_pred(block_pred, 0);
            reported.lemma_filter_contains_rev(block_pred, blocking[0]);
            let k = choose|k: int| 0 <= k < reported.len() && reported[k] == blocking[0];
            findings.lemma_filter_contains_rev(report_pred, reported[k]);
            let i = choose|i: int| 0 <= i < findings.len() && findings[i] == reported[k];
            assert(findings[i].severity.rank() >= severity.rank());
        }
    }
}

} // verus!
