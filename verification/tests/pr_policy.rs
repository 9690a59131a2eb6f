use foxguard::finding::{Finding, Place, Severity};
use foxguard::pr_policy::{
    evaluate, resolve, PrBlockingThreshold, PrPolicyDecision, PrPolicyNotEvaluated,
    PrPolicyNotEvaluatedReason, PrPolicyReport, PrSecurityPolicy, PrSecurityPolicyInput,
    PrSecurityPolicyScope, PrSecurityPolicyVersion, PR_SECURITY_POLICY_V1,
};

fn finding(severity: Severity) -> Finding {
    let place = Place { line: 1, column: 1, end_line: 1, end_column: 1 };
    Finding::plain(
        format!("test/{}", severity.as_str()),
        severity,
        None,
        "test finding".to_string(),
        "src/app.rs".to_string(),
        place,
        String::new(),
    )
}

fn mixed_v1() -> (PrSecurityPolicy, Vec<Finding>, PrPolicyReport) {
    let policy = PrSecurityPolicy {
        version: PrSecurityPolicyVersion::V1,
        scope: PrSecurityPolicyScope::Repository,
        reporting_threshold: Severity::Medium,
        blocking_threshold: PrBlockingThreshold::High,
    };
    let findings = vec![
        finding(Severity::Low),
        finding(Severity::Medium),
        finding(Severity::High),
        finding(Severity::Critical),
    ];
    let expected = PrPolicyReport {
        version: PrSecurityPolicyVersion::V1,
        scope: PrSecurityPolicyScope::Repository,
        reporting_threshold: Severity::Medium,
        blocking_threshold: PrBlockingThreshold::High,
        decision: PrPolicyDecision::Fail,
        scoped_findings: 4,
        included_findings: 3,
        blocking_findings: 2,
    };
    (policy, findings, expected)
}

#[test]
fn v1_defaults_are_explicit_and_stable() {
    let policy = PrSecurityPolicy::default();
    assert_eq!(policy.version.as_str(), PR_SECURITY_POLICY_V1);
    assert_eq!(policy.scope, PrSecurityPolicyScope::Repository);
    assert_eq!(policy.reporting_threshold, Severity::Medium);
    assert_eq!(policy.blocking_threshold, PrBlockingThreshold::High);
}

#[test]
fn resolver_applies_surface_overrides_and_validates_threshold_order() {
    let configured = PrSecurityPolicyInput {
        reporting_threshold: Some(Severity::Low),
        blocking_threshold: Some(PrBlockingThreshold::Medium),
        ..PrSecurityPolicyInput::default()
    };
    let overrides = PrSecurityPolicyInput {
        blocking_threshold: Some(PrBlockingThreshold::High),
        ..PrSecurityPolicyInput::default()
    };
    let policy = resolve(Some(&configured), &overrides).expect("valid policy");
    assert_eq!(policy.reporting_threshold, Severity::Low);
    assert_eq!(policy.blocking_threshold, PrBlockingThreshold::High);

    let invalid = PrSecurityPolicyInput {
        reporting_threshold: Some(Severity::High),
        blocking_threshold: Some(PrBlockingThreshold::Medium),
        ..PrSecurityPolicyInput::default()
    };
    assert!(resolve(Some(&invalid), &PrSecurityPolicyInput::default()).is_err());
}

#[test]
fn evaluation_filters_reports_and_distinguishes_all_decisions() {
    let policy = PrSecurityPolicy::default();
    let failed = evaluate(
        policy,
        vec![finding(Severity::Low), finding(Severity::Medium), finding(Severity::High)],
    );
    assert_eq!(failed.findings.len(), 2);
    assert_eq!(failed.report().decision, PrPolicyDecision::Fail);

    let neutral = evaluate(policy, vec![finding(Severity::Low), finding(Severity::Medium)]);
    assert_eq!(neutral.report().decision, PrPolicyDecision::Neutral);

    let passed = evaluate(policy, vec![finding(Severity::Low)]);
    assert_eq!(passed.report().decision, PrPolicyDecision::Pass);
}

#[test]
fn no_blocking_threshold_reports_without_failing() {
    let policy = PrSecurityPolicy {
        blocking_threshold: PrBlockingThreshold::Never,
        ..PrSecurityPolicy::default()
    };
    let evaluation = evaluate(policy, vec![finding(Severity::High)]);

    assert_eq!(evaluation.report().included_findings, 1);
    assert_eq!(evaluation.report().blocking_findings, 0);
    assert_eq!(evaluation.report().decision, PrPolicyDecision::Neutral);
}

#[test]
fn shared_mixed_fixture_matches_v1_contract() {
    let (policy, findings, expected) = mixed_v1();
    let evaluation = evaluate(policy, findings);

    assert_eq!(evaluation.report(), &expected);
    assert_eq!(evaluation.findings.len(), expected.included_findings);
}

#[test]
fn thresholds_in_the_wrong_order_are_named() {
    let invalid = PrSecurityPolicyInput {
        reporting_threshold: Some(Severity::High),
        blocking_threshold: Some(PrBlockingThreshold::Medium),
        ..PrSecurityPolicyInput::default()
    };
    assert_eq!(
        resolve(None, &invalid),
        Err(
            "pr_security_policy.blocking_threshold (medium) must be at least \
             pr_security_policy.reporting_threshold (high)"
                .to_string()
        )
    );
    let never = PrSecurityPolicyInput {
        reporting_threshold: Some(Severity::Critical),
        blocking_threshold: Some(PrBlockingThreshold::Never),
        ..PrSecurityPolicyInput::default()
    };
    assert!(resolve(None, &never).is_ok());
}

#[test]
fn reporting_again_changes_nothing() {
    let policy = PrSecurityPolicy::default();
    let first = evaluate(policy, vec![finding(Severity::Low), finding(Severity::High)]);
    let first_decision = first.report().decision;
    let again = evaluate(policy, first.findings);
    assert_eq!(again.findings.len(), 1);
    assert_eq!(again.report().decision, first_decision);
}

#[test]
fn decisions_have_codes_and_conclusions() {
    assert_eq!(PrPolicyDecision::Pass.exit_code(), 0);
    assert_eq!(PrPolicyDecision::Neutral.exit_code(), 0);
    assert_eq!(PrPolicyDecision::Fail.exit_code(), 1);
    assert_eq!(PrPolicyDecision::Pass.github_check_conclusion(), "success");
    assert_eq!(PrPolicyDecision::Neutral.github_check_conclusion(), "neutral");
    assert_eq!(PrPolicyDecision::Fail.github_check_conclusion(), "failure");
}

#[test]
fn policies_that_were_not_evaluated_say_why() {
    let status =
        PrPolicyNotEvaluated::new(PrSecurityPolicy::default(), PrPolicyNotEvaluatedReason::DiffScan);
    assert_eq!(
        status.message(),
        format!(
            "PR security policy {PR_SECURITY_POLICY_V1} was not evaluated: the scan produced only \
             diff findings. No repository-scope policy decision was made."
        )
    );
}
