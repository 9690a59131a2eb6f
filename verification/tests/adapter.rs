use foxguard::adapter::{
    adapter_diff_args, adapter_error_response, apply_pr_security_policy, change_mode_args,
    comment_prefix_for_path, execute_adapter_request, plan_adapter_request,
    resolve_workspace_path, select_findings, summarize, suppression_suggestion, AdapterChangeMode,
    AdapterCommand, AdapterFindingRef, AdapterPlan, AdapterRequest, AdapterSuppressionKind,
    RunResult, ADAPTER_SCHEMA_VERSION,
};
use foxguard::cli::SeverityFilter;
use foxguard::finding::{Finding, Place, Severity};
use foxguard::pr_policy::{
    PrPolicyDecision, PrPolicyNotEvaluated, PrPolicyNotEvaluatedReason, PrSecurityPolicy,
    PrSecurityPolicyInput,
};

fn finding(severity: Severity, file: &str, line: usize) -> Finding {
    Finding::plain(
        format!("fixture/{}", severity.as_str()),
        severity,
        None,
        "fixture finding".to_string(),
        file.to_string(),
        Place { line, column: 1, end_line: line, end_column: 1 },
        String::new(),
    )
}

fn mixed() -> Vec<Finding> {
    vec![
        finding(Severity::Low, "src/app.rs", 1),
        finding(Severity::Medium, "src/app.rs", 2),
        finding(Severity::High, "src/app.rs", 3),
        finding(Severity::Critical, "src/app.rs", 4),
    ]
}

fn run(findings: Vec<Finding>) -> RunResult {
    RunResult {
        findings,
        files_scanned: 1,
        duration_ms: 7,
        notices: vec!["note".to_string()],
        pr_security_policy: None,
        pr_security_policy_not_evaluated: None,
        total_current: 5,
        existing_count: 4,
    }
}

#[test]
fn adapter_diff_maps_paired_codeql_databases() {
    let mut request = AdapterRequest::new(AdapterCommand::Diff);
    request.workspace_root = Some("/tmp/workspace".to_string());
    request.codeql_base_db = Some("codeql/base".to_string());
    request.codeql_head_db = Some("codeql/head".to_string());

    let args = adapter_diff_args(
        &request,
        request.workspace_root.as_deref().expect("workspace root"),
        "main",
    );

    assert_eq!(args.codeql_base_db.as_deref(), Some("/tmp/workspace/codeql/base"));
    assert_eq!(args.codeql_head_db.as_deref(), Some("/tmp/workspace/codeql/head"));
}

#[test]
fn adapter_response_matches_shared_mixed_policy_contract() {
    let (findings, pr_security_policy, policy_exit_code) =
        apply_pr_security_policy(Some(PrSecurityPolicy::default()), mixed());
    assert_eq!(findings.len(), 3);
    let report = pr_security_policy.expect("a report");
    assert_eq!(report.scoped_findings, 4);
    assert_eq!(report.included_findings, 3);
    assert_eq!(report.blocking_findings, 2);
    assert_eq!(report.decision, PrPolicyDecision::Fail);
    assert_eq!(policy_exit_code, Some(1));

    let request = AdapterRequest::new(AdapterCommand::ScanWorkspace);
    let mut result = run(mixed());
    result.pr_security_policy = Some(PrSecurityPolicy::default());
    let response = execute_adapter_request(&request, Some(Ok(result)));
    assert_eq!(response.pr_security_policy, Some(report));
    assert_eq!(response.findings.len(), report.included_findings);
    assert_eq!(response.exit_code, report.decision.exit_code() as u8);
    assert!(response.pr_security_policy_not_evaluated.is_none());
}

#[test]
fn suppress_request_returns_inline_snippet() {
    let mut request = AdapterRequest::new(AdapterCommand::Suppress);
    request.finding = Some(AdapterFindingRef {
        rule_id: Some("py/no-eval".to_string()),
        file: Some("src/app.py".to_string()),
        line: Some(12),
        column: None,
    });
    request.suppression = Some(AdapterSuppressionKind::Inline);

    let response = execute_adapter_request(&request, None);
    assert!(response.ok, "unexpected adapter error: {:?}", response.error);
    let Some(suppression) = response.suppression else {
        panic!("missing suppression");
    };
    assert_eq!(suppression.kind, AdapterSuppressionKind::Inline);
    assert_eq!(suppression.snippet.as_deref(), Some("# foxguard: ignore[py/no-eval]"));
    assert_eq!(suppression.line, Some(12));
}

#[test]
fn adapter_scan_file_policy_is_explicitly_not_evaluated() {
    let mut request = AdapterRequest::new(AdapterCommand::ScanFile);
    request.path = Some("/w/app.py".to_string());
    request.pr_security_policy = Some(PrSecurityPolicyInput::default());
    let mut result = run(mixed());
    result.pr_security_policy_not_evaluated = Some(PrPolicyNotEvaluated::new(
        PrSecurityPolicy::default(),
        PrPolicyNotEvaluatedReason::PartialScan,
    ));

    let response = execute_adapter_request(&request, Some(Ok(result)));
    assert!(response.ok, "unexpected adapter error: {:?}", response.error);
    assert!(response.pr_security_policy.is_none());
    assert_eq!(
        response.pr_security_policy_not_evaluated.as_ref().map(|policy| policy.reason),
        Some(PrPolicyNotEvaluatedReason::PartialScan)
    );
}

#[test]
fn scan_file_request_reports_findings_with_summary() {
    let mut request = AdapterRequest::new(AdapterCommand::ScanFile);
    request.path = Some("/w/app.py".to_string());
    request.severity = Some(Severity::Medium);
    match plan_adapter_request(&request) {
        AdapterPlan::Scan(args) => {
            assert_eq!(args.path, "/w/app.py");
            assert_eq!(args.severity, Some(SeverityFilter::Medium));
            assert_eq!(args.max_file_size, 1_048_576);
            assert!(args.quiet);
            assert!(!args.explain && !args.pq_mode);
        }
        plan => panic!("a scan is planned: {plan:?}"),
    }

    let response =
        execute_adapter_request(&request, Some(Ok(run(vec![finding(Severity::High, "a", 1)]))));
    assert!(response.ok);
    assert_eq!(response.exit_code, 1);
    let Some(summary) = response.summary else {
        panic!("missing summary");
    };
    assert_eq!(summary.findings_total, response.findings.len());
    assert_eq!(summary.files_scanned, 1);
    assert_eq!(summary.by_severity.high, 1);
    assert_eq!(summary.by_severity.low, 0);
}

#[test]
fn failed_runs_are_answered_with_the_error() {
    let mut request = AdapterRequest::new(AdapterCommand::Secrets);
    request.request_id = Some("abc".to_string());
    let response = execute_adapter_request(&request, Some(Err("broken".to_string())));
    assert!(!response.ok);
    assert_eq!(response.exit_code, 2);
    assert_eq!(response.error.as_deref(), Some("broken"));
    assert_eq!(response.request_id.as_deref(), Some("abc"));
    assert_eq!(response.schema_version, ADAPTER_SCHEMA_VERSION);
    let plain = adapter_error_response(None, None, "no request".to_string());
    assert_eq!(plain.command, None);
    assert_eq!(plain.error.as_deref(), Some("no request"));
}

#[test]
fn incomplete_requests_are_refused() {
    let error = |command: AdapterCommand| {
        let response = execute_adapter_request(&AdapterRequest::new(command), None);
        assert_eq!(response.exit_code, 2);
        response.error.expect("an error")
    };
    assert_eq!(error(AdapterCommand::ScanFile), "scan-file requires path");
    assert_eq!(error(AdapterCommand::Explain), "explain requires path or workspace_root");
    assert_eq!(error(AdapterCommand::Suppress), "suppress requires finding");
    let mut request = AdapterRequest::new(AdapterCommand::Suppress);
    request.finding = Some(AdapterFindingRef::default());
    assert_eq!(
        execute_adapter_request(&request, None).error.as_deref(),
        Some("suppress requires finding.rule_id")
    );
}

#[test]
fn explanations_are_about_the_finding() {
    let mut request = AdapterRequest::new(AdapterCommand::Explain);
    request.workspace_root = Some("/w".to_string());
    request.finding = Some(AdapterFindingRef {
        rule_id: None,
        file: Some("app.rs".to_string()),
        line: Some(3),
        column: None,
    });
    match plan_adapter_request(&request) {
        AdapterPlan::Scan(args) => {
            assert!(args.explain);
            assert_eq!(args.path, "/w");
        }
        plan => panic!("a scan is planned: {plan:?}"),
    }
    let response = execute_adapter_request(&request, Some(Ok(run(mixed()))));
    assert_eq!(response.findings.len(), 1);
    assert_eq!(response.findings[0].line, 3);
    assert_eq!(select_findings(mixed(), &None).len(), 4);
}

#[test]
fn comparisons_report_their_base() {
    let request = AdapterRequest::new(AdapterCommand::Diff);
    match plan_adapter_request(&request) {
        AdapterPlan::Diff(args) => assert_eq!((args.target.as_str(), args.path.as_str()), ("main", ".")),
        plan => panic!("a comparison is planned: {plan:?}"),
    }
    let response = execute_adapter_request(&request, Some(Ok(run(vec![]))));
    let diff = response.diff.expect("a comparison");
    assert_eq!(diff.base, "main");
    assert_eq!((diff.total_current, diff.existing_count), (5, 4));
    assert_eq!(response.exit_code, 0);
    assert_eq!(response.notices, vec!["note".to_string()]);
}

#[test]
fn secrets_and_pqc_have_their_own_settings() {
    let mut request = AdapterRequest::new(AdapterCommand::Secrets);
    request.exclude = vec!["vendor".to_string()];
    request.baseline = Some("./base.json".to_string());
    request.workspace_root = Some("/w/".to_string());
    match plan_adapter_request(&request) {
        AdapterPlan::Secrets(args) => {
            assert_eq!(args.exclude_paths, vec!["vendor".to_string()]);
            assert_eq!(args.baseline.as_deref(), Some("/w/base.json"));
        }
        plan => panic!("a search is planned: {plan:?}"),
    }
    match plan_adapter_request(&AdapterRequest::new(AdapterCommand::Pqc)) {
        AdapterPlan::Scan(args) => assert!(args.pq_mode && args.cnsa2 && args.explain),
        plan => panic!("a scan is planned: {plan:?}"),
    }
    let mut result = run(mixed());
    result.pr_security_policy = Some(PrSecurityPolicy::default());
    let response = execute_adapter_request(&request, Some(Ok(result)));
    assert!(response.pr_security_policy.is_none());
    assert_eq!(response.findings.len(), 4);
}

#[test]
fn paths_are_seen_from_the_workspace() {
    let root = Some("/w/".to_string());
    assert_eq!(resolve_workspace_path("src/a.py", &root), "/w/src/a.py");
    assert_eq!(resolve_workspace_path("././src", &root), "/w/src");
    assert_eq!(resolve_workspace_path(".", &root), "/w/");
    assert_eq!(resolve_workspace_path(".", &Some(String::new())), ".");
    assert_eq!(resolve_workspace_path("/abs", &root), "/abs");
    assert_eq!(resolve_workspace_path("C:\\a", &root), "C:\\a");
    assert_eq!(resolve_workspace_path("src", &None), "src");
    assert_eq!(resolve_workspace_path("src", &Some(".".to_string())), "src");
}

#[test]
fn suppressions_follow_their_kind() {
    assert_eq!(comment_prefix_for_path("a.PY"), "#");
    assert_eq!(comment_prefix_for_path("a.js"), "//");
    assert_eq!(comment_prefix_for_path("Makefile"), "//");
    let config = suppression_suggestion(AdapterSuppressionKind::Config, "r", "f", None);
    assert_eq!(
        config.config_snippet.as_deref(),
        Some("scan:\n  ignore_rules:\n    - path: f\n      rules:\n        - r\n")
    );
    assert_eq!(config.snippet, None);
    let baseline = suppression_suggestion(AdapterSuppressionKind::Baseline, "r", "f", Some(1));
    assert_eq!(
        baseline.command.as_deref(),
        Some("foxguard baseline --output .foxguard/baseline.json f")
    );
}

#[test]
fn counts_add_up() {
    let s = summarize(&mixed(), 2, 3).by_severity;
    assert_eq!((s.low, s.medium, s.high, s.critical), (1, 1, 1, 1));
    let m = change_mode_args(AdapterChangeMode::Staged);
    assert_eq!((m.changed, m.staged, m.unstaged, m.all_changes), (false, true, false, false));
    assert_eq!(AdapterChangeMode::default(), AdapterChangeMode::Off);
}
