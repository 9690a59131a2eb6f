use foxguard::finding::{Finding, Place, Severity};
use foxguard::github_app::requests::{
    changed_files_path, check_runs_path, commentable_lines, comments_path, needs_changed_files,
    review_requests, ApiMethod, ApiRequest, CommentKind, Listing, PullRequestFile,
};
use foxguard::github_app::review::{
    added_lines_from_patch, check_api_base_url, check_create_definitely_did_not_happen, check_run_annotations,
    check_run_payload, check_run_summary, check_run_title, endpoint,
    filter_findings_to_changed_lines, hunk_new_start, link_header_has_next,
    owned_foxguard_summary_comment_ids, patch_positions_fit, percent_encoded_display_path,
    plan_review, review_summary_body, truncate, valid_repo_relative_path, valid_repo_segment,
    ChangedFile, CheckRunPolicy, HttpFailure, IssueComment, PerformedViaGitHubApp,
    PostReviewOutcome, RepositoryPath,
    ReviewError, SourceRevision, SummaryAction, COMMENT_MARKER,
};
use foxguard::pr_policy::{
    evaluate, PrPolicyDecision, PrPolicyNotEvaluated, PrPolicyNotEvaluatedReason, PrSecurityPolicy,
};

fn finding(severity: Severity, line: usize) -> Finding {
    Finding::plain(
        "test/rule".to_string(),
        severity,
        Some("CWE-79".to_string()),
        "finding description".to_string(),
        "src/app.js".to_string(),
        Place { line, column: 1, end_line: line, end_column: 2 },
        "bad()".to_string(),
    )
}

fn finding_in_file(severity: Severity, file: &str, line: usize) -> Finding {
    Finding { file: file.to_string(), ..finding(severity, line) }
}

fn dependency_finding(line: usize) -> Finding {
    let mut finding = finding(Severity::High, line);
    finding.rule_id = "manifest/osv-vulnerable-dep".to_string();
    finding.file = "package-lock.json".to_string();
    finding.dep_name = Some("elliptic".to_string());
    finding.dep_version = Some("6.5.4".to_string());
    finding.dep_vulnerability_id = Some("GHSA-r9p9-mrjm-926w".to_string());
    finding.dep_fixed_version = Some("6.6.0".to_string());
    finding
}

fn mixed() -> Vec<Finding> {
    vec![
        finding(Severity::Low, 1),
        finding(Severity::Medium, 2),
        finding(Severity::High, 3),
        finding(Severity::Critical, 4),
    ]
}

fn scanned_revision(repo_web_url: &str, head_sha: &str) -> SourceRevision {
    SourceRevision::new(repo_web_url, head_sha)
        .unwrap_or_else(|error| panic!("source revision should parse: {}", error.message()))
}

#[test]
fn repository_path_accepts_owner_repo() {
    let parsed = match RepositoryPath::parse("0sec-labs/foxguard") {
        Ok(parsed) => parsed,
        Err(error) => panic!("repository should parse: {}", error.message()),
    };
    assert_eq!(parsed.owner, "0sec-labs");
    assert_eq!(parsed.name, "foxguard");
}

#[test]
fn repository_path_rejects_path_injection() {
    assert!(RepositoryPath::parse("0sec-labs/foxguard/issues").is_err());
    assert!(RepositoryPath::parse("0sec-labs/../foxguard").is_err());
    assert!(RepositoryPath::parse("0sec-labs/foxguard?x=1").is_err());
}

#[test]
fn endpoint_preserves_enterprise_api_path() {
    let url =
        match endpoint("https://github.example.com/api/v3", "repos/owner/repo/pulls/1/files") {
            Ok(url) => url,
            Err(error) => panic!("endpoint should build: {}", error.message()),
        };

    assert_eq!(url, "https://github.example.com/api/v3/repos/owner/repo/pulls/1/files");
}

#[test]
fn valid_repo_segment_rejects_empty_and_traversal() {
    assert!(!valid_repo_segment(""));
    assert!(!valid_repo_segment("."));
    assert!(!valid_repo_segment(".."));
    assert!(valid_repo_segment("repo.name_1-2"));
}

#[test]
fn added_lines_include_added_lines_only() {
    let lines = match added_lines_from_patch(Some(
        "@@ -10,4 +20,5 @@ fn demo() {\n context\n-old\n+new\n keep\n+added",
    )) {
        Some(lines) => lines,
        None => panic!("patch should parse"),
    };

    assert!(lines.contains(&21));
    assert!(lines.contains(&23));
    assert!(!lines.contains(&20));
    assert!(!lines.contains(&22));
    assert!(!lines.contains(&24));
}

#[test]
fn added_lines_returns_none_without_patch() {
    assert!(added_lines_from_patch(None).is_none());
}

#[test]
fn check_run_conclusion_comes_from_shared_policy() {
    let pass = evaluate(PrSecurityPolicy::default(), vec![]);
    assert_eq!(pass.report().decision, PrPolicyDecision::Pass);

    let neutral = evaluate(PrSecurityPolicy::default(), vec![finding(Severity::Medium, 1)]);
    assert_eq!(neutral.report().decision, PrPolicyDecision::Neutral);

    let fail = evaluate(PrSecurityPolicy::default(), vec![finding(Severity::High, 1)]);
    assert_eq!(fail.report().decision, PrPolicyDecision::Fail);
    assert_eq!(check_run_title(&fail), "foxguard policy failed");
}

#[test]
fn check_run_payload_matches_shared_mixed_policy_contract() {
    let evaluation = evaluate(PrSecurityPolicy::default(), mixed());
    let (payload, annotation_count) =
        check_run_payload("head-sha", CheckRunPolicy::Evaluated(&evaluation), None);

    assert_eq!(evaluation.report().included_findings, 3);
    assert_eq!(annotation_count, evaluation.report().included_findings);
    assert_eq!(payload.conclusion, "failure");
    assert_eq!(payload.title, "foxguard policy failed");
    assert_eq!(payload.head_sha, "head-sha");
    assert!(payload.summary.contains("scope repository"));
    assert!(payload.summary.contains("report >= medium, block >= high"));
    assert!(payload.summary.contains("fail (3 included, 2 blocking)"));
}

#[test]
fn partial_check_run_is_not_labeled_as_repository_policy() {
    let findings = mixed();
    let partial = PrPolicyNotEvaluated::new(
        PrSecurityPolicy::default(),
        PrPolicyNotEvaluatedReason::ChangedFilesFallback,
    );
    let (payload, _) = check_run_payload(
        "head-sha",
        CheckRunPolicy::NotEvaluated { findings: &findings, policy: &partial },
        None,
    );

    assert_eq!(payload.conclusion, "neutral");
    assert_eq!(payload.title, "foxguard policy not evaluated");
    assert!(payload.summary.contains("was not evaluated"));
    assert!(payload.summary.contains("not a v1 repository-scope policy decision"));
    assert!(!payload.summary.contains("scope repository"));
}

#[test]
fn partial_check_annotations_stay_within_changed_lines() {
    let partial = PrPolicyNotEvaluated::new(
        PrSecurityPolicy::default(),
        PrPolicyNotEvaluatedReason::ChangedFilesFallback,
    );
    let findings = vec![finding(Severity::High, 3), finding(Severity::High, 9)];
    let changed_lines = vec![ChangedFile { file: "src/app.js".to_string(), lines: vec![3] }];

    let (payload, annotation_count) = check_run_payload(
        "head-sha",
        CheckRunPolicy::NotEvaluated { findings: &findings, policy: &partial },
        Some(&changed_lines),
    );

    assert_eq!(annotation_count, 1);
    assert_eq!(payload.annotations[0].start_line, 3);
}

#[test]
fn check_run_annotations_cap_at_github_limit() {
    let findings: Vec<_> = (1..=60).map(|line| finding(Severity::Critical, line)).collect();
    let annotations = check_run_annotations(&findings);

    assert_eq!(annotations.len(), 50);
    assert_eq!(annotations[0].path, "src/app.js");
    assert_eq!(annotations[0].start_line, 1);
    assert_eq!(annotations[0].annotation_level, "failure");
}

#[test]
fn summary_comment_request_body_puts_all_findings_in_one_message() {
    let findings = vec![finding(Severity::High, 10), dependency_finding(11)];
    let source = scanned_revision("https://github.com/fork-owner/fork-repo", "0123456789abcdef");

    let summary = review_summary_body(&findings, &source);
    assert!(summary.contains("**Findings**"));
    assert!(summary.contains(
        "[`src/app.js:10`](<https://github.com/fork-owner/fork-repo/blob/0123456789abcdef/src/app.js#L10>)"
    ));
    assert!(summary.contains(
        "[`package-lock.json:11`](<https://github.com/fork-owner/fork-repo/blob/0123456789abcdef/package-lock.json#L11>)"
    ));
    assert!(summary.contains("`manifest/osv-vulnerable-dep`"));
    assert!(summary.contains("GHSA-r9p9-mrjm-926w"));
}

#[test]
fn summary_links_single_lines_and_ranges_to_scanned_ghe_fork_revision() {
    let mut range = finding(Severity::High, 20);
    range.end_line = 24;
    let source = scanned_revision(
        "https://github.example.com/fork-owner/fork-repo",
        "feedface0123456789abcdef",
    );

    let summary = review_summary_body(&[finding(Severity::Medium, 10), range], &source);

    assert!(summary.contains(
        "[`src/app.js:10`](<https://github.example.com/fork-owner/fork-repo/blob/feedface0123456789abcdef/src/app.js#L10>)"
    ));
    assert!(summary.contains(
        "[`src/app.js:20-24`](<https://github.example.com/fork-owner/fork-repo/blob/feedface0123456789abcdef/src/app.js#L20-L24>)"
    ));
}

#[test]
fn summary_encodes_special_path_segments_in_permalinks() {
    let source = scanned_revision("https://github.com/fork-owner/fork-repo", "0123456789abcdef");
    let finding = finding_in_file(Severity::High, "src/space #?/[brackets].rs", 7);

    let summary = review_summary_body(&[finding], &source);

    assert!(summary.contains(
        "https://github.com/fork-owner/fork-repo/blob/0123456789abcdef/src/space%20%23%3F/%5Bbrackets%5D.rs#L7"
    ));
}

#[test]
fn summary_encodes_untrusted_and_malformed_paths_before_markdown_rendering() {
    let source = scanned_revision("https://github.com/fork-owner/fork-repo", "0123456789abcdef");
    let unsafe_path = "src/unsafe`](<https:attacker.invalid>)\n[trick].rs";
    let malformed_path = "/../unsafe`](<https://attacker.invalid>)\n[trick].rs";
    let safe_finding = finding_in_file(Severity::High, unsafe_path, 9);
    let malformed_finding = finding_in_file(Severity::High, malformed_path, 10);

    let summary = review_summary_body(&[safe_finding, malformed_finding], &source);

    assert!(summary.contains(
        "[`src/unsafe%60%5D%28%3Chttps%3Aattacker.invalid%3E%29%0A%5Btrick%5D.rs:9`](<https://github.com/fork-owner/fork-repo/blob/0123456789abcdef/src/unsafe%60%5D%28%3Chttps%3Aattacker.invalid%3E%29%0A%5Btrick%5D.rs#L9>)"
    ));
    assert!(summary.contains(
        "`/../unsafe%60%5D%28%3Chttps%3A//attacker.invalid%3E%29%0A%5Btrick%5D.rs:10`"
    ));
    assert_eq!(summary.matches("](<https://").count(), 1);
    assert!(!summary.contains("https://attacker.invalid"));
    assert!(!summary.contains("`](<https:attacker.invalid>)"));
    assert!(!summary.contains("\n[trick]"));
}

#[test]
fn summary_links_file_only_dependency_findings_without_line_zero_anchor() {
    let source = scanned_revision("https://github.com/fork-owner/fork-repo", "0123456789abcdef");

    let summary = review_summary_body(&[dependency_finding(0)], &source);

    assert!(summary.contains(
        "[`package-lock.json`](<https://github.com/fork-owner/fork-repo/blob/0123456789abcdef/package-lock.json>)"
    ));
    assert!(summary.contains("GHSA-r9p9-mrjm-926w"));
    assert!(!summary.contains("#L0"));
}

#[test]
fn source_revision_rejects_invalid_web_urls() {
    assert!(SourceRevision::new("http://github.com/fork-owner/fork-repo", "deadbeef").is_err());
    assert!(SourceRevision::new("https://github.com/fork-owner/fork-repo?ref=main", "deadbeef")
        .is_err());
    assert!(SourceRevision::new("https://github.com/fork-owner", "deadbeef").is_err());
}

#[test]
fn owned_foxguard_summary_comment_ids_retain_all_owned_markers() {
    let comments = vec![
        IssueComment {
            id: 3,
            body: Some("human comment".to_string()),
            performed_via_github_app: None,
        },
        IssueComment {
            id: 7,
            body: Some(format!("{COMMENT_MARKER}\nold foxguard summary")),
            performed_via_github_app: Some(PerformedViaGitHubApp { id: 42 }),
        },
        IssueComment {
            id: 11,
            body: Some(format!("{COMMENT_MARKER}\nother app summary")),
            performed_via_github_app: Some(PerformedViaGitHubApp { id: 99 }),
        },
        IssueComment {
            id: 13,
            body: Some(format!("{COMMENT_MARKER}\nnew foxguard summary")),
            performed_via_github_app: Some(PerformedViaGitHubApp { id: 42 }),
        },
    ];

    assert_eq!(owned_foxguard_summary_comment_ids(comments, 42), vec![7, 13]);
}

#[test]
fn check_run_summary_mentions_truncated_annotations() {
    let findings: Vec<_> = (1..=60).map(|line| finding(Severity::Medium, line)).collect();
    let policy = evaluate(PrSecurityPolicy::default(), findings.clone());
    let summary = check_run_summary(&findings, 50, policy.report());

    assert!(summary.contains("60 reportable issue(s)"));
    assert!(summary.contains("Showing the first 50"));
}

#[test]
fn check_run_summary_mentions_dependency_findings_without_annotations() {
    let findings = vec![dependency_finding(12)];
    let policy = evaluate(PrSecurityPolicy::default(), findings.clone());
    let summary = check_run_summary(&findings, 0, policy.report());

    assert!(summary.contains("1 dependency finding(s)"));
    assert!(summary.contains("GHSA-r9p9-mrjm-926w"));
    assert!(summary.contains("`elliptic@6.5.4`"));
}

#[test]
fn check_run_dependency_summary_encodes_untrusted_file_path() {
    let mut finding = dependency_finding(0);
    finding.file = "package`](<https://attacker.invalid>)\n[trick].json".to_string();
    let policy = evaluate(PrSecurityPolicy::default(), vec![finding.clone()]);

    let summary = check_run_summary(&[finding], 0, policy.report());

    assert!(summary.contains(
        "in `package%60%5D%28%3Chttps%3A//attacker.invalid%3E%29%0A%5Btrick%5D.json`"
    ));
    assert!(!summary.contains("https://attacker.invalid"));
    assert!(!summary.contains("`](<https://attacker.invalid>)"));
    assert!(!summary.contains("\n[trick]"));
}

#[test]
fn filter_findings_to_changed_lines_excludes_pre_existing() {
    let changed_lines = vec![
        ChangedFile { file: "src/app.js".to_string(), lines: vec![10, 11, 12] },
        ChangedFile { file: "src/utils.js".to_string(), lines: vec![5, 6] },
    ];

    let findings = vec![
        finding_in_file(Severity::Critical, "src/app.js", 10),
        finding_in_file(Severity::High, "src/app.js", 50),
        finding_in_file(Severity::High, "src/legacy.js", 1),
        finding_in_file(Severity::Low, "src/utils.js", 5),
    ];

    let filtered = filter_findings_to_changed_lines(&findings, &changed_lines);
    assert_eq!(filtered.len(), 2);
    assert_eq!(filtered[0].file, "src/app.js");
    assert_eq!(filtered[0].line, 10);
    assert_eq!(filtered[1].file, "src/utils.js");
    assert_eq!(filtered[1].line, 5);
}

#[test]
fn check_run_policy_is_not_limited_to_changed_lines() {
    let changed_lines =
        vec![ChangedFile { file: "src/app.js".to_string(), lines: vec![10, 11, 12] }];

    let all_findings = vec![
        finding_in_file(Severity::High, "src/app.js", 50),
        finding_in_file(Severity::Critical, "src/legacy.js", 1),
        finding_in_file(Severity::Low, "src/app.js", 10),
    ];
    let policy = evaluate(PrSecurityPolicy::default(), all_findings.clone());
    assert_eq!(policy.report().decision, PrPolicyDecision::Fail);

    let comment_findings = filter_findings_to_changed_lines(&all_findings, &changed_lines);
    assert_eq!(comment_findings.len(), 1);
    let annotations = check_run_annotations(&comment_findings);
    assert_eq!(annotations.len(), 1);
    assert_eq!(annotations[0].annotation_level, "notice");
}

#[test]
fn check_run_policy_fails_on_reported_high_severity() {
    let policy = evaluate(
        PrSecurityPolicy::default(),
        vec![
            finding_in_file(Severity::Critical, "src/legacy.js", 1),
            finding_in_file(Severity::High, "src/app.js", 10),
            finding_in_file(Severity::Low, "src/app.js", 11),
        ],
    );

    assert_eq!(policy.report().decision, PrPolicyDecision::Fail);
}

#[test]
fn check_run_policy_passes_without_reportable_findings() {
    let policy = evaluate(PrSecurityPolicy::default(), vec![]);

    assert_eq!(policy.report().decision, PrPolicyDecision::Pass);
}

#[test]
fn link_header_has_next_detects_quoted_rel_next() {
    let header = "<https://api.github.com/repositories/1/issues?page=2>; rel=\"next\", \
                  <https://api.github.com/repositories/1/issues?page=5>; rel=\"last\"";
    assert!(link_header_has_next(header));
}

#[test]
fn link_header_has_next_detects_unquoted_rel_next() {
    let header = "<https://api.github.com/repos/o/r/pulls/1/comments?page=2>; rel=next";
    assert!(link_header_has_next(header));
}

#[test]
fn link_header_has_next_handles_multi_token_rel() {
    let header = "<https://api.github.com/x?page=2>; rel=\"next prev\"";
    assert!(link_header_has_next(header));
}

#[test]
fn link_header_has_next_rejects_last_page() {
    let header = "<https://api.github.com/x?page=4>; rel=\"prev\", \
                  <https://api.github.com/x?page=1>; rel=\"first\"";
    assert!(!link_header_has_next(header));
}

#[test]
fn link_header_has_next_rejects_empty_and_garbage() {
    assert!(!link_header_has_next(""));
    assert!(!link_header_has_next("not a link header"));
    assert!(!link_header_has_next("<https://x>; rel=\"nextish\""));
}

#[test]
fn hunk_headers_give_the_new_start() {
    assert_eq!(hunk_new_start("@@ -1,2 +30,4 @@"), Some(30));
    assert_eq!(hunk_new_start("+30"), None);
    assert!(patch_positions_fit("@@ -1 +1 @@\n+a"));
    assert!(!patch_positions_fit(&format!("@@ -1 +{} @@\n+a\n+b", usize::MAX)));
}

#[test]
fn the_last_summary_stays() {
    let plan = plan_review(vec![4, 9], 2);
    assert_eq!(plan.summary, SummaryAction::Update(9));
    assert_eq!(plan.delete_summaries, vec![4]);
    assert_eq!(plan_review(vec![], 0).summary, SummaryAction::Nothing);
    assert_eq!(plan_review(vec![], 1).summary, SummaryAction::Create);
    assert_eq!(plan.outcome(1).review_messages, 1);
}

#[test]
fn only_some_failures_leave_a_check_uncreated() {
    let http = |connect: bool, status: Option<u16>| {
        ReviewError::Http(HttpFailure { message: "m".to_string(), connect, status })
    };
    assert!(check_create_definitely_did_not_happen(&http(true, None)));
    assert!(check_create_definitely_did_not_happen(&http(false, Some(422))));
    assert!(!check_create_definitely_did_not_happen(&http(false, Some(502))));
    assert!(!check_create_definitely_did_not_happen(&http(false, None)));
    assert!(check_create_definitely_did_not_happen(&ReviewError::InvalidRepository(
        "x".to_string()
    )));
}

#[test]
fn review_errors_have_words() {
    assert!(endpoint("not a url", "x")
        .map_err(|e| e.message())
        .unwrap_err()
        .starts_with("invalid GitHub API base URL: "));
    assert!(RepositoryPath::parse("x").map_err(|e| e.message()).is_err());
}

#[test]
fn display_paths_are_encoded() {
    assert_eq!(percent_encoded_display_path("a b/é.rs"), "a%20b/%C3%A9.rs");
    assert!(valid_repo_relative_path("src/a.rs"));
    assert!(!valid_repo_relative_path("src/../a.rs"));
    assert!(!valid_repo_relative_path("/src"));
    assert_eq!(truncate("abcdef", 5), "ab...");
    assert_eq!(truncate("abc", 5), "abc");
}

fn comment(id: u64, text: &str, app: Option<u64>) -> IssueComment {
    IssueComment {
        id,
        body: Some(format!("{COMMENT_MARKER}\n{text}")),
        performed_via_github_app: app.map(|id| PerformedViaGitHubApp { id }),
    }
}

fn owner_repo() -> RepositoryPath {
    RepositoryPath::parse("owner/repo")
        .unwrap_or_else(|error| panic!("repository should parse: {}", error.message()))
}

fn shown(request: &ApiRequest) -> (ApiMethod, &str) {
    (request.method, request.path.as_str())
}

fn body_of(request: &ApiRequest) -> &str {
    match &request.body {
        Some(body) => body,
        None => panic!("request should carry a body"),
    }
}

#[test]
fn summary_comment_create_then_update_uses_new_head_sha_and_preserves_human_markers() {
    let repo = owner_repo();
    let findings = vec![finding(Severity::High, 10), dependency_finding(11)];
    let changed_lines = vec![
        ChangedFile { file: "src/app.js".to_string(), lines: vec![10] },
        ChangedFile { file: "package-lock.json".to_string(), lines: vec![11] },
    ];
    let first_source =
        scanned_revision("https://github.example.com/fork-owner/fork-repo", "0123456789abcdef");
    let second_source =
        scanned_revision("https://github.example.com/fork-owner/fork-repo", "fedcba9876543210");

    assert!(!needs_changed_files(&findings, true));
    assert_eq!(
        Listing::<u64>::new().path(&comments_path(&repo, CommentKind::Inline, 42)),
        "repos/owner/repo/pulls/42/comments?per_page=100&page=1"
    );
    assert_eq!(
        Listing::<u64>::new().path(&comments_path(&repo, CommentKind::Summary, 42)),
        "repos/owner/repo/issues/42/comments?per_page=100&page=1"
    );
    let (first_requests, first) = review_requests(
        &repo,
        42,
        42,
        vec![
            comment(76, "human marker", None),
            comment(77, "legacy app marker", Some(42)),
            comment(78, "other app marker", Some(99)),
        ],
        vec![],
        &findings,
        &changed_lines,
        &first_source,
    );
    let (second_requests, second) = review_requests(
        &repo,
        42,
        42,
        vec![],
        vec![comment(99, "old summary", Some(42))],
        &findings,
        &changed_lines,
        &second_source,
    );

    assert_eq!(first, PostReviewOutcome { deleted_comments: 1, review_messages: 1 });
    assert_eq!(second, PostReviewOutcome { deleted_comments: 0, review_messages: 1 });
    assert_eq!(
        first_requests.iter().map(shown).collect::<Vec<_>>(),
        vec![
            (ApiMethod::Post, "repos/owner/repo/issues/42/comments"),
            (ApiMethod::Delete, "repos/owner/repo/pulls/comments/77"),
        ]
    );
    assert_eq!(
        second_requests.iter().map(shown).collect::<Vec<_>>(),
        vec![(ApiMethod::Patch, "repos/owner/repo/issues/comments/99")]
    );
    assert!(first_requests[1].body.is_none());

    let create_body = body_of(&first_requests[0]);
    assert!(create_body.contains(
        "https://github.example.com/fork-owner/fork-repo/blob/0123456789abcdef/package-lock.json#L11"
    ));
    assert!(create_body.contains("GHSA-r9p9-mrjm-926w"));
    let update_body = body_of(&second_requests[0]);
    assert!(update_body.contains(
        "https://github.example.com/fork-owner/fork-repo/blob/fedcba9876543210/package-lock.json#L11"
    ));
    assert!(!update_body.contains("0123456789abcdef"));
}

#[test]
fn patchless_changed_manifest_line_zero_dependencies_are_file_linked_through_updates() {
    let repo = owner_repo();
    let mut line_bearing_finding = dependency_finding(9);
    line_bearing_finding.file = "package-lock.json".to_string();
    let mut unchanged_finding = dependency_finding(0);
    unchanged_finding.file = "yarn.lock".to_string();
    let findings = vec![dependency_finding(0), line_bearing_finding, unchanged_finding];
    let source = scanned_revision("https://github.com/fork-owner/fork-repo", "0123456789abcdef");

    assert!(needs_changed_files(&findings, false));
    assert_eq!(
        Listing::<u64>::new().path(&changed_files_path(&repo, 42)),
        "repos/owner/repo/pulls/42/files?per_page=100&page=1"
    );
    let changed = commentable_lines(vec![PullRequestFile {
        filename: "package-lock.json".to_string(),
        patch: None,
    }]);
    assert_eq!(
        changed,
        vec![ChangedFile { file: "package-lock.json".to_string(), lines: vec![] }]
    );
    let (first_requests, first) =
        review_requests(&repo, 42, 42, vec![], vec![], &findings, &changed, &source);
    let (second_requests, second) = review_requests(
        &repo,
        42,
        42,
        vec![],
        vec![comment(99, "old summary", Some(42))],
        &findings,
        &changed,
        &source,
    );

    assert_eq!(first.review_messages, 1);
    assert_eq!(second.review_messages, 1);
    assert_eq!(first_requests.len(), 1);
    assert_eq!(second_requests.len(), 1);
    assert_eq!(
        shown(&first_requests[0]),
        (ApiMethod::Post, "repos/owner/repo/issues/42/comments")
    );
    assert_eq!(
        shown(&second_requests[0]),
        (ApiMethod::Patch, "repos/owner/repo/issues/comments/99")
    );

    let expected_link = "[`package-lock.json`](<https://github.com/fork-owner/fork-repo/blob/0123456789abcdef/package-lock.json>)";
    for request in [&first_requests[0], &second_requests[0]] {
        let body = body_of(request);
        assert!(body.contains(expected_link));
        assert!(!body.contains("yarn.lock"));
        assert!(!body.contains("package-lock.json:9"));
        assert!(!body.contains("#L0"));
    }
}

#[test]
fn duplicate_owned_summary_comments_converge_after_canonical_update() {
    let source = scanned_revision("https://github.com/owner/repo", "0123456789abcdef");
    assert!(!needs_changed_files(&[], false));
    let (requests, outcome) = review_requests(
        &owner_repo(),
        42,
        42,
        vec![],
        vec![
            comment(80, "human marker", None),
            comment(88, "old owned summary", Some(42)),
            comment(93, "other app summary", Some(99)),
            comment(99, "canonical owned summary", Some(42)),
        ],
        &[],
        &vec![],
        &source,
    );
    assert_eq!(outcome, PostReviewOutcome { deleted_comments: 0, review_messages: 1 });
    assert_eq!(
        requests.iter().map(shown).collect::<Vec<_>>(),
        vec![
            (ApiMethod::Patch, "repos/owner/repo/issues/comments/99"),
            (ApiMethod::Delete, "repos/owner/repo/issues/comments/88"),
        ]
    );
    assert!(body_of(&requests[0]).contains("found no issues in this PR revision"));
}

#[test]
fn nothing_is_said_of_a_clean_pull_request_without_earlier_messages() {
    let source = scanned_revision("https://github.com/owner/repo", "0123456789abcdef");
    let (requests, outcome) =
        review_requests(&owner_repo(), 42, 42, vec![], vec![], &[], &vec![], &source);
    assert!(requests.is_empty());
    assert_eq!(outcome, PostReviewOutcome { deleted_comments: 0, review_messages: 0 });
    assert_eq!(check_runs_path(&owner_repo()), "repos/owner/repo/check-runs");
}

/// Takes up the given answers until the listing is complete; gives the items and how many answers
/// were taken.
fn listed(answers: Vec<(Option<&str>, Vec<u64>)>) -> (Vec<u64>, usize) {
    let mut listing = Listing::new();
    let mut served = 0;
    for (link, items) in answers {
        assert!(!listing.complete);
        assert_eq!(listing.path("items"), format!("items?per_page=100&page={}", served + 1));
        listing.take_page(items, link);
        served += 1;
    }
    assert!(listing.complete);
    (listing.items, served)
}

#[test]
fn paginated_get_follows_link_header_through_short_page() {
    let (items, served) = listed(vec![
        (
            Some(
                "<http://example/x?page=2>; rel=\"next\", <http://example/x?page=3>; rel=\"last\"",
            ),
            (1..=100).collect(),
        ),
        (
            Some(
                "<http://example/x?page=3>; rel=\"next\", <http://example/x?page=1>; rel=\"first\"",
            ),
            (101..=130).collect(),
        ),
        (None, (131..=140).collect()),
    ]);
    let mut expected: Vec<u64> = (1..=100).collect();
    expected.extend(101..=130);
    expected.extend(131..=140);
    assert_eq!(items, expected);
    assert_eq!(served, 3, "client should issue exactly three requests");
}

#[test]
fn paginated_get_stops_when_link_header_omits_next() {
    let page: Vec<u64> = (1..=5).collect();
    let (items, served) = listed(vec![(None, page.clone())]);
    assert_eq!(items, page);
    assert_eq!(served, 1);
}

#[test]
fn paginated_get_stops_when_full_page_has_no_next_rel() {
    let page: Vec<u64> = (1..=100).collect();
    let (items, served) =
        listed(vec![(Some("<http://example/x?page=1>; rel=\"first\""), page.clone())]);
    assert_eq!(items, page);
    assert_eq!(served, 1, "client should not request a second page");
}

#[test]
fn api_bases_must_be_addresses() {
    assert_eq!(check_api_base_url("https://api.github.com"), Ok(()));
    assert!(matches!(
        check_api_base_url("not an address"),
        Err(ReviewError::InvalidApiBaseUrl(error)) if error == "relative URL without a base"
    ));
}
