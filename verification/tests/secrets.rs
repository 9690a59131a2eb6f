use foxguard::secrets::{
    patterns, read_scannable_text, redact_line, scan_directory, scan_paths,
    scan_paths_with_config, scan_paths_with_config_and_notices, size_notice, ExcludeFile,
    ScanRoot, SecretFile, SecretMatch, SecretScanConfig,
};

fn file(path: &str, text: &str) -> SecretFile {
    SecretFile {
        path: path.to_string(),
        canonical: Some(path.to_string()),
        size: Some(text.len() as u64),
        bytes: Some(text.as_bytes().to_vec()),
    }
}

fn directory(path: &str) -> ScanRoot {
    ScanRoot { path: path.to_string(), is_file: false }
}

#[test]
fn every_finding_redacts_all_secrets_on_its_line() {
    let first = ["ghp_", &"a".repeat(36)].concat();
    let second = ["ghp_", &"b".repeat(36)].concat();
    let npm = ["npm_", &"c".repeat(36)].concat();
    let files = vec![file("/t/tokens.txt", &format!("é tokens: {first}, {second}, {npm}\n"))];

    let findings = scan_paths(&files, 1_000_000);
    assert_eq!(findings.len(), 3);
    for finding in findings {
        assert_eq!(finding.snippet, "é tokens: [REDACTED], [REDACTED], [REDACTED]");
    }
}

#[test]
fn ignored_secret_rules_do_not_expose_neighboring_tokens() {
    let github = ["ghp_", &"a".repeat(36)].concat();
    let npm = ["npm_", &"b".repeat(36)].concat();
    let files = vec![file("/t/tokens.txt", &format!("{github} {npm}\n"))];
    let config =
        SecretScanConfig::from_inputs(&vec![], None, &vec!["secret/npm-token".to_string()]).unwrap();

    let findings = scan_paths_with_config(&directory("/t"), &files, &config, 1_000_000);
    assert_eq!(findings.len(), 1);
    assert_eq!(findings[0].rule_id, "secret/github-token");
    assert_eq!(findings[0].snippet, "[REDACTED] [REDACTED]");
}

#[test]
fn overlapping_secret_patterns_share_fully_redacted_snippets() {
    let nested = ["glpat-", "npm_", &"a".repeat(36)].concat();
    let files = vec![file("/t/tokens.txt", &format!("TOKEN=\"{nested}\"\n"))];

    let findings = scan_paths(&files, 1_000_000);
    assert_eq!(findings.len(), 2);
    for finding in findings {
        assert_eq!(finding.snippet, "TOKEN=\"[REDACTED]\"");
    }
}

#[test]
fn scan_directory_includes_dotenv() {
    let github = ["ghp_", "abcdefghijklmnopqrstuvwxyz1234567890"].concat();
    let files = vec![file("/t/.env", &format!("TOKEN={github}\n"))];

    let findings = scan_directory(&directory("/t"), &files, 1_000_000);
    assert!(!findings.is_empty());
    assert!(findings.iter().any(|f| f.file.contains(".env")));
}

#[test]
fn scan_directory_includes_hidden_dirs() {
    let github = ["ghp_", "abcdefghijklmnopqrstuvwxyz1234567890"].concat();
    let files = vec![file("/t/.secrets/creds.txt", &format!("TOKEN={github}\n"))];

    let findings = scan_directory(&directory("/t"), &files, 1_000_000);
    assert!(!findings.is_empty());
    assert!(findings.iter().any(|f| f.file.contains(".secrets/creds.txt")));
}

#[test]
fn matches_are_placed_by_line_and_byte() {
    let npm = ["npm_", &"c".repeat(36)].concat();
    let files = vec![file("/t/a.txt", &format!("\né {npm}\n"))];
    let findings = scan_paths(&files, 1_000_000);
    assert_eq!(findings.len(), 1);
    assert_eq!((findings[0].line, findings[0].column), (2, 4));
    assert_eq!((findings[0].end_line, findings[0].end_column), (2, 44));
}

#[test]
fn large_and_unreadable_files_are_noticed() {
    let mut unknown = file("/t/b.txt", "x");
    unknown.size = None;
    let files = vec![file("/t/a.txt", "abcdef"), unknown];
    let (findings, notices) =
        scan_paths_with_config_and_notices(&directory("/t"), &files, &SecretScanConfig::default(), 5);
    assert!(findings.is_empty());
    assert_eq!(
        notices,
        vec![
            "warning: skipping /t/a.txt (6 bytes exceeds --max-file-size)".to_string(),
            "warning: skipping /t/b.txt (cannot read metadata)".to_string(),
        ]
    );
    assert_eq!(size_notice("a", Some(5), 5), None);
}

#[test]
fn binary_files_are_not_scanned() {
    let mut binary = file("/t/a.bin", "");
    binary.bytes = Some(vec![1, 0, 2]);
    assert_eq!(read_scannable_text(&binary), None);
    let mut broken = file("/t/a.txt", "");
    broken.bytes = Some(vec![0x61, 0xff]);
    assert_eq!(read_scannable_text(&broken), Some("a\u{fffd}".to_string()));
}

#[test]
fn excluded_paths_are_skipped() {
    let config = SecretScanConfig::from_inputs(
        &vec!["vendor".to_string()],
        Some(ExcludeFile {
            path: "list".to_string(),
            content: Ok("# comment\n\nbuild/out\n".to_string()),
        }),
        &vec![],
    )
    .unwrap();
    assert!(config.should_skip_path(&directory("/t"), "/t/vendor/a.txt", &None));
    assert!(config.should_skip_path(&directory("/t"), "/t/build/out/b.txt", &None));
    assert!(!config.should_skip_path(&directory("/t"), "/t/src/a.txt", &None));
    let failed = SecretScanConfig::from_inputs(
        &vec![],
        Some(ExcludeFile { path: "list".to_string(), content: Err("gone".to_string()) }),
        &vec![],
    );
    assert_eq!(
        failed.map(|_| ()),
        Err("Failed to read exclude path file list: gone".to_string())
    );
}

#[test]
fn redaction_joins_overlapping_matches() {
    let ms = vec![
        SecretMatch { pattern: 0, start: 2, end: 6 },
        SecretMatch { pattern: 1, start: 4, end: 8 },
    ];
    assert_eq!(redact_line("ab123456cd", &ms), "ab[REDACTED]cd");
}

#[test]
fn every_pattern_has_its_own_rule() {
    let all = patterns();
    let mut ids: Vec<&str> = all.iter().map(|p| p.rule_id).collect();
    let n = ids.len();
    ids.sort_unstable();
    ids.dedup();
    assert_eq!(ids.len(), n);
}

#[test]
fn a_file_is_seen_from_the_directory_that_holds_it() {
    let config =
        SecretScanConfig::from_inputs(&vec!["a.txt".to_string()], None, &vec![]).unwrap();
    let file_root = ScanRoot { path: "/t/a.txt".to_string(), is_file: true };
    assert!(config.should_skip_path(&file_root, "/t/a.txt", &None));
    assert!(!config.should_skip_path(&directory("/t/a.txt"), "/t/a.txt", &None));
    let bare = ScanRoot { path: "a.txt".to_string(), is_file: true };
    assert!(config.should_skip_path(&bare, "a.txt", &None));
}
