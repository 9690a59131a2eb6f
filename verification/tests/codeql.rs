use foxguard::document::Node;
use foxguard::engine::artifact::{
    decode_sarif_uri, sarif_uri_path, stable_path_under_root, stable_relative_path,
    uri_base_comparison_path,
};
use foxguard::engine::codeql::{
    apply_rule_filter, load_codeql_rules, load_codeql_rules_for_diff, parse_codeql_file, rule_ids,
    CodeQlRule, RuleFile,
};
use foxguard::engine::codeql_diff::{
    diff_prebuilt_database_findings, parse_sarif_diff_findings, scan_prebuilt_database,
    CodeQlDiffScanResult, CodeQlSarifPathResolver,
};
use foxguard::engine::codeql_scan::{
    analyze_verdict, codeql_create_timeout, codeql_database_source_roots, codeql_timeout,
    create_verdict, database_step, explicit_rule_database, finished_run, infer_query_language,
    language_from_extensions, language_from_query_imports, probe_verdict, process_message,
    scan_with_notices, scan_with_notices_for_target, settle_step, AutoDatabase, DatabaseStep,
    ProbeEnd, RuleRun, ScanSetup, ToolEnd,
};
use foxguard::engine::sarif::{parse_sarif_findings, sarif_files, sarif_fingerprint, SourceFile};
use foxguard::finding::Severity;

fn sample_rule() -> CodeQlRule {
    CodeQlRule {
        id: "kernel/codeql-test".to_string(),
        message: "query matched".to_string(),
        severity: Severity::High,
        cwe: Some("CWE-362".to_string()),
        query: "query.ql".to_string(),
        database: None,
    }
}

#[test]
fn parses_codeql_yaml_rule() {
    let content = r#"
rules:
  - id: kernel/codeql-test
    engine: codeql
    severity: WARNING
    message: query matched
    metadata:
      cwe: [CWE-362]
    query: queries/test.ql
"#;
    let (rules, notices) = match parse_codeql_file(content, "/rules/a.yml", "/rules", &None) {
        Ok(parsed) => parsed,
        Err(error) => panic!("failed to parse CodeQL rule: {error}"),
    };

    assert!(notices.is_empty());
    assert_eq!(rules.len(), 1);
    assert_eq!(rules[0].id, "kernel/codeql-test");
    assert_eq!(rules[0].severity, Severity::High);
    assert_eq!(rules[0].cwe.as_deref(), Some("CWE-362"));
    assert!(rules[0].query.ends_with("queries/test.ql"));
    assert_eq!(rules[0].query, "/rules/queries/test.ql");
}

#[test]
fn skips_malformed_codeql_rule_with_notice() {
    let content = r#"
rules:
  - id: kernel/good-codeql
    engine: codeql
    severity: high
    message: good
    query: good.ql
  - id: kernel/bad-codeql
    engine: codeql
    severity: nope
    message: bad
    query: bad.ql
"#;
    let (rules, notices) = match parse_codeql_file(content, "/rules/a.yml", "/rules", &None) {
        Ok(parsed) => parsed,
        Err(error) => panic!("failed to parse CodeQL rule file: {error}"),
    };

    assert_eq!(rules.len(), 1);
    assert_eq!(rules[0].id, "kernel/good-codeql");
    assert_eq!(notices.len(), 1);
    assert!(notices[0].contains("kernel/bad-codeql"));
    assert!(notices[0].contains("rule 2"));
    assert_eq!(
        notices[0],
        "Warning: CodeQL rule 'kernel/bad-codeql' in /rules/a.yml at rule 2 skipped: \
         unsupported CodeQL severity 'nope'"
    );
}

#[test]
fn tagged_keys_are_other_keys_but_in_rules() {
    let entry = "- {id: a, engine: codeql, severity: low, message: m, KEY: q.ql}";
    let parse = |content: &str| {
        parse_codeql_file(content, "/r/a.yml", "/r", &None).expect("the file is YAML")
    };
    let plain = parse(&format!("rules: [{}]", entry[2..].replace("KEY", "query")));
    assert_eq!(plain.0.len(), 1);
    let tagged_rules = parse(&format!("!x rules: [{}]", entry[2..].replace("KEY", "query")));
    assert!(tagged_rules.0.is_empty() && tagged_rules.1.is_empty());
    let tagged_query = parse(&format!("rules: [{}]", entry[2..].replace("KEY", "!x query")));
    assert_eq!(tagged_query.0.len(), 1);
    assert_eq!(tagged_query.0[0].query, "/r/q.ql");
}

/// What is said of the one entry of a rule file, after `skipped: `.
fn objection(entry: &str) -> String {
    let content = format!("rules:\n  - {entry}\n");
    let (rules, notices) =
        parse_codeql_file(&content, "/r/a.yml", "/r", &None).expect("the file is YAML");
    assert!(rules.is_empty());
    assert_eq!(notices.len(), 1);
    let (_, words) = notices[0].split_once(" skipped: ").expect("the entry is skipped");
    words.to_string()
}

#[test]
fn malformed_rules_are_described_in_the_words_of_serde() {
    for value in ["5", "-5", "1.5", "1.0", ".inf", "1e300", "true", "~", "[a]", "{a: b}"] {
        let parsed: serde_yaml_ng::Value = serde_yaml_ng::from_str(value).expect("a value");
        let expected = serde_yaml_ng::from_value::<String>(parsed).expect_err("no text");
        assert_eq!(
            objection(&format!("{{engine: codeql, id: {value}}}")),
            expected.to_string(),
            "{value}"
        );
    }
    assert_eq!(
        objection("{engine: codeql, id: 5}"),
        "invalid type: integer `5`, expected a string"
    );
    assert_eq!(
        objection("{engine: codeql, id: a, 7: b}"),
        "invalid type: integer `7`, expected field identifier"
    );
    assert_eq!(
        objection("{engine: codeql, metadata: \"a\\\"b\\n\"}"),
        "invalid type: string \"a\\\"b\\n\", expected struct CodeQlMetadata"
    );
    assert_eq!(
        objection("{engine: codeql, metadata: [CWE-1]}"),
        "invalid type: sequence, expected struct CodeQlMetadata"
    );
    assert_eq!(
        objection("{engine: codeql, metadata: {cwe: 5}}"),
        "data did not match any variant of untagged enum CweValue"
    );
    assert_eq!(
        objection("{engine: codeql, metadata: {cwe: [!x CWE-1]}}"),
        "untagged and internally tagged enums do not support enum input"
    );
    assert_eq!(objection("{engine: codeql, id: a, !x id: b}"), "duplicate field `id`");
    assert_eq!(objection("{engine: codeql}"), "missing field `id`");
    assert_eq!(objection("{engine: codeql, id: a}"), "missing field `message`");
    assert_eq!(objection("{engine: codeql, id: a, message: m}"), "missing field `severity`");
    assert_eq!(
        objection("{engine: codeql, id: a, message: m, severity: low}"),
        "missing field `query`"
    );
}

#[test]
fn the_first_field_that_does_not_belong_is_named() {
    assert_eq!(
        objection("{engine: codeql, query: 1, severity: nope, id: 2}"),
        "invalid type: integer `1`, expected a string"
    );
    assert_eq!(
        objection("{engine: codeql, severity: nope, query: 1}"),
        "unsupported CodeQL severity 'nope'"
    );
}

#[test]
fn metadata_may_be_empty() {
    for metadata in ["~", "!x ~", "{}", "{cwe: ~}", "{cwe: []}", "{other: 1}"] {
        let content = format!(
            "rules:\n  - {{engine: codeql, id: a, message: m, severity: low, query: q, \
             metadata: {metadata}}}\n"
        );
        let (rules, notices) =
            parse_codeql_file(&content, "/r/a.yml", "/r", &None).expect("the file is YAML");
        assert!(notices.is_empty(), "{metadata}: {notices:?}");
        assert_eq!(rules[0].cwe, None);
    }
}

#[test]
fn databases_are_counted_by_path() {
    let mut first = rule("a");
    first.database = Some("/x/db".to_string());
    let mut second = rule("b");
    second.database = Some("/x/./db/".to_string());
    let mut third = rule("c");
    third.database = Some("/x/other".to_string());
    let finished = || finished_run("{}", Vec::new());
    let result = scan_with_notices(
        &vec![first, second, third],
        None,
        None,
        Ok(()),
        &vec![finished(), finished(), finished()],
    );
    assert_eq!(result.files_scanned, 2);
}

#[test]
fn strict_diff_loader_rejects_missing_rule_path() {
    let error = load_codeql_rules_for_diff("/tmp/missing-rules", None, &Vec::new())
        .expect_err("missing path must fail");

    assert!(error.contains("does not exist"), "{error}");
}

#[test]
fn missing_database_emits_notice_without_findings() {
    let runs = vec![RuleRun::Failed("not run".to_string())];
    let probe = Err("codeql not found on PATH".to_string());
    let result = scan_with_notices(&vec![sample_rule()], None, None, probe, &runs);

    assert!(result.findings.is_empty());
    assert_eq!(result.candidate_rules, 1);
    assert_eq!(result.notices.len(), 1);
    assert!(result.notices[0].contains("no database configured"));
}

#[test]
fn auto_db_skipped_cleanly_when_codeql_absent() {
    let setup = ScanSetup {
        cli_database: None,
        env_database: None,
        scan_target: Some("/target".to_string()),
        probe: Err("codeql not found on PATH".to_string()),
    };
    let result = scan_with_notices_for_target(
        &vec![sample_rule()],
        &setup,
        &vec![AutoDatabase::NoLanguage],
        &vec![RuleRun::Failed("not run".to_string())],
    );

    assert!(result.findings.is_empty());
    assert_eq!(result.candidate_rules, 1);
    assert_eq!(result.notices.len(), 1);
    assert!(
        result.notices[0].contains("no database configured"),
        "expected legacy notice, got: {}",
        result.notices[0]
    );
}

#[test]
fn infers_cpp_from_query_import() {
    let language = language_from_query_imports(
        "/**\n * @id cpp/foo\n */\nimport cpp\n\nfrom Function f\nselect f\n",
    );
    assert_eq!(language.as_deref(), Some("cpp"));
}

#[test]
fn infers_python_from_query_import() {
    let language = language_from_query_imports("import python\nfrom Foo f select f\n");
    assert_eq!(language.as_deref(), Some("python"));
}

#[test]
fn infers_cpp_from_source_root_extensions() {
    let extensions = vec!["c".to_string(), "h".to_string(), "md".to_string()];
    let language = language_from_extensions(&extensions);
    assert_eq!(language.as_deref(), Some("cpp"));
}

#[test]
fn parses_sarif_result_into_finding() {
    let sarif = r#"
{
  "version": "2.1.0",
  "runs": [
    {
      "results": [
        {
          "ruleId": "external/id",
          "message": { "text": "CodeQL found this" },
          "locations": [
            {
              "physicalLocation": {
                "artifactLocation": { "uri": "src/file%20name.c" },
                "region": { "startLine": 7, "startColumn": 3, "endLine": 7, "endColumn": 11 }
              }
            }
          ]
        }
      ]
    }
  ]
}
"#;

    let findings = parse_sarif_findings(&sample_rule(), sarif, &Vec::new());

    assert_eq!(findings.len(), 1);
    assert_eq!(findings[0].rule_id, "kernel/codeql-test");
    assert_eq!(findings[0].file, "src/file name.c");
    assert_eq!(findings[0].line, 7);
    assert_eq!(findings[0].column, 3);
    assert_eq!(findings[0].end_column, 11);
    assert_eq!(findings[0].description, "CodeQL found this");
    assert_eq!(findings[0].tags, vec!["codeql".to_string()]);
    assert_eq!(f32::from_bits(findings[0].confidence), 0.8);
    assert_eq!(sarif_files(sarif), vec!["src/file name.c".to_string()]);
}

#[test]
fn paired_sarif_resolves_uri_base_id_to_repo_relative_path() {
    let sarif = r#"
{
  "version": "2.1.0",
  "runs": [
    {
      "tool": { "driver": { "name": "CodeQL" } },
      "originalUriBaseIds": {
        "SRCROOT": { "uri": "file:///tmp/base/" }
      },
      "results": [
        {
          "message": { "text": "CodeQL found this" },
          "partialFingerprints": { "primaryLocationLineHash": "stable" },
          "locations": [
            {
              "physicalLocation": {
                "artifactLocation": { "uri": "src/file.c", "uriBaseId": "SRCROOT" },
                "region": { "startLine": 7, "startColumn": 3 }
              }
            }
          ]
        }
      ]
    }
  ]
}
"#;

    let parsed = parse_sarif_diff_findings(&sample_rule(), sarif, &Vec::new())
        .expect("valid paired SARIF");

    assert_eq!(parsed.findings.len(), 1);
    assert_eq!(parsed.findings[0].finding.file, "src/file.c");
    assert_eq!(parsed.findings[0].comparison_path, "codeql-single-root/src/file.c");
    assert!(parsed.namespaces.is_empty());
    assert_eq!(
        parsed.findings[0].identity,
        "fingerprint:partialFingerprints:primaryLocationLineHash:stable"
    );
    assert_eq!(parsed.findings[0].finding.end_column, 4);
}

#[test]
fn paired_sarif_rejects_multiple_source_roots_without_a_uri_base_id() {
    let sarif = r#"
{
  "version": "2.1.0",
  "runs": [
    {
      "tool": { "driver": { "name": "CodeQL" } },
      "results": [
        {
          "message": { "text": "CodeQL found this" },
          "locations": [
            {
              "physicalLocation": {
                "artifactLocation": { "uri": "src/file.c" },
                "region": { "startLine": 7, "startColumn": 3 }
              }
            }
          ]
        }
      ]
    }
  ]
}
"#;
    let source_roots = vec!["/tmp/base/pkg-a".to_string(), "/tmp/base/pkg-b".to_string()];

    let error = match parse_sarif_diff_findings(&sample_rule(), sarif, &source_roots) {
        Ok(_) => panic!("multiple anonymous source roots must fail"),
        Err(error) => error,
    };

    assert!(error.contains("multiple CodeQL source roots without a uriBaseId"));
}

// ---------------------------------------------------------------------------
// Rules
// ---------------------------------------------------------------------------

#[test]
fn rule_files_fail_or_are_empty() {
    assert!(parse_codeql_file("rules: [", "/r/a.yml", "/r", &None)
        .unwrap_err()
        .starts_with("Failed to parse YAML /r/a.yml: "));
    let (rules, notices) = parse_codeql_file("other: 1", "/r/a.yml", "/r", &None).unwrap();
    assert!(rules.is_empty() && notices.is_empty());
    let (rules, notices) =
        parse_codeql_file("rules:\n  - engine: codeql\n", "/r/a.yml", "/r", &None).unwrap();
    assert!(rules.is_empty());
    assert_eq!(
        notices,
        vec!["Warning: CodeQL rule '<unknown>' in /r/a.yml at rule 1 skipped: missing field `id`"
            .to_string()]
    );
}

#[test]
fn databases_may_come_from_the_environment() {
    let content = "rules:\n  - {id: a, engine: CodeQL, severity: low, message: m, query: /q.ql, \
                   database: \"${FOXGUARD_CODEQL_DB}\"}\n  - {id: b, engine: codeql, severity: low, \
                   message: m, query: q.ql, database: db}\n";
    let (rules, _) =
        parse_codeql_file(content, "/r/a.yml", "/r", &Some("/env/db".to_string())).unwrap();
    assert_eq!(rules[0].query_path(), "/q.ql");
    assert_eq!(rules[0].database.as_deref(), Some("/env/db"));
    assert_eq!(rules[1].database.as_deref(), Some("/r/db"));
    let (rules, _) = parse_codeql_file(content, "/r/a.yml", "/r", &None).unwrap();
    assert_eq!(rules[0].database, None);
}

fn rule(id: &str) -> CodeQlRule {
    CodeQlRule { id: id.to_string(), ..sample_rule() }
}

#[test]
fn rules_are_filtered_by_id() {
    let mut rules = vec![rule("a"), rule("b"), rule("c"), rule("a")];
    assert_eq!(rule_ids(&rules), vec!["a".to_string(), "b".to_string(), "c".to_string()]);
    apply_rule_filter(
        &mut rules,
        &vec!["a".to_string(), "b".to_string()],
        &vec!["b".to_string()],
    );
    assert_eq!(rules.iter().map(|r| r.id()).collect::<Vec<_>>(), vec!["a", "a"]);
    let mut all = vec![rule("a")];
    apply_rule_filter(&mut all, &Vec::new(), &Vec::new());
    assert_eq!(all.len(), 1);
}

#[test]
fn comparisons_need_every_rule() {
    let file = |path: &str, outcome: Result<(Vec<CodeQlRule>, Vec<String>), String>| RuleFile {
        path: path.to_string(),
        outcome,
    };
    let existing = vec!["query.ql".to_string()];
    let loaded = load_codeql_rules_for_diff(
        "/r",
        Some(vec![file("/r/a.yml", Ok((vec![rule("a")], vec![])))]),
        &existing,
    )
    .expect("a rule");
    assert_eq!(loaded.len(), 1);
    assert_eq!(
        load_codeql_rules_for_diff("/r", Some(vec![]), &existing).unwrap_err(),
        "CodeQL diff requires at least one engine: codeql rule in /r"
    );
    assert_eq!(
        load_codeql_rules_for_diff(
            "/r",
            Some(vec![file("/r/a.yml", Ok((vec![], vec!["x".to_string(), "y".to_string()])))]),
            &existing
        )
        .unwrap_err(),
        "CodeQL diff failed to load rules from /r/a.yml: x; y"
    );
    assert_eq!(
        load_codeql_rules_for_diff(
            "/r",
            Some(vec![file("/r/a.yml", Ok((vec![rule("a")], vec![])))]),
            &Vec::new()
        )
        .unwrap_err(),
        "CodeQL diff failed to load rule 'a': query query.ql does not exist"
    );
    let (rules, notices) = load_codeql_rules(vec![
        file("/r/a.yml", Err("broken".to_string())),
        file("/r/b.yml", Ok((vec![rule("a")], vec!["n".to_string()]))),
    ]);
    assert_eq!(rules.len(), 1);
    assert_eq!(notices, vec!["Warning: broken".to_string(), "n".to_string()]);
}

// ---------------------------------------------------------------------------
// Scans
// ---------------------------------------------------------------------------

const ONE_RESULT: &str = r#"{"version":"2.1.0","runs":[{"tool":{"driver":{"name":"CodeQL"}},
"results":[{"locations":[{"physicalLocation":{"artifactLocation":{"uri":"b.c"},
"region":{"startLine":2}}}]}]}]}"#;

#[test]
fn scans_run_the_rules_that_have_a_database() {
    let setup = ScanSetup {
        cli_database: None,
        env_database: None,
        scan_target: Some("/target".to_string()),
        probe: Ok(()),
    };
    let mut explicit = rule("a");
    explicit.database = Some("/db".to_string());
    let rules = vec![explicit, rule("b"), rule("c"), rule("d")];
    let autos = vec![
        AutoDatabase::NoLanguage,
        AutoDatabase::NoLanguage,
        AutoDatabase::Failed { language: "go".to_string(), error: "e".to_string() },
        AutoDatabase::Built("/auto".to_string()),
    ];
    let files = vec![SourceFile {
        path: "b.c".to_string(),
        text: Some("first\nsecond\n".to_string()),
    }];
    let runs = vec![
        finished_run(ONE_RESULT, files),
        RuleRun::Failed("unused".to_string()),
        RuleRun::Failed("unused".to_string()),
        RuleRun::Failed("boom".to_string()),
    ];
    let result = scan_with_notices_for_target(&rules, &setup, &autos, &runs);
    assert_eq!(result.findings.len(), 1);
    assert_eq!(result.findings[0].snippet, "second");
    assert_eq!(result.findings[0].end_column, 7);
    assert_eq!(result.findings[0].description, "query matched");
    assert_eq!(result.files_scanned, 1);
    assert_eq!(result.candidate_rules, 4);
    assert_eq!(
        result.notices,
        vec![
            "Warning: CodeQL rule 'b' skipped: could not infer query language; add an `import \
             <lang>` line to query.ql or set --codeql-db"
                .to_string(),
            "Warning: CodeQL rule 'c' skipped: failed to auto-build go database for /target: e"
                .to_string(),
            "Warning: CodeQL rule 'd' failed: boom".to_string(),
        ]
    );
}

#[test]
fn databases_without_the_tool_are_not_scanned() {
    let probe = Err("codeql not found on PATH".to_string());
    let result = scan_with_notices(
        &vec![sample_rule()],
        Some("/db".to_string()),
        None,
        probe,
        &vec![RuleRun::Failed("unused".to_string())],
    );
    assert!(result.findings.is_empty());
    assert_eq!(
        result.notices,
        vec!["Warning: CodeQL engine skipped: codeql not found on PATH; install CodeQL (`codeql`) \
              to run engine: codeql rules"
            .to_string()]
    );
}

#[test]
fn a_missing_tool_is_noticed_once() {
    let probe = || Err("codeql not found on PATH".to_string());
    let runs = || vec![RuleRun::Failed("unused".to_string()), RuleRun::Failed("unused".to_string())];
    let once = vec!["Warning: CodeQL engine skipped: codeql not found on PATH; install CodeQL \
                     (`codeql`) to run engine: codeql rules"
        .to_string()];
    let without = scan_with_notices(&vec![rule("a"), rule("b")], None, None, probe(), &runs());
    assert_eq!(without.notices, once);
    assert_eq!(without.candidate_rules, 2);
    let mut own = rule("b");
    own.database = Some("/db".to_string());
    let mixed = scan_with_notices(&vec![rule("a"), own], None, None, probe(), &runs());
    assert_eq!(mixed.notices, once);
    let none = scan_with_notices(&vec![], None, None, probe(), &vec![]);
    assert!(none.notices.is_empty());
}

#[test]
fn databases_are_built_once_for_a_language() {
    let setup = ScanSetup {
        cli_database: None,
        env_database: None,
        scan_target: Some("/target".to_string()),
        probe: Ok(()),
    };
    let query = Some("import python\n".to_string());
    let extensions = vec!["go".to_string()];
    let mut own = rule("a");
    own.database = Some("/own".to_string());
    assert_eq!(
        database_step(&own, &setup, &query, &extensions, &vec![]),
        DatabaseStep::Use("/own".to_string())
    );
    assert_eq!(
        database_step(&rule("a"), &setup, &query, &extensions, &vec![]),
        DatabaseStep::Build("python".to_string())
    );
    let built = vec![("go".to_string(), "/g".to_string()), ("python".to_string(), "/p".to_string())];
    assert_eq!(
        database_step(&rule("a"), &setup, &query, &extensions, &built),
        DatabaseStep::Use("/p".to_string())
    );
    assert_eq!(
        database_step(&rule("a"), &setup, &None, &extensions, &built),
        DatabaseStep::Use("/g".to_string())
    );
    let skipped = database_step(&rule("a"), &setup, &None, &vec![], &built);
    assert!(matches!(&skipped, DatabaseStep::Skip(notice) if notice.contains("could not infer")));
    assert_eq!(settle_step(skipped, Ok(String::new())), AutoDatabase::NoLanguage);
    assert_eq!(
        settle_step(DatabaseStep::Build("go".to_string()), Err("e".to_string())),
        AutoDatabase::Failed { language: "go".to_string(), error: "e".to_string() }
    );
}

#[test]
fn source_roots_come_in_the_order_of_paths() {
    let content = "sourceLocationPrefix: /b\nsourceLocationPrefixes: [/a-c, /a/b, /b]\n";
    assert_eq!(
        codeql_database_source_roots(content, "m.yml"),
        Ok(vec!["/a/b".to_string(), "/a-c".to_string(), "/b".to_string()])
    );
    assert_eq!(
        codeql_database_source_roots("sourceRoot: !x null\n", "m.yml"),
        Err("CodeQL database metadata m.yml has an invalid sourceRoot value".to_string())
    );
    assert_eq!(
        codeql_database_source_roots("sourceRoot: !x /a\n", "m.yml"),
        Ok(vec!["/a".to_string()])
    );
    assert_eq!(codeql_database_source_roots("!x sourceRoot: /a\n", "m.yml"), Ok(vec![]));
}

#[test]
fn databases_are_chosen_in_order() {
    let cli = Some("/cli".to_string());
    let env = Some("/env".to_string());
    let mut own = rule("a");
    own.database = Some("/own".to_string());
    assert_eq!(explicit_rule_database(&own, &cli, &env).as_deref(), Some("/own"));
    assert_eq!(explicit_rule_database(&rule("a"), &cli, &env).as_deref(), Some("/cli"));
    assert_eq!(explicit_rule_database(&rule("a"), &None, &env).as_deref(), Some("/env"));
    assert_eq!(explicit_rule_database(&rule("a"), &None, &None), None);
}

#[test]
fn languages_come_from_queries_or_files() {
    let extensions = vec!["PY".to_string(), "py".to_string(), "go".to_string()];
    let query = Some("import semmle.lib\nimport java.util;\n".to_string());
    assert_eq!(infer_query_language(&query, &extensions).as_deref(), Some("java"));
    assert_eq!(infer_query_language(&None, &extensions).as_deref(), Some("python"));
    assert_eq!(infer_query_language(&None, &Vec::new()), None);
}

#[test]
fn the_tool_says_why_it_failed() {
    assert_eq!(codeql_timeout(&Some("7".to_string())), 7);
    assert_eq!(codeql_timeout(&Some(" 7".to_string())), 300);
    assert_eq!(codeql_create_timeout(&Some("0".to_string())), 900);
    assert_eq!(
        analyze_verdict(ToolEnd::TimedOut, 5),
        Err("codeql timed out after 5s".to_string())
    );
    assert_eq!(
        create_verdict(ToolEnd::Failed(String::new()), 5),
        Err("codeql database create exited without output".to_string())
    );
    assert_eq!(
        analyze_verdict(ToolEnd::Failed("bad".to_string()), 5),
        Err("bad".to_string())
    );
    assert_eq!(analyze_verdict(ToolEnd::Succeeded, 5), Ok(()));
    let message = process_message(&b" out \n".to_vec(), &vec![b'e', 0xff]);
    assert_eq!(message, "out\ne\u{fffd}");
    assert_eq!(
        probe_verdict(ProbeEnd::Failed(" \n".to_string())),
        Err("codeql --version failed".to_string())
    );
    assert_eq!(
        probe_verdict(ProbeEnd::NotFound),
        Err("codeql not found on PATH".to_string())
    );
    assert_eq!(
        probe_verdict(ProbeEnd::NotRun("x".to_string())),
        Err("failed to run codeql --version: x".to_string())
    );
    assert_eq!(probe_verdict(ProbeEnd::Succeeded), Ok(()));
}

#[test]
fn databases_tell_where_their_sources_stood() {
    let roots = codeql_database_source_roots(
        "sourceLocationPrefix: /tmp/a/../b\nsourceLocationPrefixes: [/tmp/b, /tmp/c]\n",
        "/db/codeql-database.yml",
    );
    assert_eq!(roots, Ok(vec!["/tmp/b".to_string(), "/tmp/c".to_string()]));
    assert_eq!(
        codeql_database_source_roots("sourceRoot: relative", "/m"),
        Err("sourceRoot value 'relative' is not an absolute path".to_string())
    );
    assert_eq!(
        codeql_database_source_roots("sourceRoot: [1]", "/m"),
        Err("CodeQL database metadata /m has a non-string sourceRoot entry".to_string())
    );
    assert_eq!(
        codeql_database_source_roots("sourceRoot: 1", "/m"),
        Err("CodeQL database metadata /m has an invalid sourceRoot value".to_string())
    );
    assert_eq!(codeql_database_source_roots("sourceRoot: null", "/m"), Ok(vec![]));
    assert!(codeql_database_source_roots("a: [", "/m")
        .unwrap_err()
        .starts_with("failed to parse CodeQL database metadata /m: "));
}

// ---------------------------------------------------------------------------
// Comparisons
// ---------------------------------------------------------------------------

fn document(results: &str) -> String {
    format!(
        "{{\"version\":\"2.1.0\",\"runs\":[{{\"tool\":{{\"driver\":{{\"name\":\"CodeQL\"}}}},\
         \"results\":[{results}]}}]}}"
    )
}

fn result_at(line: usize, snippet: &str) -> String {
    format!(
        "{{\"locations\":[{{\"physicalLocation\":{{\"artifactLocation\":{{\"uri\":\"a.c\"}},\
         \"region\":{{\"startLine\":{line},\"snippet\":{{\"text\":\"{snippet}\"}}}}}}}}]}}"
    )
}

fn scan_of(results: &str) -> CodeQlDiffScanResult {
    scan_prebuilt_database(
        &vec![sample_rule()],
        "/db",
        &Ok(()),
        &Ok(Vec::new()),
        vec![Ok(document(results))],
    )
    .expect("a scan")
}

#[test]
fn like_results_are_numbered() {
    let both = [result_at(1, "x"), result_at(9, "x"), result_at(5, "y")].join(",");
    let scan = scan_of(&both);
    let identities: Vec<(usize, &str)> =
        scan.findings.iter().map(|f| (f.finding.line, f.identity.as_str())).collect();
    assert_eq!(
        identities,
        vec![(1, "snippet:x#1"), (5, "snippet:y#1"), (9, "snippet:x#2")]
    );
}

#[test]
fn comparisons_find_what_is_new() {
    let base = scan_of(&result_at(1, "x"));
    let moved = scan_of(&result_at(7, "x"));
    let diff = diff_prebuilt_database_findings(moved, base).expect("comparable");
    assert!(diff.new_findings.is_empty());

    let base = scan_of(&result_at(1, "x"));
    let more = scan_of(&[result_at(1, "x"), result_at(2, "y")].join(","));
    let diff = diff_prebuilt_database_findings(more, base).expect("comparable");
    assert_eq!(diff.new_findings.len(), 1);
    assert_eq!(diff.new_findings[0].file, "a.c");
    assert_eq!(diff.new_findings[0].line, 2);
    assert_eq!(diff.new_findings[0].snippet, "y");
}

#[test]
fn databases_with_other_namespaces_are_not_compared() {
    let mut base = scan_of("");
    base.namespaces.push(("r".to_string(), "A".to_string()));
    let error = diff_prebuilt_database_findings(scan_of(""), base).unwrap_err();
    assert_eq!(
        error,
        "paired CodeQL databases have incompatible multi-base uriBaseId namespaces; unable to map \
         them safely"
    );
}

#[test]
fn scans_for_comparison_fail_as_a_whole() {
    let rules = vec![sample_rule()];
    let run = |probe: Result<(), String>, roots: Result<Vec<String>, String>, outcome| {
        scan_prebuilt_database(&rules, "/db", &probe, &roots, vec![outcome]).map(|_| ())
    };
    assert_eq!(
        run(Err("gone".to_string()), Ok(vec![]), Ok(String::new())),
        Err("CodeQL diff skipped: gone; install CodeQL (`codeql`) to compare configured databases"
            .to_string())
    );
    assert_eq!(
        run(Ok(()), Err("bad".to_string()), Ok(String::new())),
        Err("bad".to_string())
    );
    assert_eq!(
        run(Ok(()), Ok(vec![]), Err("boom".to_string())),
        Err("CodeQL diff failed: rule 'kernel/codeql-test' against /db: boom".to_string())
    );
    let invalid = "CodeQL diff failed: rule 'kernel/codeql-test' against /db produced invalid \
                   SARIF: ";
    let why = |text: &str| {
        run(Ok(()), Ok(vec![]), Ok(text.to_string()))
            .unwrap_err()
            .strip_prefix(invalid)
            .expect("an invalid document")
            .to_string()
    };
    assert!(why("{").starts_with("invalid JSON: "));
    assert_eq!(why("{}"), "missing SARIF version");
    assert_eq!(
        why("{\"version\":\"2.0.0\"}"),
        "unsupported SARIF version '2.0.0'; expected 2.1.0"
    );
    assert_eq!(why("{\"version\":\"2.1.0\"}"), "missing SARIF runs array");
    assert_eq!(why("{\"version\":\"2.1.0\",\"runs\":[]}"), "SARIF runs array is empty");
    assert_eq!(why("{\"version\":\"2.1.0\",\"runs\":[{}]}"), "SARIF run 1 lacks a tool object");
    assert_eq!(
        why("{\"version\":\"2.1.0\",\"runs\":[{\"tool\":{}}]}"),
        "SARIF run 1 lacks a tool driver object"
    );
    assert_eq!(
        why("{\"version\":\"2.1.0\",\"runs\":[{\"tool\":{\"driver\":{\"name\":\" \"}}}]}"),
        "SARIF run 1 has a driver without a name"
    );
    assert_eq!(
        why("{\"version\":\"2.1.0\",\"runs\":[{\"tool\":{\"driver\":{\"name\":\"C\"}}}]}"),
        "SARIF run 1 has a missing or non-array results field"
    );
    assert_eq!(why(&document("{}")), "SARIF result 1 in run 1 lacks a physical location");
    let outside = document(&result_at(1, "x")).replace("a.c", "../a.c");
    assert_eq!(
        why(&outside),
        "SARIF result 1 in run 1 has an unsafe artifact path: relative artifact path ../a.c \
         escapes its root"
    );
    let none = scan_prebuilt_database(&vec![], "/db", &Ok(()), &Ok(vec![]), vec![]).unwrap();
    assert_eq!(none.files_scanned, 0);
}

#[test]
fn several_bases_are_told_apart() {
    let text = |s: &str| Node::Text(s.to_string());
    let base = |uri: &str| Node::Table(vec![(text("uri"), text(uri))]);
    let run = Node::Table(vec![(
        text("originalUriBaseIds"),
        Node::Table(vec![(text("A"), base("file:///x/")), (text("B"), base("file:///y/"))]),
    )]);
    let resolver = CodeQlSarifPathResolver::from_run(&run, &Vec::new()).expect("two bases");
    assert_eq!(resolver.comparison_namespaces, vec!["A".to_string(), "B".to_string()]);
    let location =
        Node::Table(vec![(text("uri"), text("file:///x/s/a.c")), (text("uriBaseId"), text("A"))]);
    assert_eq!(
        resolver.normalize_artifact_location(&location),
        Ok(("s/a.c".to_string(), "codeql-uri-base/41/s/a.c".to_string()))
    );
    let unknown = Node::Table(vec![(text("uri"), text("a.c")), (text("uriBaseId"), text("Z"))]);
    assert_eq!(
        resolver.normalize_artifact_location(&unknown),
        Err("artifact references unknown uriBaseId 'Z'".to_string())
    );
    let relative = Node::Table(vec![(
        text("originalUriBaseIds"),
        Node::Table(vec![(text("A"), base("x/"))]),
    )]);
    assert_eq!(
        CodeQlSarifPathResolver::from_run(&relative, &Vec::new()).map(|_| ()),
        Err("originalUriBaseIds.A is not an absolute file URI".to_string())
    );
}

#[test]
fn addresses_become_paths() {
    assert_eq!(decode_sarif_uri("a%20b"), Ok("a b".to_string()));
    assert_eq!(decode_sarif_uri("a%2"), Err("invalid percent escape in URI 'a%2'".to_string()));
    assert_eq!(decode_sarif_uri("%ff"), Err("URI '%ff' is not valid UTF-8".to_string()));
    assert_eq!(sarif_uri_path("file://localhost/a"), Ok("/a".to_string()));
    assert_eq!(
        sarif_uri_path("file://host/a"),
        Err("unsupported non-local file URI 'host/a'".to_string())
    );
    assert_eq!(
        sarif_uri_path("http://a"),
        Err("unsupported artifact URI 'http://a'".to_string())
    );
    assert!(sarif_uri_path("C:/a").is_err());
    assert_eq!(stable_relative_path("./a/x/../b.c"), Ok("a/b.c".to_string()));
    assert_eq!(
        stable_relative_path("."),
        Err("artifact path does not identify a source file".to_string())
    );
    assert_eq!(
        stable_path_under_root("/x/y", &vec!["z".to_string()]),
        Err("artifact path /x/y is outside /z".to_string())
    );
    assert_eq!(uri_base_comparison_path("ab", "c"), "codeql-uri-base/6162/c");
}

#[test]
fn fingerprints_prefer_well_known_names() {
    let text = |s: &str| Node::Text(s.to_string());
    let result = Node::Table(vec![(
        text("fingerprints"),
        Node::Table(vec![(text("zeta"), text("1")), (text("alpha"), text("2"))]),
    )]);
    assert_eq!(sarif_fingerprint(&result).as_deref(), Some("fingerprints:alpha:2"));
    assert_eq!(sarif_fingerprint(&Node::Null), None);
}
