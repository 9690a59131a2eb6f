use foxguard::report::semgrep_migration::render_terminal;
use foxguard::rules::semgrep_readiness::{
    assess_semgrep_migration_readiness, is_semgrep_yaml, readiness_record,
    SemgrepImportDiagnostic, SemgrepImportSourceOutcome, SemgrepMigrationDisposition,
    SemgrepMigrationReasonCode,
};

fn source(
    id: &str,
    language: &str,
    emitted: bool,
    diagnostics: &[SemgrepImportDiagnostic],
) -> SemgrepImportSourceOutcome {
    SemgrepImportSourceOutcome {
        source_id: id.to_string(),
        language: language.to_string(),
        emitted,
        diagnostics: diagnostics.to_vec(),
    }
}

#[test]
fn records_tell_what_became_of_a_rule() {
    let exact = readiness_record(&source("a", "python", true, &[]));
    assert_eq!(exact.disposition, SemgrepMigrationDisposition::Exact);
    assert_eq!(exact.reason_code, SemgrepMigrationReasonCode::Exact);
    let degraded = readiness_record(&source(
        "a",
        "python",
        true,
        &[SemgrepImportDiagnostic::UnsupportedFixRegex, SemgrepImportDiagnostic::InvalidDocument],
    ));
    assert_eq!(degraded.disposition, SemgrepMigrationDisposition::Degraded);
    assert_eq!(degraded.reason_code, SemgrepMigrationReasonCode::UnsupportedFixRegex);
    let skipped = readiness_record(&source(
        "a",
        "python",
        false,
        &[
            SemgrepImportDiagnostic::UnsupportedLanguage,
            SemgrepImportDiagnostic::FileImportFailed,
            SemgrepImportDiagnostic::InvalidDocument,
        ],
    ));
    assert_eq!(skipped.disposition, SemgrepMigrationDisposition::Skipped);
    assert_eq!(skipped.reason_code, SemgrepMigrationReasonCode::InvalidDocument);
    let failed = readiness_record(&source(
        "a",
        "python",
        false,
        &[SemgrepImportDiagnostic::UnsupportedLanguage, SemgrepImportDiagnostic::FileImportFailed],
    ));
    assert_eq!(failed.reason_code, SemgrepMigrationReasonCode::FileImportFailed);
    let rejected = readiness_record(&source("a", "python", false, &[]));
    assert_eq!(rejected.reason_code, SemgrepMigrationReasonCode::LoaderRejected);
    assert_eq!(rejected.reason_code.as_str(), "loader-rejected");
}

fn pack() -> Vec<Vec<SemgrepImportSourceOutcome>> {
    vec![
        vec![
            source("b", "python", true, &[]),
            source("a", "go", true, &[SemgrepImportDiagnostic::UnsupportedConstruct]),
        ],
        vec![source("c", "go", false, &[SemgrepImportDiagnostic::EngineCodeql])],
    ]
}

#[test]
fn packs_are_reported_in_order() {
    let report = assess_semgrep_migration_readiness("/p", &Some(pack())).expect("a report");
    assert_eq!(
        render_terminal(&report),
        "Semgrep migration readiness (schema 1.0.0)\n\
         Rules: 3  exact: 1  degraded: 1  skipped: 1\n\n\
         By language:\n\
         \u{20} go: exact=0 degraded=1 skipped=1\n\
         \u{20} python: exact=1 degraded=0 skipped=0\n\
         \nBy reason:\n\
         \u{20} exact: 1\n\
         \u{20} unsupported-construct: 1\n\
         \u{20} engine-codeql: 1\n\
         \nRecords:\n\
         \u{20} a  go  degraded  unsupported-construct\n\
         \u{20} b  python  exact  exact\n\
         \u{20} c  go  skipped  engine-codeql\n"
    );
    let mut reversed = pack();
    reversed.reverse();
    let again = assess_semgrep_migration_readiness("/p", &Some(reversed)).expect("a report");
    assert_eq!(again, report);
    assert_eq!(report.total_by_disposition().len(), 3);
    assert_eq!(report.total_by_reason().len(), 3);
    assert_eq!(report.total_by_language().len(), 2);
}

#[test]
fn missing_packs_are_errors() {
    assert_eq!(
        assess_semgrep_migration_readiness("/p", &None),
        Err("Semgrep rule pack path does not exist: /p".to_string())
    );
}

#[test]
fn rule_files_are_told_by_their_extension() {
    assert!(is_semgrep_yaml("rules/a.yaml"));
    assert!(is_semgrep_yaml("rules/a.b.yml"));
    assert!(!is_semgrep_yaml("rules/a.json"));
    assert!(!is_semgrep_yaml("rules/.yml"));
    assert!(!is_semgrep_yaml("rules/yml"));
}
